use unit_graph::unit_map::UnitMap;

fn name(s: &str) -> String {
    s.to_string()
}

#[test]
fn a_new_map_is_empty() {
    let map: UnitMap<u32> = UnitMap::new();
    assert_eq!(map.len(), 0);
    assert_eq!(map.get(&name("m")), None);
    assert_eq!(map.position(&name("m")), None);
}

#[test]
fn keys_keep_the_order_in_which_they_came() {
    let mut map: UnitMap<u32> = UnitMap::new();
    map.insert(name("m"), 1);
    map.insert(name("ft"), 2);
    map.insert(name("in"), 3);
    assert_eq!(map.len(), 3);
    assert_eq!(map.position(&name("m")), Some(0));
    assert_eq!(map.position(&name("ft")), Some(1));
    assert_eq!(map.position(&name("in")), Some(2));
    assert_eq!(map.key_at(1), "ft");
    assert_eq!(*map.value_at(2), 3);
    assert_eq!(map.get(&name("ft")), Some(&2));
    assert_eq!(map.get(&name("yard")), None);
}

#[test]
fn a_second_insert_under_a_key_replaces_the_value_in_place() {
    let mut map: UnitMap<u32> = UnitMap::new();
    map.insert(name("m"), 1);
    map.insert(name("ft"), 2);
    map.insert(name("m"), 9);
    assert_eq!(map.len(), 2);
    assert_eq!(map.position(&name("m")), Some(0));
    assert_eq!(map.get(&name("m")), Some(&9));
    assert_eq!(map.get(&name("ft")), Some(&2));
}

#[test]
fn a_value_can_be_changed_in_place() {
    let mut map: UnitMap<Vec<u32>> = UnitMap::new();
    map.insert(name("m"), vec![1]);
    map.insert(name("ft"), vec![2]);
    map.value_at_mut(0).push(5);
    assert_eq!(map.get(&name("m")), Some(&vec![1, 5]));
    assert_eq!(map.get(&name("ft")), Some(&vec![2]));
    assert_eq!(map.len(), 2);
}

#[test]
fn keys_are_told_apart_exactly() {
    let mut map: UnitMap<u32> = UnitMap::new();
    map.insert(name("m"), 1);
    map.insert(name("M"), 2);
    map.insert(name(""), 3);
    map.insert(name("m "), 4);
    assert_eq!(map.len(), 4);
    assert_eq!(map.get(&name("m")), Some(&1));
    assert_eq!(map.get(&name("M")), Some(&2));
    assert_eq!(map.get(&name("")), Some(&3));
    assert_eq!(map.get(&name("m ")), Some(&4));
}
