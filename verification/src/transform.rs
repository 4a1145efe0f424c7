use vstd::prelude::*;

verus! {

/// What one edge of the conversion graph does to a value.
///
/// A fact `(a, f, b)` gives the edge from `a` to `b` the transform
/// `Multiply(f)` and the edge from `b` back to `a` the transform `Divide(f)`.
#[derive(Debug, PartialEq)]
pub enum Transform<F> {
    Multiply(F),
    Divide(F),
}

impl<F: Copy> Copy for Transform<F> {

}

impl<F: Copy> Clone for Transform<F> {
    fn clone(&self) -> (t: Self)
        ensures
            t == *self,
    {
        *self
    }
}

/// A conversion fact `(a, f, b)`: a value in unit `a`, multiplied by `f`, is
/// that value in unit `b`.
pub type Fact<'a, F> = (&'a str, F, &'a str);

/// A conversion request `(value, source, target)`.
pub type Query<'a, V> = (V, &'a str, &'a str);

/// A fact as contracts see it: both unit names as character sequences.
pub type FactSpec<F> = (Seq<char>, F, Seq<char>);

/// The facts of a list, each by the character sequences of its unit names.
pub open spec fn facts_spec<F>(facts: Seq<Fact<'_, F>>) -> Seq<FactSpec<F>> {
    Seq::new(facts.len(), |i: int| (facts[i].0@, facts[i].1, facts[i].2@))
}

} // verus!
