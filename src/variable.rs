use vstd::prelude::*;

verus! {

/// A variable, identified by its index: `Var(0)` is `a`, `Var(23)` is `x`.
/// Variables are ordered by their index.
#[derive(Copy, Clone, Debug, PartialEq, Eq, PartialOrd, Ord, Hash, Structural)]
pub struct Var(pub usize);

/// The variable with the given index.
pub fn var(idx: usize) -> (r: Var)
    ensures
        r.0 == idx,
{
    Var(idx)
}

} // verus!
