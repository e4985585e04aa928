//! Item producers a build draws from.
use vstd::prelude::*;

verus! {

/// A producer that may be called from many threads at once; the items of a
/// block made from it may be produced in parallel.
pub trait DataGen: Sync {
    type Output;

    /// Produces one item.
    fn gen(&self) -> Self::Output;

    /// Advances as if `num` items had been produced.
    fn skip(&mut self, num: usize);
}

/// A producer that must be called by one caller, strictly in order.
pub trait MutDataGen {
    type Output;

    /// Produces one item.
    fn gen(&mut self) -> Self::Output;

    /// Advances as if `num` items had been produced.
    fn skip(&mut self, num: usize);
}

} // verus!
