//! A model wrapped for training.
use std::marker::PhantomData;

use vstd::prelude::*;

verus! {

/// A model `M` tied to a compute backend `B`.
pub struct TrainingModel<M, B>(pub M, PhantomData<B>);

impl<M, B> TrainingModel<M, B> {
    /// The wrapped model.
    pub closed spec fn model(&self) -> M {
        self.0
    }

    /// Wraps `model`.
    pub fn new(model: M) -> (r: Self)
        ensures
            r.model() == model,
    {
        TrainingModel(model, PhantomData)
    }
}

} // verus!
