use vstd::prelude::*;

verus! {

/// Wrapper that threads a stage value (layout state, render state) through a
/// pass over the widget tree.
pub struct Context<T> {
    pub stage: T,
}

impl<T> Context<T> {
    pub fn new(stage: T) -> (r: Self)
        ensures
            r.stage == stage,
    {
        Self { stage }
    }

    /// Read access to the wrapped stage.
    pub fn stage(&self) -> (r: &T)
        ensures
            r == &self.stage,
    {
        &self.stage
    }

    /// Write access to the wrapped stage.
    pub fn stage_mut(&mut self) -> (r: &mut T)
        ensures
            *r == old(self).stage,
            final(self).stage == *final(r),
    {
        &mut self.stage
    }
}

} // verus!
