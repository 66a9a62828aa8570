//! A hook that runs when the memory of an arena is given up.

use vstd::prelude::*;

verus! {

/// What to do when the memory of an arena is given up.
pub trait Dropper {
    /// Called once, right before the memory goes.
    fn on_drop(&mut self);
}

/// A [`Dropper`] that does nothing.
#[derive(Copy, Clone, Debug, Default)]
pub struct NoopDropper;

impl Dropper for NoopDropper {
    fn on_drop(&mut self) {
    }
}

} // verus!
