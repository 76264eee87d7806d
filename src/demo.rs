//! A text component, as a program built on the store would define one.
use vstd::prelude::*;
use crate::store::Component;

verus! {

/// A component that carries a piece of text.
pub struct CompA {
    pub content: String,
}

impl CompA {
    /// Wraps `content`.
    pub fn new(content: String) -> (r: Self)
        ensures
            r.content == content,
    {
        CompA { content }
    }
}

impl Component for CompA {
    open spec fn kind_of(&self) -> usize {
        0
    }

    fn kind(&self) -> (k: usize) {
        0
    }
}

} // verus!
