//! What a headless client is told to do, in place of a user's typing.

use vstd::prelude::*;

verus! {

/// The input of one tick.
#[derive(Debug, PartialEq, Eq)]
pub struct Input {
    /// The text to broadcast, if any.
    pub broadcast: Option<String>,
}

impl Clone for Input {
    fn clone(&self) -> (copy: Input)
        ensures
            copy.broadcast.deep_view() == self.broadcast.deep_view(),
    {
        match &self.broadcast {
            Some(text) => Input { broadcast: Some(text.clone()) },
            None => Input { broadcast: None },
        }
    }
}

impl Input {
    /// No input: nothing to broadcast.
    pub fn new() -> (input: Input)
        ensures
            input.broadcast is None,
    {
        Input { broadcast: None }
    }
}

} // verus!
