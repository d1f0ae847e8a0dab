//! Identifier allocation for scene elements and constraints.
use vstd::prelude::*;

verus! {

/// Hands out increasing `u32` identifiers, starting from 1.
#[derive(Debug)]
pub struct IDDispatcher {
    current_id: u32,
}

impl View for IDDispatcher {
    type V = u32;

    /// The last identifier handed out, or 0 when none was.
    closed spec fn view(&self) -> u32 {
        self.current_id
    }
}

impl Default for IDDispatcher {
    fn default() -> (r: Self)
        ensures
            r@ == 0,
    {
        Self::new()
    }
}

impl IDDispatcher {
    /// Creates a dispatcher that has handed out no identifier yet.
    pub fn new() -> (r: Self)
        ensures
            r@ == 0,
    {
        IDDispatcher { current_id: 0 }
    }

    /// Hands out the next identifier. Running out of identifiers is a fatal error, so the
    /// last identifier must not be `u32::MAX`.
    pub fn gen_id(&mut self) -> (id: u32)
        requires
            old(self)@ < u32::MAX,
        ensures
            id == old(self)@ + 1,
            final(self)@ == id,
    {
        self.current_id = self.current_id + 1;
        self.current_id
    }

    /// Forgets every identifier handed out, so the next one is 1 again.
    pub fn reset(&mut self)
        ensures
            final(self)@ == 0,
    {
        self.current_id = 0;
    }
}

} // verus!
