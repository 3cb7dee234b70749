use vstd::prelude::*;

verus! {

/// A data flip-flop, the primitive sequential element: its output is always the
/// input of the previous clock cycle.
#[derive(Debug, Clone, Copy)]
pub struct DFF {
    /// Current output (committed at the last tick).
    state: bool,
    /// Input staged for the next tick.
    next: bool,
}

impl DFF {
    /// The current output.
    pub closed spec fn out(&self) -> bool {
        self.state
    }

    /// The input that the next tick commits.
    pub closed spec fn pending(&self) -> bool {
        self.next
    }

    /// A flip-flop whose output and staged input are both false.
    pub fn new() -> (r: Self)
        ensures
            r.out() == false,
            r.pending() == false,
    {
        DFF { state: false, next: false }
    }

    /// Stages `input` for the next tick; the output does not change yet.
    pub fn set(&mut self, input: bool)
        ensures
            final(self).out() == old(self).out(),
            final(self).pending() == input,
    {
        self.next = input;
    }

    /// The current output.
    pub fn get(&self) -> (r: bool)
        ensures
            r == self.out(),
    {
        self.state
    }

    /// Advances the clock: the staged input becomes the output.
    pub fn tick(&mut self)
        ensures
            final(self).out() == old(self).pending(),
            final(self).pending() == old(self).pending(),
    {
        self.state = self.next;
    }
}

impl Default for DFF {
    /// Same as `DFF::new`.
    fn default() -> (r: Self)
        ensures
            r.out() == false,
            r.pending() == false,
    {
        DFF::new()
    }
}

} // verus!
