use vstd::prelude::*;
use crate::protocol::{transmits, Frame, Wiring};
use crate::step::Step;

pub mod eightbit;
pub mod fourbit;

verus! {

/// A bus that can transmit one byte to the display controller, as data or as
/// a command.
pub trait DataBus: View<V = Wiring> + Sized {
    /// The steps of one transmit, in the order in which they are to be done.
    spec fn steps(&self, byte: u8, data: bool) -> Seq<Step>;

    /// What one transmit shows the controller, pulse by pulse.
    spec fn frames(&self, byte: u8, data: bool) -> Seq<Frame>;

    /// Transmits `byte`, as data where `data` is set and as a command where
    /// it is not. The steps returned are the whole transmit: done in order and
    /// to the end, they show the controller the frames of the byte and leave
    /// the bus at rest. The bus is borrowed exclusively, as one transmit has
    /// to be over before the next begins; it is left as it was.
    fn write(&mut self, byte: u8, data: bool) -> (steps: Vec<Step>)
        ensures
            *final(self) == *old(self),
            steps@ == old(self).steps(byte, data),
            transmits(old(self)@, steps@, old(self).frames(byte, data)),
    ;
}

} // verus!
