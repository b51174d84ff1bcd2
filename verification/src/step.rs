use vstd::prelude::*;

verus! {

/// How long the enable line is held high in each pulse, in milliseconds.
pub const ENABLE_PULSE_MS: u8 = 2;

/// A digital output line, named by the number its owner knows it by.
#[derive(Clone, Copy, Debug, PartialEq, Eq, Hash, Structural)]
pub struct Pin(pub u8);

/// One thing to do on the way through a transmit.
#[derive(Clone, Copy, Debug, PartialEq, Eq, Structural)]
pub enum Step {
    /// Set the line to logic high or to logic low.
    Drive { pin: Pin, high: bool },
    /// Block for at least this many milliseconds.
    Delay { ms: u8 },
}

/// The three steps of one enable pulse: raise the line, hold it, lower it.
pub open spec fn pulse(en: Pin) -> Seq<Step> {
    seq![
        Step::Drive { pin: en, high: true },
        Step::Delay { ms: ENABLE_PULSE_MS },
        Step::Drive { pin: en, high: false },
    ]
}

/// The steps that put `levels` on `lines`, line by line from the first.
pub open spec fn present(lines: Seq<Pin>, levels: Seq<bool>) -> Seq<Step> {
    Seq::new(lines.len(), |k: int| Step::Drive { pin: lines[k], high: levels[k] })
}

} // verus!
