//! Transport layer of an HD44780-style parallel character display.
//!
//! A transmit turns one byte, flagged as data or as a command, into the timed
//! sequence of line transitions that presents it to the display controller.
//! The library computes that sequence as plain values and proves what the
//! controller sees of it; whoever owns the physical lines performs the steps
//! in order.

pub mod bits;
pub mod bus;
pub mod levels;
pub mod protocol;
pub mod step;

pub use bus::eightbit::EightBitBus;
pub use bus::fourbit::FourBitBus;
pub use bus::DataBus;
pub use step::{Pin, Step, ENABLE_PULSE_MS};
