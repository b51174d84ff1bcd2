use vstd::prelude::*;
use crate::bits::{bits, lemma_mask_reads_bit};
use crate::bus::DataBus;
use crate::levels::{after, lemma_after_concat, lemma_after_one, lemma_rises_concat};
use crate::protocol::{
    confined, lemma_confined_concat, lemma_presents_concat, lemma_quiet_is_well_pulsed,
    lemma_quiet_presents, lemma_transaction_presents, lemma_transaction_shape,
    lemma_well_pulsed_concat, presents, quiet, release, rests, select, transaction, transmits,
    Frame, Wiring,
};
use crate::step::{present, Pin, Step, ENABLE_PULSE_MS};

verus! {

/// A bus of six lines: register select, enable and four data lines. It sends
/// a byte in two transactions over the same four lines, the upper half of the
/// byte first.
pub struct FourBitBus {
    rs: Pin,
    en: Pin,
    d4: Pin,
    d5: Pin,
    d6: Pin,
    d7: Pin,
}

impl View for FourBitBus {
    type V = Wiring;

    closed spec fn view(&self) -> Wiring {
        Wiring { rs: self.rs, en: self.en, data: seq![self.d4, self.d5, self.d6, self.d7] }
    }
}

impl FourBitBus {
    /// Takes the six lines, each for the part that its place in the list
    /// gives it. No line may be given twice: the bus owns each of them alone.
    pub fn from_pins(rs: Pin, en: Pin, d4: Pin, d5: Pin, d6: Pin, d7: Pin) -> (bus: FourBitBus)
        requires
            (Wiring { rs, en, data: seq![d4, d5, d6, d7] }).distinct(),
        ensures
            bus@ == (Wiring { rs, en, data: seq![d4, d5, d6, d7] }),
    {
        FourBitBus { rs, en, d4, d5, d6, d7 }
    }

    /// No line plays two parts.
    #[verifier::type_invariant]
    spec fn wired(self) -> bool {
        self@.distinct()
    }

    /// Puts bits 0 to 3 of `data` on the data lines, bit 0 on the first.
    fn write_lower_nibble(&self, data: u8, steps: &mut Vec<Step>)
        ensures
            final(steps)@ == old(steps)@ + present(self@.data, bits(data, 0, 4)),
    {
        let db0: bool = (0b0000_0001 & data) != 0;
        let db1: bool = (0b0000_0010 & data) != 0;
        let db2: bool = (0b0000_0100 & data) != 0;
        let db3: bool = (0b0000_1000 & data) != 0;

        steps.push(Step::Drive { pin: self.d4, high: db0 });
        steps.push(Step::Drive { pin: self.d5, high: db1 });
        steps.push(Step::Drive { pin: self.d6, high: db2 });
        steps.push(Step::Drive { pin: self.d7, high: db3 });

        proof {
            lemma_mask_reads_bit(data);
            assert(steps@ =~= old(steps)@ + present(self@.data, bits(data, 0, 4)));
        }
    }

    /// Puts bits 4 to 7 of `data` on the data lines, bit 4 on the first.
    fn write_upper_nibble(&self, data: u8, steps: &mut Vec<Step>)
        ensures
            final(steps)@ == old(steps)@ + present(self@.data, bits(data, 4, 4)),
    {
        let db4: bool = (0b0001_0000 & data) != 0;
        let db5: bool = (0b0010_0000 & data) != 0;
        let db6: bool = (0b0100_0000 & data) != 0;
        let db7: bool = (0b1000_0000 & data) != 0;

        steps.push(Step::Drive { pin: self.d4, high: db4 });
        steps.push(Step::Drive { pin: self.d5, high: db5 });
        steps.push(Step::Drive { pin: self.d6, high: db6 });
        steps.push(Step::Drive { pin: self.d7, high: db7 });

        proof {
            lemma_mask_reads_bit(data);
            assert(steps@ =~= old(steps)@ + present(self@.data, bits(data, 4, 4)));
        }
    }

    /// The steps of one transmit do transmit the two frames of the byte.
    pub proof fn lemma_transmits(self, byte: u8, data: bool)
        requires
            self@.distinct(),
        ensures
            transmits(self@, self.steps(byte, data), self.frames(byte, data)),
    {
        let wiring = self@;
        let en = wiring.en;
        let frames = self.frames(byte, data);
        let upper = bits(byte, 4, 4);
        let lower = bits(byte, 0, 4);
        let open = select(wiring.rs, data);
        let first = transaction(wiring, upper);
        let second = transaction(wiring, lower);
        let close = release(wiring.rs, data);
        let steps = self.steps(byte, data);

        assert(quiet(open, en) && confined(wiring, open));
        assert(quiet(close, en) && confined(wiring, close));
        lemma_quiet_is_well_pulsed(open, en);
        lemma_quiet_is_well_pulsed(close, en);
        lemma_transaction_shape(wiring, Set::empty(), upper);
        lemma_transaction_shape(wiring, Set::empty(), lower);
        lemma_confined_concat(wiring, open, first);
        lemma_confined_concat(wiring, open + first, second);
        lemma_confined_concat(wiring, open + first + second, close);
        lemma_well_pulsed_concat(open, first, en);
        lemma_well_pulsed_concat(open + first, second, en);
        lemma_well_pulsed_concat(open + first + second, close, en);
        lemma_rises_concat(open, first, en);
        lemma_rises_concat(open + first, second, en);
        lemma_rises_concat(open + first + second, close, en);

        assert forall|init: Set<Pin>| #[trigger] rests(wiring, init, steps) by {
            let chosen = after(init, open);
            let half = after(chosen, first);
            let whole = after(half, second);
            lemma_after_concat(init, open, first);
            lemma_after_concat(init, open + first, second);
            lemma_after_concat(init, open + first + second, close);
            lemma_after_one(init, open[0]);
            lemma_transaction_shape(wiring, chosen, upper);
            lemma_transaction_shape(wiring, half, lower);
            if data {
                lemma_after_one(whole, close[0]);
            }
        }
        assert forall|init: Set<Pin>| !init.contains(en) implies #[trigger] presents(
            wiring,
            init,
            steps,
            frames,
        ) by {
            let chosen = after(init, open);
            let half = after(chosen, first);
            let whole = after(half, second);
            lemma_after_concat(init, open, first);
            lemma_after_concat(init, open + first, second);
            lemma_quiet_presents(wiring, init, open, frames, 0);
            lemma_transaction_shape(wiring, chosen, upper);
            lemma_transaction_presents(wiring, chosen, upper, frames, 0);
            lemma_presents_concat(wiring, init, open, first, frames, 0);
            lemma_transaction_shape(wiring, half, lower);
            lemma_transaction_presents(wiring, half, lower, frames, 1);
            lemma_presents_concat(wiring, init, open + first, second, frames, 0);
            lemma_quiet_presents(wiring, whole, close, frames, 2);
            lemma_presents_concat(wiring, init, open + first + second, close, frames, 0);
        }
    }
}

impl DataBus for FourBitBus {
    /// Address the register, run one transaction with bits 4 to 7 and one
    /// with bits 0 to 3, and return register select to low.
    open spec fn steps(&self, byte: u8, data: bool) -> Seq<Step> {
        select(self@.rs, data) + transaction(self@, bits(byte, 4, 4)) + transaction(
            self@,
            bits(byte, 0, 4),
        ) + release(self@.rs, data)
    }

    /// Two frames, each with the flag on register select: bits 4 to 7 on the
    /// data lines, then bits 0 to 3.
    open spec fn frames(&self, byte: u8, data: bool) -> Seq<Frame> {
        seq![
            Frame { select: data, lines: bits(byte, 4, 4) },
            Frame { select: data, lines: bits(byte, 0, 4) },
        ]
    }

    fn write(&mut self, byte: u8, data: bool) -> (steps: Vec<Step>) {
        let mut steps: Vec<Step> = Vec::new();
        steps.push(Step::Drive { pin: self.rs, high: data });

        self.write_upper_nibble(byte, &mut steps);

        // Pulse enable for the controller to take the upper nibble
        steps.push(Step::Drive { pin: self.en, high: true });
        steps.push(Step::Delay { ms: ENABLE_PULSE_MS });
        steps.push(Step::Drive { pin: self.en, high: false });

        self.write_lower_nibble(byte, &mut steps);

        // Pulse enable for the controller to take the lower nibble
        steps.push(Step::Drive { pin: self.en, high: true });
        steps.push(Step::Delay { ms: ENABLE_PULSE_MS });
        steps.push(Step::Drive { pin: self.en, high: false });

        if data {
            steps.push(Step::Drive { pin: self.rs, high: false });
        }
        proof {
            use_type_invariant(&*self);
            assert(steps@ =~= self.steps(byte, data));
            self.lemma_transmits(byte, data);
        }
        steps
    }
}

} // verus!
