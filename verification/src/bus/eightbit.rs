use vstd::prelude::*;
use crate::bits::{bits, lemma_mask_reads_bit};
use crate::bus::DataBus;
use crate::levels::{after, lemma_after_concat, lemma_after_one, lemma_rises_concat};
use crate::protocol::{
    confined, lemma_confined_concat, lemma_presents_concat, lemma_quiet_is_well_pulsed,
    lemma_quiet_presents, lemma_transaction_presents, lemma_transaction_shape,
    lemma_well_pulsed_concat, presents, quiet, release, rests, select, transaction, transmits,
    Frame, Wiring,
};
use crate::step::{present, Pin, Step, ENABLE_PULSE_MS};

verus! {

/// A bus of ten lines: register select, enable and eight data lines. It sends
/// a byte in one transaction.
pub struct EightBitBus {
    rs: Pin,
    en: Pin,
    d0: Pin,
    d1: Pin,
    d2: Pin,
    d3: Pin,
    d4: Pin,
    d5: Pin,
    d6: Pin,
    d7: Pin,
}

impl View for EightBitBus {
    type V = Wiring;

    closed spec fn view(&self) -> Wiring {
        Wiring {
            rs: self.rs,
            en: self.en,
            data: seq![
                self.d0,
                self.d1,
                self.d2,
                self.d3,
                self.d4,
                self.d5,
                self.d6,
                self.d7,
            ],
        }
    }
}

impl EightBitBus {
    /// Takes the ten lines, each for the part that its place in the list
    /// gives it. No line may be given twice: the bus owns each of them alone.
    pub fn from_pins(
        rs: Pin,
        en: Pin,
        d0: Pin,
        d1: Pin,
        d2: Pin,
        d3: Pin,
        d4: Pin,
        d5: Pin,
        d6: Pin,
        d7: Pin,
    ) -> (bus: EightBitBus)
        requires
            (Wiring { rs, en, data: seq![d0, d1, d2, d3, d4, d5, d6, d7] }).distinct(),
        ensures
            bus@ == (Wiring { rs, en, data: seq![d0, d1, d2, d3, d4, d5, d6, d7] }),
    {
        EightBitBus { rs, en, d0, d1, d2, d3, d4, d5, d6, d7 }
    }

    /// No line plays two parts.
    #[verifier::type_invariant]
    spec fn wired(self) -> bool {
        self@.distinct()
    }

    /// Puts the eight bits of `data` on the data lines, bit 0 on the first.
    fn set_bus_bits(&self, data: u8, steps: &mut Vec<Step>)
        ensures
            final(steps)@ == old(steps)@ + present(self@.data, bits(data, 0, 8)),
    {
        let db0: bool = (0b0000_0001 & data) != 0;
        let db1: bool = (0b0000_0010 & data) != 0;
        let db2: bool = (0b0000_0100 & data) != 0;
        let db3: bool = (0b0000_1000 & data) != 0;
        let db4: bool = (0b0001_0000 & data) != 0;
        let db5: bool = (0b0010_0000 & data) != 0;
        let db6: bool = (0b0100_0000 & data) != 0;
        let db7: bool = (0b1000_0000 & data) != 0;

        steps.push(Step::Drive { pin: self.d0, high: db0 });
        steps.push(Step::Drive { pin: self.d1, high: db1 });
        steps.push(Step::Drive { pin: self.d2, high: db2 });
        steps.push(Step::Drive { pin: self.d3, high: db3 });
        steps.push(Step::Drive { pin: self.d4, high: db4 });
        steps.push(Step::Drive { pin: self.d5, high: db5 });
        steps.push(Step::Drive { pin: self.d6, high: db6 });
        steps.push(Step::Drive { pin: self.d7, high: db7 });

        proof {
            lemma_mask_reads_bit(data);
            assert(steps@ =~= old(steps)@ + present(self@.data, bits(data, 0, 8)));
        }
    }

    /// The steps of one transmit do transmit the frame of the byte.
    pub proof fn lemma_transmits(self, byte: u8, data: bool)
        requires
            self@.distinct(),
        ensures
            transmits(self@, self.steps(byte, data), self.frames(byte, data)),
    {
        let wiring = self@;
        let frames = self.frames(byte, data);
        let levels = bits(byte, 0, 8);
        let open = select(wiring.rs, data);
        let body = transaction(wiring, levels);
        let close = release(wiring.rs, data);
        let steps = self.steps(byte, data);

        assert(quiet(open, wiring.en) && confined(wiring, open));
        assert(quiet(close, wiring.en) && confined(wiring, close));
        lemma_quiet_is_well_pulsed(open, wiring.en);
        lemma_quiet_is_well_pulsed(close, wiring.en);
        lemma_transaction_shape(wiring, Set::empty(), levels);
        lemma_confined_concat(wiring, open, body);
        lemma_confined_concat(wiring, open + body, close);
        lemma_well_pulsed_concat(open, body, wiring.en);
        lemma_well_pulsed_concat(open + body, close, wiring.en);
        lemma_rises_concat(open, body, wiring.en);
        lemma_rises_concat(open + body, close, wiring.en);

        assert forall|init: Set<Pin>| #[trigger] rests(wiring, init, steps) by {
            let chosen = after(init, open);
            let shown = after(chosen, body);
            lemma_after_concat(init, open, body);
            lemma_after_concat(init, open + body, close);
            lemma_transaction_shape(wiring, chosen, levels);
            lemma_after_one(init, open[0]);
            if data {
                lemma_after_one(shown, close[0]);
            }
        }
        assert forall|init: Set<Pin>| !init.contains(wiring.en) implies #[trigger] presents(
            wiring,
            init,
            steps,
            frames,
        ) by {
            let chosen = after(init, open);
            let shown = after(chosen, body);
            lemma_after_concat(init, open, body);
            lemma_quiet_presents(wiring, init, open, frames, 0);
            lemma_transaction_shape(wiring, chosen, levels);
            lemma_transaction_presents(wiring, chosen, levels, frames, 0);
            lemma_presents_concat(wiring, init, open, body, frames, 0);
            lemma_quiet_presents(wiring, shown, close, frames, 1);
            lemma_presents_concat(wiring, init, open + body, close, frames, 0);
        }
    }
}

impl DataBus for EightBitBus {
    /// Address the register, run one transaction with all eight bits, and
    /// return register select to low.
    open spec fn steps(&self, byte: u8, data: bool) -> Seq<Step> {
        select(self@.rs, data) + transaction(self@, bits(byte, 0, 8)) + release(self@.rs, data)
    }

    /// One frame: the flag on register select and the eight bits on the data
    /// lines.
    open spec fn frames(&self, byte: u8, data: bool) -> Seq<Frame> {
        seq![Frame { select: data, lines: bits(byte, 0, 8) }]
    }

    fn write(&mut self, byte: u8, data: bool) -> (steps: Vec<Step>) {
        let mut steps: Vec<Step> = Vec::new();
        steps.push(Step::Drive { pin: self.rs, high: data });

        self.set_bus_bits(byte, &mut steps);

        steps.push(Step::Drive { pin: self.en, high: true });
        steps.push(Step::Delay { ms: ENABLE_PULSE_MS });
        steps.push(Step::Drive { pin: self.en, high: false });

        if data {
            steps.push(Step::Drive { pin: self.rs, high: false });
        }
        proof {
            use_type_invariant(&*self);
            assert(steps@ =~= self.steps(byte, data));
            self.lemma_transmits(byte, data);
        }
        steps
    }
}

} // verus!
