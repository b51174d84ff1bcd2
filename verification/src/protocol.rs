use vstd::prelude::*;
use crate::levels::{
    after, drives, lemma_after_concat, lemma_rises_concat, lemma_spared, lemma_take_next, rises,
};
use crate::step::{present, pulse, Pin, Step, ENABLE_PULSE_MS};

verus! {

/// Which line plays which part on a bus.
pub struct Wiring {
    /// Register select: high addresses the data register, low the command register.
    pub rs: Pin,
    /// Enable: the controller takes what the other lines show while it is pulsed.
    pub en: Pin,
    /// The data lines, lowest first.
    pub data: Seq<Pin>,
}

/// What the controller is shown during one enable pulse.
pub struct Frame {
    /// The level of register select.
    pub select: bool,
    /// The levels of the data lines, lowest first.
    pub lines: Seq<bool>,
}

impl Wiring {
    /// No line plays two parts.
    pub open spec fn distinct(self) -> bool {
        &&& self.rs != self.en
        &&& !self.data.contains(self.rs)
        &&& !self.data.contains(self.en)
        &&& self.data.no_duplicates()
    }

    /// `pin` is one of the lines of this bus.
    pub open spec fn owns(self, pin: Pin) -> bool {
        pin == self.rs || pin == self.en || self.data.contains(pin)
    }

    /// With the lines in `high` at logic high, the bus shows `frame`.
    pub open spec fn shows(self, high: Set<Pin>, frame: Frame) -> bool {
        &&& high.contains(self.rs) == frame.select
        &&& frame.lines.len() == self.data.len()
        &&& forall|k: int|
            0 <= k < self.data.len() ==> high.contains(#[trigger] self.data[k]) == frame.lines[k]
    }

    /// With the lines in `high` at logic high, the bus is at rest: register
    /// select and enable are both low.
    pub open spec fn at_rest(self, high: Set<Pin>) -> bool {
        !high.contains(self.rs) && !high.contains(self.en)
    }
}

/// The step that addresses the register: register select follows the flag.
pub open spec fn select(rs: Pin, data: bool) -> Seq<Step> {
    seq![Step::Drive { pin: rs, high: data }]
}

/// The step that returns register select to low, where a data write raised it.
pub open spec fn release(rs: Pin, data: bool) -> Seq<Step> {
    if data {
        seq![Step::Drive { pin: rs, high: false }]
    } else {
        Seq::empty()
    }
}

/// One transaction: put `levels` on the data lines, then pulse enable.
pub open spec fn transaction(wiring: Wiring, levels: Seq<bool>) -> Seq<Step> {
    present(wiring.data, levels) + pulse(wiring.en)
}

/// A pulse of `en` starts at step `i`: the line is raised, held for the pulse
/// width and lowered, in three steps that follow one another.
pub open spec fn pulse_at(steps: Seq<Step>, en: Pin, i: int) -> bool {
    &&& 0 <= i
    &&& i + 2 < steps.len()
    &&& steps[i] == Step::Drive { pin: en, high: true }
    &&& steps[i + 1] == Step::Delay { ms: ENABLE_PULSE_MS }
    &&& steps[i + 2] == Step::Drive { pin: en, high: false }
}

/// Step `i` keeps to the pulse discipline: if it raises `en` it starts a
/// pulse, if it lowers `en` it ends one, and if it is a delay it is the hold
/// of one.
pub open spec fn pulsed_at(steps: Seq<Step>, en: Pin, i: int) -> bool {
    match steps[i] {
        Step::Drive { pin, high } => pin == en ==> if high {
            pulse_at(steps, en, i)
        } else {
            pulse_at(steps, en, i - 2)
        },
        Step::Delay { ms } => pulse_at(steps, en, i - 1),
    }
}

/// `en` moves in whole pulses only, and nothing else takes time.
pub open spec fn well_pulsed(steps: Seq<Step>, en: Pin) -> bool {
    forall|i: int| 0 <= i < steps.len() ==> #[trigger] pulsed_at(steps, en, i)
}

/// Every line that `steps` drive is one of the bus.
pub open spec fn confined(wiring: Wiring, steps: Seq<Step>) -> bool {
    forall|i: int, pin: Pin|
        0 <= i < steps.len() && drives(#[trigger] steps[i], pin) ==> #[trigger] wiring.owns(pin)
}

/// What holds after the first `j` of `steps`, `seen` pulses having gone
/// before them: if the next step raises enable, the bus shows the frame of
/// the pulse that begins; and if enable is high, the bus shows the frame of
/// the pulse that is under way.
pub open spec fn presents_at(
    wiring: Wiring,
    init: Set<Pin>,
    steps: Seq<Step>,
    frames: Seq<Frame>,
    seen: nat,
    j: int,
) -> bool {
    let high = after(init, steps.take(j));
    let n = seen + rises(steps.take(j), wiring.en);
    let raise = Step::Drive { pin: wiring.en, high: true };
    &&& (j < steps.len() && steps[j] == raise) ==> {
        &&& n < frames.len()
        &&& wiring.shows(high, frames[n as int])
    }
    &&& high.contains(wiring.en) ==> {
        &&& 1 <= n <= frames.len()
        &&& wiring.shows(high, frames[n - 1])
    }
}

/// Started with the lines in `init` high and `seen` pulses gone before,
/// `steps` show the controller `frames`: pulse number `n`, counted from 0,
/// finds frame `n` on the lines when it begins and for as long as it lasts.
pub open spec fn presents_from(
    wiring: Wiring,
    init: Set<Pin>,
    steps: Seq<Step>,
    frames: Seq<Frame>,
    seen: nat,
) -> bool {
    forall|j: int|
        0 <= j <= steps.len() ==> #[trigger] presents_at(wiring, init, steps, frames, seen, j)
}

/// Started with the lines in `init` high, `steps` show the controller `frames`.
pub open spec fn presents(
    wiring: Wiring,
    init: Set<Pin>,
    steps: Seq<Step>,
    frames: Seq<Frame>,
) -> bool {
    presents_from(wiring, init, steps, frames, 0)
}

/// Whatever the levels before, `steps` leave the bus at rest.
pub open spec fn rests(wiring: Wiring, init: Set<Pin>, steps: Seq<Step>) -> bool {
    wiring.at_rest(after(init, steps))
}

/// `steps` transmit `frames` over the bus: they drive no line but the bus's
/// own, they move enable in whole pulses of the fixed width, one for each
/// frame; started with enable low they show each pulse its frame; and they
/// leave the bus at rest whatever the levels were before.
pub open spec fn transmits(wiring: Wiring, steps: Seq<Step>, frames: Seq<Frame>) -> bool {
    &&& confined(wiring, steps)
    &&& well_pulsed(steps, wiring.en)
    &&& rises(steps, wiring.en) == frames.len()
    &&& forall|init: Set<Pin>|
        !init.contains(wiring.en) ==> #[trigger] presents(wiring, init, steps, frames)
    &&& forall|init: Set<Pin>| #[trigger] rests(wiring, init, steps)
}

/// None of `steps` takes time or sets the level of `en`.
pub open spec fn quiet(steps: Seq<Step>, en: Pin) -> bool {
    forall|i: int|
        0 <= i < steps.len() ==> (#[trigger] steps[i]) is Drive && !drives(steps[i], en)
}

/// Steps that leave enable alone keep to the pulse discipline and raise nothing.
pub proof fn lemma_quiet_is_well_pulsed(steps: Seq<Step>, en: Pin)
    requires
        quiet(steps, en),
    ensures
        well_pulsed(steps, en),
        rises(steps, en) == 0,
{
    assert forall|i: int| 0 <= i < steps.len() implies #[trigger] pulsed_at(steps, en, i) by {
        assert(steps[i] is Drive && !drives(steps[i], en));
    }
    lemma_spared(Set::empty(), steps, en);
}

/// Started with enable low, steps that leave enable alone are no occasion to
/// show anything, and leave enable low.
pub proof fn lemma_quiet_presents(
    wiring: Wiring,
    init: Set<Pin>,
    steps: Seq<Step>,
    frames: Seq<Frame>,
    seen: nat,
)
    requires
        quiet(steps, wiring.en),
        !init.contains(wiring.en),
    ensures
        presents_from(wiring, init, steps, frames, seen),
        !after(init, steps).contains(wiring.en),
{
    lemma_spared(init, steps, wiring.en);
    assert forall|j: int| 0 <= j <= steps.len() implies #[trigger] presents_at(
        wiring,
        init,
        steps,
        frames,
        seen,
        j,
    ) by {
        let head = steps.take(j);
        assert forall|i: int| 0 <= i < head.len() implies !drives(#[trigger] head[i], wiring.en) by {
            assert(head[i] == steps[i]);
        }
        lemma_spared(init, head, wiring.en);
        if j < steps.len() {
            assert(!drives(steps[j], wiring.en));
        }
    }
}

/// Keeping to the pulse discipline carries over to a concatenation.
pub proof fn lemma_well_pulsed_concat(a: Seq<Step>, b: Seq<Step>, en: Pin)
    requires
        well_pulsed(a, en),
        well_pulsed(b, en),
    ensures
        well_pulsed(a + b, en),
{
    let ab = a + b;
    assert forall|i: int| 0 <= i < ab.len() implies #[trigger] pulsed_at(ab, en, i) by {
        if i < a.len() {
            assert(pulsed_at(a, en, i));
            assert(ab[i] == a[i]);
            assert forall|k: int| pulse_at(a, en, k) implies pulse_at(ab, en, k) by {
                assert(ab[k] == a[k]);
                assert(ab[k + 1] == a[k + 1]);
                assert(ab[k + 2] == a[k + 2]);
            }
        } else {
            let shift = a.len() as int;
            assert(pulsed_at(b, en, i - shift));
            assert(ab[i] == b[i - shift]);
            assert forall|k: int| pulse_at(b, en, k) implies pulse_at(ab, en, k + shift) by {
                assert(ab[k + shift] == b[k]);
                assert(ab[k + shift + 1] == b[k + 1]);
                assert(ab[k + shift + 2] == b[k + 2]);
            }
        }
    }
}

/// Keeping to the bus's own lines carries over to a concatenation.
pub proof fn lemma_confined_concat(wiring: Wiring, a: Seq<Step>, b: Seq<Step>)
    requires
        confined(wiring, a),
        confined(wiring, b),
    ensures
        confined(wiring, a + b),
{
    let ab = a + b;
    assert forall|i: int, pin: Pin|
        0 <= i < ab.len() && drives(#[trigger] ab[i], pin) implies #[trigger] wiring.owns(pin) by {
        if i < a.len() {
            assert(ab[i] == a[i]);
            assert(drives(a[i], pin));
        } else {
            assert(ab[i] == b[i - a.len()]);
            assert(drives(b[i - a.len()], pin));
        }
    }
}

/// Showing frames carries over to a concatenation: the second part starts
/// from the levels that the first leaves, with the pulses of the first gone
/// before it.
pub proof fn lemma_presents_concat(
    wiring: Wiring,
    init: Set<Pin>,
    a: Seq<Step>,
    b: Seq<Step>,
    frames: Seq<Frame>,
    seen: nat,
)
    requires
        presents_from(wiring, init, a, frames, seen),
        presents_from(wiring, after(init, a), b, frames, seen + rises(a, wiring.en)),
    ensures
        presents_from(wiring, init, a + b, frames, seen),
{
    let ab = a + b;
    assert forall|j: int| 0 <= j <= ab.len() implies #[trigger] presents_at(
        wiring,
        init,
        ab,
        frames,
        seen,
        j,
    ) by {
        if j < a.len() {
            assert(ab.take(j) =~= a.take(j));
            assert(ab[j] == a[j]);
            assert(presents_at(wiring, init, a, frames, seen, j));
        } else {
            let k = j - a.len();
            assert(ab.take(j) =~= a + b.take(k));
            lemma_after_concat(init, a, b.take(k));
            lemma_rises_concat(a, b.take(k), wiring.en);
            if j < ab.len() {
                assert(ab[j] == b[k]);
            }
            assert(presents_at(
                wiring,
                after(init, a),
                b,
                frames,
                seen + rises(a, wiring.en),
                k,
            ));
        }
    }
}

/// Once `levels` are put on `lines`, each line has its level and every other
/// line has the level it had.
pub proof fn lemma_after_present(high: Set<Pin>, lines: Seq<Pin>, levels: Seq<bool>)
    requires
        levels.len() == lines.len(),
        lines.no_duplicates(),
    ensures
        forall|k: int|
            0 <= k < lines.len() ==> after(high, present(lines, levels)).contains(
                #[trigger] lines[k],
            ) == levels[k],
        forall|pin: Pin|
            !lines.contains(pin) ==> #[trigger] after(high, present(lines, levels)).contains(pin)
                == high.contains(pin),
    decreases lines.len(),
{
    let steps = present(lines, levels);
    if lines.len() > 0 {
        let n = lines.len() - 1;
        assert(steps.drop_last() =~= present(lines.drop_last(), levels.drop_last()));
        lemma_after_present(high, lines.drop_last(), levels.drop_last());
        let before = after(high, steps.drop_last());
        assert(steps.last() == Step::Drive { pin: lines[n], high: levels[n] });
        assert forall|k: int| 0 <= k < lines.len() implies after(high, steps).contains(
            #[trigger] lines[k],
        ) == levels[k] by {
            if k < n {
                assert(lines.drop_last()[k] == lines[k]);
                assert(lines[k] != lines[n]);
            }
        }
        assert forall|pin: Pin| !lines.contains(pin) implies #[trigger] after(
            high,
            steps,
        ).contains(pin) == high.contains(pin) by {
            assert(pin != lines[n]);
            assert forall|i: int| 0 <= i < n implies lines.drop_last()[i] != pin by {
                assert(lines.drop_last()[i] == lines[i]);
            }
            assert(!lines.drop_last().contains(pin));
        }
    }
}

/// Putting levels on the data lines takes no time and leaves enable alone.
pub proof fn lemma_present_is_quiet(wiring: Wiring, levels: Seq<bool>)
    requires
        wiring.distinct(),
    ensures
        quiet(present(wiring.data, levels), wiring.en),
        confined(wiring, present(wiring.data, levels)),
{
    let steps = present(wiring.data, levels);
    assert forall|i: int| 0 <= i < steps.len() implies (#[trigger] steps[i]) is Drive && !drives(
        steps[i],
        wiring.en,
    ) by {
        assert(wiring.data[i] != wiring.en);
    }
    assert forall|i: int, pin: Pin|
        0 <= i < steps.len() && drives(#[trigger] steps[i], pin) implies #[trigger] wiring.owns(
        pin,
    ) by {
        assert(wiring.data[i] == pin);
    }
}

/// One pulse keeps to the discipline and to the bus's own lines, raises
/// enable once, and leaves enable low and every other line as it was.
pub proof fn lemma_pulse_shape(wiring: Wiring, init: Set<Pin>)
    ensures
        confined(wiring, pulse(wiring.en)),
        well_pulsed(pulse(wiring.en), wiring.en),
        rises(pulse(wiring.en), wiring.en) == 1,
        after(init, pulse(wiring.en)) == init.remove(wiring.en),
{
    let en = wiring.en;
    let steps = pulse(en);
    lemma_take_next(init, steps, 0, en);
    lemma_take_next(init, steps, 1, en);
    lemma_take_next(init, steps, 2, en);
    assert(steps.take(3) =~= steps);
    assert(pulse_at(steps, en, 0));
    assert(after(init, steps) =~= init.remove(en));
}

/// One pulse, begun with enable low and the bus showing the frame that is due,
/// shows that frame from beginning to end.
pub proof fn lemma_pulse_presents(wiring: Wiring, init: Set<Pin>, frames: Seq<Frame>, seen: nat)
    requires
        wiring.distinct(),
        !init.contains(wiring.en),
        seen < frames.len(),
        wiring.shows(init, frames[seen as int]),
    ensures
        presents_from(wiring, init, pulse(wiring.en), frames, seen),
{
    let en = wiring.en;
    let steps = pulse(en);
    let frame = frames[seen as int];
    lemma_take_next(init, steps, 0, en);
    lemma_take_next(init, steps, 1, en);
    lemma_take_next(init, steps, 2, en);
    assert(wiring.shows(init.insert(en), frame)) by {
        assert forall|k: int| 0 <= k < wiring.data.len() implies init.insert(en).contains(
            #[trigger] wiring.data[k],
        ) == frame.lines[k] by {
            assert(wiring.data[k] != en);
        }
    }
    assert forall|j: int| 0 <= j <= steps.len() implies #[trigger] presents_at(
        wiring,
        init,
        steps,
        frames,
        seen,
        j,
    ) by {}
}

/// One transaction keeps to the discipline and to the bus's own lines and
/// raises enable once. Whatever the levels before it, it leaves the data lines
/// at the levels it was given, register select as it was, and enable low.
pub proof fn lemma_transaction_shape(wiring: Wiring, init: Set<Pin>, levels: Seq<bool>)
    requires
        wiring.distinct(),
        levels.len() == wiring.data.len(),
    ensures
        confined(wiring, transaction(wiring, levels)),
        well_pulsed(transaction(wiring, levels), wiring.en),
        rises(transaction(wiring, levels), wiring.en) == 1,
        wiring.shows(
            after(init, transaction(wiring, levels)),
            Frame { select: init.contains(wiring.rs), lines: levels },
        ),
        !after(init, transaction(wiring, levels)).contains(wiring.en),
{
    let en = wiring.en;
    let put = present(wiring.data, levels);
    let shown = after(init, put);
    lemma_present_is_quiet(wiring, levels);
    lemma_quiet_is_well_pulsed(put, en);
    lemma_after_present(init, wiring.data, levels);
    lemma_pulse_shape(wiring, shown);
    lemma_confined_concat(wiring, put, pulse(en));
    lemma_well_pulsed_concat(put, pulse(en), en);
    lemma_rises_concat(put, pulse(en), en);
    lemma_after_concat(init, put, pulse(en));
    assert forall|k: int| 0 <= k < wiring.data.len() implies shown.remove(en).contains(
        #[trigger] wiring.data[k],
    ) == levels[k] by {
        assert(wiring.data[k] != en);
    }
}

/// One transaction, begun with enable low, shows the controller the levels it
/// was given beside the level that register select has.
pub proof fn lemma_transaction_presents(
    wiring: Wiring,
    init: Set<Pin>,
    levels: Seq<bool>,
    frames: Seq<Frame>,
    seen: nat,
)
    requires
        wiring.distinct(),
        levels.len() == wiring.data.len(),
        !init.contains(wiring.en),
        seen < frames.len(),
        frames[seen as int] == (Frame { select: init.contains(wiring.rs), lines: levels }),
    ensures
        presents_from(wiring, init, transaction(wiring, levels), frames, seen),
{
    let en = wiring.en;
    let put = present(wiring.data, levels);
    let shown = after(init, put);
    lemma_present_is_quiet(wiring, levels);
    lemma_quiet_is_well_pulsed(put, en);
    lemma_quiet_presents(wiring, init, put, frames, seen);
    lemma_after_present(init, wiring.data, levels);
    assert(wiring.shows(shown, frames[seen as int]));
    lemma_pulse_presents(wiring, shown, frames, seen);
    lemma_presents_concat(wiring, init, put, pulse(en), frames, seen);
}

/// Frames that come after those shown take nothing from what is shown.
pub proof fn lemma_presents_more(
    wiring: Wiring,
    init: Set<Pin>,
    steps: Seq<Step>,
    frames: Seq<Frame>,
    more: Seq<Frame>,
    seen: nat,
)
    requires
        presents_from(wiring, init, steps, frames, seen),
    ensures
        presents_from(wiring, init, steps, frames + more, seen),
{
    let all = frames + more;
    assert forall|j: int| 0 <= j <= steps.len() implies #[trigger] presents_at(
        wiring,
        init,
        steps,
        all,
        seen,
        j,
    ) by {
        assert(presents_at(wiring, init, steps, frames, seen, j));
        let n = seen + rises(steps.take(j), wiring.en);
        if n < frames.len() {
            assert(all[n as int] == frames[n as int]);
        }
        if 1 <= n <= frames.len() {
            assert(all[n - 1] == frames[n - 1]);
        }
    }
}

/// Frames that went before those shown take nothing from what is shown.
pub proof fn lemma_presents_later(
    wiring: Wiring,
    init: Set<Pin>,
    steps: Seq<Step>,
    gone: Seq<Frame>,
    frames: Seq<Frame>,
    seen: nat,
)
    requires
        presents_from(wiring, init, steps, frames, seen),
    ensures
        presents_from(wiring, init, steps, gone + frames, seen + gone.len()),
{
    let all = gone + frames;
    assert forall|j: int| 0 <= j <= steps.len() implies #[trigger] presents_at(
        wiring,
        init,
        steps,
        all,
        seen + gone.len(),
        j,
    ) by {
        assert(presents_at(wiring, init, steps, frames, seen, j));
        let n = seen + rises(steps.take(j), wiring.en);
        if n < frames.len() {
            assert(all[(n + gone.len()) as int] == frames[n as int]);
        }
        if 1 <= n <= frames.len() {
            assert(all[n + gone.len() - 1] == frames[n - 1]);
        }
    }
}

/// One transmit after another is a transmit of the frames of both: the first
/// leaves enable low, which is all that the second asks of the levels it
/// starts from.
pub proof fn lemma_transmits_in_turn(
    wiring: Wiring,
    first: Seq<Step>,
    shown: Seq<Frame>,
    second: Seq<Step>,
    due: Seq<Frame>,
)
    requires
        transmits(wiring, first, shown),
        transmits(wiring, second, due),
    ensures
        transmits(wiring, first + second, shown + due),
{
    let en = wiring.en;
    let steps = first + second;
    let frames = shown + due;
    lemma_confined_concat(wiring, first, second);
    lemma_well_pulsed_concat(first, second, en);
    lemma_rises_concat(first, second, en);
    assert forall|init: Set<Pin>| #[trigger] rests(wiring, init, steps) by {
        lemma_after_concat(init, first, second);
        assert(rests(wiring, after(init, first), second));
    }
    assert forall|init: Set<Pin>| !init.contains(en) implies #[trigger] presents(
        wiring,
        init,
        steps,
        frames,
    ) by {
        let between = after(init, first);
        assert(presents(wiring, init, first, shown));
        assert(rests(wiring, init, first));
        assert(presents(wiring, between, second, due));
        lemma_presents_more(wiring, init, first, shown, due, 0);
        lemma_presents_later(wiring, between, second, shown, due, 0);
        lemma_presents_concat(wiring, init, first, second, frames, 0);
    }
}

} // verus!
