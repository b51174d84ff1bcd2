use vstd::prelude::*;
use crate::step::{Pin, Step};

verus! {

/// The lines at logic high once `step` is done, `high` being those before it.
pub open spec fn after_step(high: Set<Pin>, step: Step) -> Set<Pin> {
    match step {
        Step::Drive { pin, high: level } => if level {
            high.insert(pin)
        } else {
            high.remove(pin)
        },
        Step::Delay { ms } => high,
    }
}

/// The lines at logic high once all of `steps` are done in order.
pub open spec fn after(high: Set<Pin>, steps: Seq<Step>) -> Set<Pin>
    decreases steps.len(),
{
    if steps.len() == 0 {
        high
    } else {
        after_step(after(high, steps.drop_last()), steps.last())
    }
}

/// How many of `steps` drive `pin` high.
pub open spec fn rises(steps: Seq<Step>, pin: Pin) -> nat
    decreases steps.len(),
{
    if steps.len() == 0 {
        0
    } else if steps.last() == (Step::Drive { pin, high: true }) {
        rises(steps.drop_last(), pin) + 1
    } else {
        rises(steps.drop_last(), pin)
    }
}

/// `step` sets the level of `pin`.
pub open spec fn drives(step: Step, pin: Pin) -> bool {
    match step {
        Step::Drive { pin: driven, high } => driven == pin,
        Step::Delay { ms } => false,
    }
}

/// None of `steps` sets the level of `pin`.
pub open spec fn spares(steps: Seq<Step>, pin: Pin) -> bool {
    forall|i: int| 0 <= i < steps.len() ==> !drives(#[trigger] steps[i], pin)
}

/// A sequence of one step does what the step does.
pub proof fn lemma_after_one(high: Set<Pin>, step: Step)
    ensures
        after(high, seq![step]) == after_step(high, step),
{
    let one = seq![step];
    assert(one.len() == 1 && one.last() == step);
    assert(after(high, one.drop_last()) == high);
}

/// Doing `a` and then `b` is doing `a + b`.
pub proof fn lemma_after_concat(high: Set<Pin>, a: Seq<Step>, b: Seq<Step>)
    ensures
        after(high, a + b) == after(after(high, a), b),
    decreases b.len(),
{
    if b.len() == 0 {
        assert(a + b =~= a);
    } else {
        assert((a + b).drop_last() =~= a + b.drop_last());
        lemma_after_concat(high, a, b.drop_last());
    }
}

/// The rises of `a + b` are those of `a` and those of `b`.
pub proof fn lemma_rises_concat(a: Seq<Step>, b: Seq<Step>, pin: Pin)
    ensures
        rises(a + b, pin) == rises(a, pin) + rises(b, pin),
    decreases b.len(),
{
    if b.len() == 0 {
        assert(a + b =~= a);
    } else {
        assert((a + b).drop_last() =~= a + b.drop_last());
        lemma_rises_concat(a, b.drop_last(), pin);
    }
}

/// One more step of a sequence: what it does to the levels and to the rises.
pub proof fn lemma_take_next(high: Set<Pin>, steps: Seq<Step>, j: int, pin: Pin)
    requires
        0 <= j < steps.len(),
    ensures
        after(high, steps.take(0)) == high,
        rises(steps.take(0), pin) == 0,
        after(high, steps.take(j + 1)) == after_step(after(high, steps.take(j)), steps[j]),
        steps[j] == (Step::Drive { pin, high: true }) ==> rises(steps.take(j + 1), pin) == rises(
            steps.take(j),
            pin,
        ) + 1,
        steps[j] != (Step::Drive { pin, high: true }) ==> rises(steps.take(j + 1), pin) == rises(
            steps.take(j),
            pin,
        ),
{
    assert(steps.take(j + 1).drop_last() =~= steps.take(j));
}

/// Steps that spare a line leave its level as it was, and never raise it.
pub proof fn lemma_spared(high: Set<Pin>, steps: Seq<Step>, pin: Pin)
    requires
        spares(steps, pin),
    ensures
        after(high, steps).contains(pin) == high.contains(pin),
        rises(steps, pin) == 0,
    decreases steps.len(),
{
    if steps.len() > 0 {
        assert(!drives(steps[steps.len() - 1], pin));
        lemma_spared(high, steps.drop_last(), pin);
    }
}

} // verus!
