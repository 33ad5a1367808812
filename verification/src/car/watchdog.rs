//! The software watchdog of the control loop: a leaky bucket of missed
//! deadlines.

use vstd::prelude::*;

verus! {

/// The level from which the watchdog calls for the safe state.
pub const ESCALATE_AT: u32 = 6;

/// A leaky bucket: a missed deadline fills it by two, a kept one drains it by
/// one.
#[derive(Clone, Copy, Debug)]
pub struct Watchdog {
    pub leaky: u32,
}

/// The level after a kept deadline.
pub open spec fn drained(level: u32) -> u32 {
    if level == 0 {
        0
    } else {
        (level - 1) as u32
    }
}

/// The level after a missed deadline.
pub open spec fn filled(level: u32) -> u32 {
    if level > u32::MAX - 2 {
        u32::MAX
    } else {
        (level + 2) as u32
    }
}

/// The level after a run of deadlines, missed where `true`.
pub open spec fn level_after(level: u32, misses: Seq<bool>) -> u32
    decreases misses.len(),
{
    if misses.len() == 0 {
        level
    } else {
        let before = level_after(level, misses.drop_last());
        if misses.last() {
            filled(before)
        } else {
            drained(before)
        }
    }
}

impl Default for Watchdog {
    fn default() -> (out: Self)
        ensures
            out.leaky == 0,
    {
        Watchdog { leaky: 0 }
    }
}

impl Watchdog {
    /// A watchdog at rest.
    pub fn new() -> (out: Self)
        ensures
            out.leaky == 0,
    {
        Watchdog { leaky: 0 }
    }

    /// Takes in a kept deadline and gives the level.
    pub fn kick(&mut self) -> (out: u32)
        ensures
            final(self).leaky == drained(old(self).leaky),
            out == final(self).leaky,
    {
        self.leaky = self.leaky.saturating_sub(1);
        self.leaky
    }

    /// Takes in a missed deadline and gives the level.
    pub fn miss(&mut self) -> (out: u32)
        ensures
            final(self).leaky == filled(old(self).leaky),
            out == final(self).leaky,
    {
        self.leaky = self.leaky.saturating_add(2);
        self.leaky
    }

    /// Whether the car must be brought into its safe state.
    pub fn should_escalate(&self) -> (out: bool)
        ensures
            out == (self.leaky >= ESCALATE_AT),
    {
        self.leaky >= ESCALATE_AT
    }
}

/// Three missed deadlines in a row call for the safe state, whatever came
/// before.
pub proof fn law_three_misses_escalate(level: u32, before: Seq<bool>)
    ensures
        level_after(level, before.push(true).push(true).push(true)) >= ESCALATE_AT,
{
    let one = before.push(true);
    let two = one.push(true);
    let three = two.push(true);
    assert(three.drop_last() =~= two);
    assert(two.drop_last() =~= one);
    assert(one.drop_last() =~= before);
    assert(level_after(level, one) == filled(level_after(level, before)));
    assert(level_after(level, two) == filled(level_after(level, one)));
}

/// The level never exceeds what the misses alone would fill: without a miss the
/// watchdog never escalates.
pub proof fn law_no_miss_no_escalation(misses: Seq<bool>)
    requires
        forall|i: int| 0 <= i < misses.len() ==> !#[trigger] misses[i],
    ensures
        level_after(0, misses) == 0,
    decreases misses.len(),
{
    if misses.len() > 0 {
        law_no_miss_no_escalation(misses.drop_last());
    }
}

/// Two kept deadlines make up for a missed one.
pub proof fn law_two_kicks_undo_a_miss(level: u32)
    requires
        level <= u32::MAX - 2,
    ensures
        drained(drained(filled(level))) == level,
{
}

/// Where every miss is followed by two kept deadlines, the watchdog never
/// escalates.
pub proof fn law_rare_misses_never_escalate(rounds: nat)
    ensures
        level_after(0, rare_misses(rounds)) == 0,
        level_after(0, rare_misses(rounds).push(true)) < ESCALATE_AT,
    decreases rounds,
{
    let s = rare_misses(rounds);
    assert(s.push(true).drop_last() =~= s);
    if rounds > 0 {
        law_rare_misses_never_escalate((rounds - 1) as nat);
        let before = rare_misses((rounds - 1) as nat);
        let one = before.push(true);
        let two = one.push(false);
        assert(s =~= two.push(false));
        assert(s.drop_last() =~= two);
        assert(two.drop_last() =~= one);
        assert(one.drop_last() =~= before);
        assert(level_after(0, one) == filled(level_after(0, before)));
        assert(level_after(0, two) == drained(level_after(0, one)));
        assert(level_after(0, s) == drained(level_after(0, two)));
    } else {
        assert(s =~= Seq::empty());
    }
    assert(level_after(0, s.push(true)) == filled(level_after(0, s)));
}

/// A miss and two kept deadlines, so many times.
pub open spec fn rare_misses(rounds: nat) -> Seq<bool>
    decreases rounds,
{
    if rounds == 0 {
        Seq::empty()
    } else {
        rare_misses((rounds - 1) as nat).push(true).push(false).push(false)
    }
}

} // verus!
