use vstd::prelude::*;

verus! {

// A base state is a number below 8: bit 0 is first base, bit 1 second base,
// bit 2 third base.

/// Number of runners on base in state `s` (more generally, the number of set bits).
pub open spec fn popcount(s: nat) -> nat
    decreases s,
{
    if s == 0 {
        0
    } else {
        s % 2 + popcount(s / 2)
    }
}

/// One single-base advance: the runner on third scores, second moves to third,
/// first moves to second, and first holds a runner only if `batter` enters.
pub open spec fn single_advance(s: nat, batter: bool) -> (nat, nat) {
    let runs: nat = if (s / 4) % 2 == 1 { 1 } else { 0 };
    let next: nat = (s % 4) * 2 + if batter { 1nat } else { 0nat };
    (next, runs)
}

/// `n` single-base advances; only the first may bring the batter to first base.
pub open spec fn repeated_advance(s: nat, n: nat, batter: bool) -> (nat, nat)
    decreases n,
{
    if n == 0 {
        (s, 0)
    } else {
        let (s1, r1) = single_advance(s, batter);
        let (s2, r2) = repeated_advance(s1, (n - 1) as nat, false);
        (s2, r1 + r2)
    }
}

/// State after a hit of `bases` bases from state `s`, and the runs it scores.
pub open spec fn advance_spec(s: nat, bases: nat) -> (nat, nat) {
    repeated_advance(s, bases, true)
}

/// Runners and batter after every runner and the batter moved `bases` bases
/// forward: bit `k` stands for base `k + 1`, bits from 3 up for home plate.
pub open spec fn moved_forward(s: nat, bases: nat) -> nat {
    if bases == 1 {
        s * 2 + 1
    } else if bases == 2 {
        s * 4 + 2
    } else if bases == 3 {
        s * 8 + 4
    } else {
        s * 16 + 8
    }
}

/// A hit of `bases` bases moves every runner and the batter forward `bases`
/// bases: those who reach home score, the others occupy the base they reached.
pub proof fn lemma_advance_moves_everyone(s: nat, bases: nat)
    requires
        s < 8,
        1 <= bases <= 4,
    ensures
        advance_spec(s, bases) == (moved_forward(s, bases) % 8, popcount(moved_forward(s, bases) / 8)),
{
    reveal_with_fuel(repeated_advance, 5);
    reveal_with_fuel(popcount, 6);
    assert(s == 0 || s == 1 || s == 2 || s == 3 || s == 4 || s == 5 || s == 6 || s == 7);
}


/// A homerun clears the bases and scores the batter and every runner on base.
pub proof fn lemma_homerun_scores_everyone(s: nat)
    requires
        s < 8,
    ensures
        advance_spec(s, 4) == (0nat, 1 + popcount(s)),
{
    reveal_with_fuel(repeated_advance, 5);
    reveal_with_fuel(popcount, 6);
    assert(s == 0 || s == 1 || s == 2 || s == 3 || s == 4 || s == 5 || s == 6 || s == 7);
}

/// A hit keeps the state below 8, and the batter and the runners are all
/// accounted for: each is either on base afterwards or has scored.
#[verifier::rlimit(40)]
pub proof fn lemma_runners_conserved(s: nat, bases: nat)
    requires
        s < 8,
        1 <= bases <= 4,
    ensures
        advance_spec(s, bases).0 < 8,
        popcount(s) + 1 == popcount(advance_spec(s, bases).0) + advance_spec(s, bases).1,
{
    reveal_with_fuel(repeated_advance, 5);
    reveal_with_fuel(popcount, 6);
    assert(s == 0 || s == 1 || s == 2 || s == 3 || s == 4 || s == 5 || s == 6 || s == 7);
}

/// Entry `i` of the transition table holds the transition from state `i / 4`
/// on a hit of `i % 4 + 1` bases.
pub open spec fn entry_matches(e: (u8, u32), i: int) -> bool {
    let (next, runs) = advance_spec((i / 4) as nat, (i % 4 + 1) as nat);
    e.0 as nat == next && e.1 as nat == runs
}

/// Number of entries of the transition table: 8 states times 4 hit sizes.
pub const NUM_TRANSITIONS: usize = 32;

/// All transitions of the base-running state machine, computed once.
/// Entry `4 * s + (b - 1)` holds the state and the runs after a hit of `b`
/// bases from state `s`.
pub struct TransitionTable {
    pub entries: Vec<(u8, u32)>,
}

impl TransitionTable {
    pub open spec fn wf(&self) -> bool {
        &&& self.entries@.len() == NUM_TRANSITIONS
        &&& forall|i: int| 0 <= i < NUM_TRANSITIONS ==> entry_matches(#[trigger] self.entries@[i], i)
    }

    pub fn new() -> (r: TransitionTable)
        ensures
            r.wf(),
    {
        let mut entries: Vec<(u8, u32)> = Vec::new();
        let mut i: usize = 0;
        while i < NUM_TRANSITIONS
            invariant
                i <= NUM_TRANSITIONS,
                entries@.len() == i,
                forall|k: int| 0 <= k < i ==> entry_matches(#[trigger] entries@[k], k),
            decreases NUM_TRANSITIONS - i,
        {
            let hit: usize = i % 4 + 1;
            let start: u8 = (i / 4) as u8;
            let mut first = start % 2 == 1;
            let mut second = (start / 2) % 2 == 1;
            let mut third = (start / 4) % 2 == 1;
            let mut num_runs: u32 = 0;
            let mut j: usize = 0;
            while j < hit
                invariant
                    1 <= hit <= 4,
                    start < 8,
                    j <= hit,
                    num_runs <= j,
                    ({
                        let cur = (if first { 1nat } else { 0nat }) + (if second { 2nat } else { 0nat }) + (
                        if third { 4nat } else { 0nat });
                        let (end, rest) = repeated_advance(cur, (hit - j) as nat, j == 0);
                        advance_spec(start as nat, hit as nat) == (end, (num_runs + rest) as nat)
                    }),
                decreases hit - j,
            {
                if third {
                    num_runs = num_runs + 1;
                }
                third = second;
                second = first;
                first = j == 0;
                j = j + 1;
            }
            let result: u8 = (if third { 4u8 } else { 0u8 }) + (if second { 2u8 } else { 0u8 }) + (
            if first { 1u8 } else { 0u8 });
            entries.push((result, num_runs));
            i = i + 1;
        }
        TransitionTable { entries }
    }
}

/// Which bases hold a runner; see the encoding above.
pub struct BaseState {
    pub state: u8,
}

impl BaseState {
    /// The empty bases that start every inning.
    pub fn new() -> (r: BaseState)
        ensures
            r.state == 0,
    {
        BaseState { state: 0 }
    }

    /// Applies a hit of `num_bases` bases (0 for an out) and returns the runs
    /// it scores.
    pub fn advance_runners(&mut self, transitions: &TransitionTable, num_bases: u32) -> (r: u32)
        requires
            transitions.wf(),
            old(self).state < 8,
            num_bases <= 4,
        ensures
            final(self).state < 8,
            num_bases == 0 ==> final(self).state == old(self).state && r == 0,
            num_bases > 0 ==> (final(self).state as nat, r as nat) == advance_spec(
                old(self).state as nat,
                num_bases as nat,
            ),
    {
        if num_bases == 0 {
            return 0;
        }
        let index: usize = (self.state as usize) * 4 + (num_bases as usize - 1);
        let (next, runs) = transitions.entries[index];
        assert(entry_matches(transitions.entries@[index as int], index as int));
        proof {
            lemma_runners_conserved(self.state as nat, num_bases as nat);
        }
        self.state = next;
        runs
    }
}

} // verus!
