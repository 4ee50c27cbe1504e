use vstd::prelude::*;
use rand::rngs::SmallRng;
use crate::bases::{BaseState, TransitionTable, advance_spec, popcount, lemma_runners_conserved};
use crate::outcome::{Outcome, bases_of};
use crate::player::Player;

verus! {

/// An inning ends once this many runs have scored in it.
pub const MAX_RUNS_PER_INNING: u32 = 100;

/// Most runs one inning can give: the ceiling not yet reached, then a grand slam.
pub const MAX_INNING_TOTAL: u32 = 103;

/// Every player of `roster` can be sampled.
pub open spec fn roster_ready(roster: Seq<Player>) -> bool {
    forall|j: int| 0 <= j < roster.len() ==> (#[trigger] roster[j]).wf()
}

/// `lineup` is a non-empty sequence of positions in a roster of `n` players.
pub open spec fn lineup_fits(lineup: Seq<usize>, n: nat) -> bool {
    lineup.len() > 0 && forall|i: int| 0 <= i < lineup.len() ==> (#[trigger] lineup[i]) < n
}

/// The player's history holds no hit longer than a single.
pub open spec fn singles_only(p: Player) -> bool {
    forall|o: Outcome| bases_of(o) > 1 ==> #[trigger] p.history().count(o) == 0
}

/// The state of a game between plate appearances: the current inning
/// (counted from 0), its outs, its runs and its bases, and the runs of the
/// innings already over.
pub struct GameState {
    pub inning: nat,
    pub outs: nat,
    pub runs: nat,
    pub bases: nat,
    pub total: nat,
}

pub open spec fn game_start() -> GameState {
    GameState { inning: 0, outs: 0, runs: 0, bases: 0, total: 0 }
}

/// Ends the inning after its third out or once its runs reach the ceiling:
/// its runs go to the total, and the next inning starts with no outs, no
/// runs and empty bases.
pub open spec fn close_inning(s: GameState) -> GameState {
    if s.outs >= 3 || s.runs >= MAX_RUNS_PER_INNING {
        GameState { inning: s.inning + 1, outs: 0, runs: 0, bases: 0, total: s.total + s.runs }
    } else {
        s
    }
}

/// One plate appearance with outcome `o`: an out adds an out, any other
/// outcome advances the runners by its bases and adds the runs scored.
pub open spec fn plate_appearance(s: GameState, o: Outcome) -> GameState {
    if o == Outcome::Out {
        close_inning(GameState { inning: s.inning, outs: s.outs + 1, runs: s.runs, bases: s.bases, total: s.total })
    } else {
        let (bases, scored) = advance_spec(s.bases, bases_of(o));
        close_inning(GameState { inning: s.inning, outs: s.outs, runs: s.runs + scored, bases, total: s.total })
    }
}

/// The game after the plate appearances `draws`, in order.
pub open spec fn after_draws(draws: Seq<Outcome>) -> GameState
    decreases draws.len(),
{
    if draws.len() == 0 {
        game_start()
    } else {
        plate_appearance(after_draws(draws.drop_last()), draws.last())
    }
}

/// Plate appearance `k` of the game goes to `lineup[k % lineup.len()]`
/// (the order carries over from one inning to the next), and its outcome
/// occurs in that player's history.
pub open spec fn draws_fit(roster: Seq<Player>, lineup: Seq<usize>, draws: Seq<Outcome>) -> bool {
    forall|k: int|
        0 <= k < draws.len() ==> roster[lineup[k % (lineup.len() as int)] as int].history().count(#[trigger] draws[k]) > 0
}

/// `draws` is a whole game of `num_innings` innings: every plate appearance
/// comes before the last inning is over, and the last one ends it.
pub open spec fn game_complete(draws: Seq<Outcome>, num_innings: nat) -> bool {
    &&& forall|k: int| 0 <= k < draws.len() ==> (#[trigger] after_draws(draws.take(k))).inning < num_innings
    &&& after_draws(draws).inning == num_innings
}

/// `runs` is the result of some game of `lineup` whose draws its batters could make.
pub open spec fn game_possible(roster: Seq<Player>, lineup: Seq<usize>, num_innings: nat, runs: nat) -> bool {
    exists|draws: Seq<Outcome>|
        draws_fit(roster, lineup, draws) && game_complete(draws, num_innings) && draws.len() <= num_innings
            * MAX_PLATE_APPEARANCES_PER_INNING && #[trigger] after_draws(draws).total == runs
}

pub open spec fn sum(g: Seq<nat>) -> nat
    decreases g.len(),
{
    if g.len() == 0 {
        0
    } else {
        sum(g.drop_last()) + g.last()
    }
}

/// `total` is the sum of the results of `num_games` possible games of `lineup`.
pub open spec fn games_possible(
    roster: Seq<Player>,
    lineup: Seq<usize>,
    num_innings: nat,
    num_games: nat,
    total: nat,
) -> bool {
    exists|g: Seq<nat>|
        g.len() == num_games && (forall|i: int| 0 <= i < g.len() ==> game_possible(roster, lineup, num_innings, #[trigger] g[i]))
            && #[trigger] sum(g) == total
}

/// Every player of `roster` has a history of a single kind of outcome.
pub open spec fn one_outcome_each(roster: Seq<Player>) -> bool {
    forall|j: int, o1: Outcome, o2: Outcome|
        0 <= j < roster.len() && #[trigger] roster[j].history().count(o1) > 0 && #[trigger] roster[j].history().count(
            o2,
        ) > 0 ==> o1 == o2
}

/// Where every player has one kind of outcome, a game has one possible
/// course, so `simulate_game` has one possible result.
pub proof fn lemma_game_determined(
    roster: Seq<Player>,
    lineup: Seq<usize>,
    num_innings: nat,
    d1: Seq<Outcome>,
    d2: Seq<Outcome>,
)
    requires
        lineup_fits(lineup, roster.len()),
        one_outcome_each(roster),
        draws_fit(roster, lineup, d1),
        draws_fit(roster, lineup, d2),
        game_complete(d1, num_innings),
        game_complete(d2, num_innings),
    ensures
        d1 == d2,
        after_draws(d1).total == after_draws(d2).total,
{
    assert forall|k: int| 0 <= k < d1.len() && k < d2.len() implies d1[k] == d2[k] by {
        let j = lineup[k % (lineup.len() as int)] as int;
        assert(0 <= k % (lineup.len() as int) < lineup.len()) by (nonlinear_arith)
            requires
                lineup.len() > 0,
                0 <= k,
        ;
        assert(roster[j].history().count(d1[k]) > 0);
        assert(roster[j].history().count(d2[k]) > 0);
    }
    if d1.len() < d2.len() {
        assert(d2.take(d1.len() as int) =~= d1);
        assert(after_draws(d2.take(d1.len() as int)).inning < num_innings);
    } else if d2.len() < d1.len() {
        assert(d1.take(d2.len() as int) =~= d2);
        assert(after_draws(d1.take(d2.len() as int)).inning < num_innings);
    }
    assert(d1 =~= d2);
}

proof fn lemma_popcount_small(s: nat)
    requires
        s < 8,
    ensures
        popcount(s) <= 3,
{
    reveal_with_fuel(popcount, 4);
    assert(s == 0 || s == 1 || s == 2 || s == 3 || s == 4 || s == 5 || s == 6 || s == 7);
}

/// Most plate appearances one inning can take: before its last one it has
/// at most two outs, 99 runs and three runners on base, and each plate
/// appearance that is not an out puts a runner on base or scores one.
pub const MAX_PLATE_APPEARANCES_PER_INNING: u32 = 105;

/// Plays games by drawing each plate appearance from the batter's history.
pub struct MonteCarlo {
    pub transitions: TransitionTable,
}

impl MonteCarlo {
    pub open spec fn wf(&self) -> bool {
        self.transitions.wf()
    }

    pub fn new() -> (r: MonteCarlo)
        ensures
            r.wf(),
    {
        MonteCarlo { transitions: TransitionTable::new() }
    }

    /// Runs of one game of `num_innings` innings. The batting order cycles
    /// through `lineup` (positions in `roster`) across innings; an inning ends
    /// at three outs or once `MAX_RUNS_PER_INNING` runs have scored in it.
    pub fn simulate_game(
        &self,
        rng: &mut SmallRng,
        roster: &Vec<Player>,
        lineup: &Vec<usize>,
        num_innings: u32,
    ) -> (r: u32)
        requires
            self.wf(),
            roster_ready(roster@),
            lineup_fits(lineup@, roster@.len()),
            num_innings as int * MAX_INNING_TOTAL <= u32::MAX,
        ensures
            exists|draws: Seq<Outcome>|
                draws_fit(roster@, lineup@, draws) && game_complete(draws, num_innings as nat) && draws.len()
                    <= num_innings as int * MAX_PLATE_APPEARANCES_PER_INNING && #[trigger] after_draws(draws).total
                    == r,
            game_possible(roster@, lineup@, num_innings as nat, r as nat),
            num_innings == 0 ==> *final(rng) == *old(rng),
            r <= num_innings as int * MAX_INNING_TOTAL,
            (forall|j: int| 0 <= j < roster@.len() ==> singles_only(#[trigger] roster@[j])) ==> r
                <= num_innings as int * MAX_RUNS_PER_INNING,
    {
        let ghost rng0 = *rng;
        let ghost mut draws: Seq<Outcome> = Seq::empty();
        let ghost singles = forall|j: int| 0 <= j < roster@.len() ==> singles_only(#[trigger] roster@[j]);
        let mut total_runs: u32 = 0;
        let mut batter: usize = 0;
        let mut inning: u32 = 0;
        while inning < num_innings
            invariant
                self.wf(),
                roster_ready(roster@),
                lineup_fits(lineup@, roster@.len()),
                num_innings as int * MAX_INNING_TOTAL <= u32::MAX,
                inning <= num_innings,
                batter < lineup@.len(),
                total_runs <= inning as int * MAX_INNING_TOTAL,
                singles ==> total_runs <= inning as int * MAX_RUNS_PER_INNING,
                singles == forall|j: int| 0 <= j < roster@.len() ==> singles_only(#[trigger] roster@[j]),
                inning == 0 ==> *rng == rng0,
                draws_fit(roster@, lineup@, draws),
                batter == draws.len() % lineup@.len(),
                forall|k: int| 0 <= k < draws.len() ==> (#[trigger] after_draws(draws.take(k))).inning < num_innings,
                after_draws(draws) == (GameState { inning: inning as nat, outs: 0, runs: 0, bases: 0, total: total_runs as nat }),
                draws.len() <= inning as int * MAX_PLATE_APPEARANCES_PER_INNING,
            decreases num_innings - inning,
        {
            let ghost inning_start = draws.len();
            let mut runs: u32 = 0;
            let mut bases = BaseState::new();
            let mut outs: u32 = 0;
            while outs < 3 && runs < MAX_RUNS_PER_INNING
                invariant
                    self.wf(),
                    roster_ready(roster@),
                    lineup_fits(lineup@, roster@.len()),
                    batter < lineup@.len(),
                    outs <= 3,
                    runs <= MAX_INNING_TOTAL,
                    singles ==> runs <= MAX_RUNS_PER_INNING,
                    singles == forall|j: int| 0 <= j < roster@.len() ==> singles_only(#[trigger] roster@[j]),
                    bases.state < 8,
                    inning < num_innings,
                    draws_fit(roster@, lineup@, draws),
                    batter == draws.len() % lineup@.len(),
                    forall|k: int| 0 <= k < draws.len() ==> (#[trigger] after_draws(draws.take(k))).inning < num_innings,
                    after_draws(draws) == close_inning(
                        GameState { inning: inning as nat, outs: outs as nat, runs: runs as nat, bases: bases.state as nat, total: total_runs as nat },
                    ),
                    total_runs <= inning as int * MAX_INNING_TOTAL,
                    singles ==> total_runs <= inning as int * MAX_RUNS_PER_INNING,
                    num_innings as int * MAX_INNING_TOTAL <= u32::MAX,
                    inning_start <= inning as int * MAX_PLATE_APPEARANCES_PER_INNING,
                    draws.len() == inning_start + outs + runs + popcount(bases.state as nat),
                    draws.len() <= inning_start + MAX_PLATE_APPEARANCES_PER_INNING,
                decreases (3 - outs) + 2 * (MAX_INNING_TOTAL - runs) + (3 - popcount(bases.state as nat)),
            {
                proof {
                    lemma_popcount_small(bases.state as nat);
                }
                let player = &roster[lineup[batter]];
                let o = player.hit(rng);
                proof {
                    let d2 = draws.push(o);
                    assert(d2.drop_last() =~= draws);
                    assert(d2.take(draws.len() as int) =~= draws);
                    assert forall|k: int| 0 <= k < d2.len() implies (#[trigger] after_draws(d2.take(k))).inning < num_innings by {
                        if k < draws.len() {
                            assert(d2.take(k) =~= draws.take(k));
                        }
                    }
                    assert forall|k: int| 0 <= k < d2.len() implies roster@[lineup@[k % (lineup@.len() as int)] as int].history().count(
                        #[trigger] d2[k],
                    ) > 0 by {
                        if k < draws.len() {
                            assert(d2[k] == draws[k]);
                        }
                    }
                    vstd::arithmetic::div_mod::lemma_add_mod_noop(draws.len() as int, 1, lineup@.len() as int);
                    if lineup@.len() > 1 {
                        assert(1int % (lineup@.len() as int) == 1) by (nonlinear_arith)
                            requires
                                lineup@.len() > 1,
                        ;
                    }
                    draws = d2;
                }
                match o {
                    Outcome::Out => {
                        outs = outs + 1;
                    },
                    _ => {
                        let ghost before = bases.state as nat;
                        let scored = bases.advance_runners(&self.transitions, o.num_bases());
                        proof {
                            lemma_runners_conserved(before, bases_of(o));
                            lemma_popcount_small(bases.state as nat);
                            if singles {
                                assert(singles_only(roster@[lineup@[batter as int] as int]));
                                reveal_with_fuel(crate::bases::repeated_advance, 2);
                            }
                        }
                        runs = runs + scored;
                    },
                }
                let n: usize = lineup.len();
                batter = (batter + 1) % n;
                proof {
                    if n == 1 {
                        assert(batter == 0);
                        assert(draws.len() as int % 1 == 0);
                    }
                }
            }
            total_runs = total_runs + runs;
            inning = inning + 1;
        }
        proof {
            assert(game_complete(draws, num_innings as nat));
            assert(after_draws(draws).total == total_runs);
        }
        total_runs
    }

    /// Total runs of `num_games` games of `lineup`, played one after another
    /// on the same random source. The mean runs per game, by which lineups
    /// are compared, is this total divided by `num_games`.
    pub fn simulate_games(
        &self,
        rng: &mut SmallRng,
        roster: &Vec<Player>,
        lineup: &Vec<usize>,
        num_innings: u32,
        num_games: u32,
    ) -> (r: u64)
        requires
            self.wf(),
            roster_ready(roster@),
            lineup_fits(lineup@, roster@.len()),
            num_innings as int * MAX_INNING_TOTAL <= u32::MAX,
        ensures
            games_possible(roster@, lineup@, num_innings as nat, num_games as nat, r as nat),
            r <= num_games as int * (num_innings as int * MAX_INNING_TOTAL),
    {
        let ghost mut g: Seq<nat> = Seq::empty();
        let mut runs: u64 = 0;
        let mut game: u32 = 0;
        while game < num_games
            invariant
                self.wf(),
                roster_ready(roster@),
                lineup_fits(lineup@, roster@.len()),
                num_innings as int * MAX_INNING_TOTAL <= u32::MAX,
                game <= num_games,
                runs <= game as int * (num_innings as int * MAX_INNING_TOTAL),
                g.len() == game,
                forall|i: int| 0 <= i < g.len() ==> game_possible(roster@, lineup@, num_innings as nat, #[trigger] g[i]),
                sum(g) == runs,
            decreases num_games - game,
        {
            let game_runs = self.simulate_game(rng, roster, lineup, num_innings);
            proof {
                assert((game + 1) as int * (num_innings as int * MAX_INNING_TOTAL) <= u32::MAX as int * u32::MAX as int)
                    by (nonlinear_arith)
                    requires
                        game < num_games,
                        num_innings as int * MAX_INNING_TOTAL <= u32::MAX,
                        0 <= num_innings as int * MAX_INNING_TOTAL,
                ;
                assert((game + 1) as int * (num_innings as int * MAX_INNING_TOTAL) == game as int * (num_innings
                    as int * MAX_INNING_TOTAL) + num_innings as int * MAX_INNING_TOTAL) by (nonlinear_arith);
            }
            runs = runs + game_runs as u64;
            game = game + 1;
            proof {
                let g2 = g.push(game_runs as nat);
                assert(g2.drop_last() =~= g);
                assert forall|i: int| 0 <= i < g2.len() implies game_possible(roster@, lineup@, num_innings as nat, #[trigger] g2[i]) by {
                    if i < g.len() {
                        assert(g2[i] == g[i]);
                    }
                }
                g = g2;
            }
        }
        proof {
            assert(g.len() == num_games as nat && sum(g) == runs as nat);
        }
        runs
    }
}

} // verus!
