use vstd::prelude::*;
use rand::rngs::SmallRng;
use crate::lineup::{
    PermutationGenerator, has_ascent, identity_order, is_ordering, lemma_next_order, next_order, nth_order,
    order_exists, successive,
};
use crate::player::Player;
use crate::simulation::{MonteCarlo, MAX_INNING_TOTAL, games_possible, roster_ready, lineup_fits};

verus! {

/// A lineup's total runs over its simulated games, and the lineup.
pub type Scored = (u64, Seq<usize>);

/// The better of a new candidate and the best so far. An empty lineup
/// stands for "no lineup": an empty candidate is ignored, and the first
/// non-empty one is kept whatever its runs. After that the candidate wins
/// only with strictly more runs, so ties keep the earlier one.
pub open spec fn better(candidate: Scored, best: Scored) -> Scored {
    if candidate.1.len() == 0 {
        best
    } else if best.1.len() == 0 || candidate.0 > best.0 {
        candidate
    } else {
        best
    }
}

/// The best of `s`, scanning from the front and starting from no lineup
/// (no runs and an empty lineup).
pub open spec fn best_of(s: Seq<Scored>) -> Scored
    decreases s.len(),
{
    if s.len() == 0 {
        (0, Seq::empty())
    } else {
        better(s.last(), best_of(s.drop_last()))
    }
}

pub open spec fn scored_view(s: Seq<(u64, Vec<usize>)>) -> Seq<Scored> {
    s.map_values(|x: (u64, Vec<usize>)| (x.0, x.1@))
}

/// Of two lineups, the reduction returns the one with strictly more runs,
/// and the first on a tie.
pub proof fn lemma_best_of_two(a: Scored, b: Scored)
    requires
        a.1.len() > 0,
        b.1.len() > 0,
    ensures
        a.0 >= b.0 ==> best_of(seq![a, b]) == a,
        b.0 > a.0 ==> best_of(seq![a, b]) == b,
{
    reveal_with_fuel(best_of, 3);
    assert(seq![a, b].drop_last() =~= seq![a]);
    assert(seq![a].drop_last() =~= Seq::<Scored>::empty());
    assert(seq![a, b].last() == b);
    assert(seq![a].last() == a);
}

/// The reduction's result has at least as many runs as every entry with a
/// lineup, and where some entry has a lineup, the result is such an entry.
pub proof fn lemma_best_of_is_maximum(s: Seq<Scored>)
    ensures
        forall|i: int| 0 <= i < s.len() && (#[trigger] s[i]).1.len() > 0 ==> s[i].0 <= best_of(s).0,
        (exists|i: int| 0 <= i < s.len() && (#[trigger] s[i]).1.len() > 0) ==> best_of(s).1.len() > 0,
        best_of(s).1.len() > 0 ==> exists|i: int| 0 <= i < s.len() && s[i] == best_of(s),
    decreases s.len(),
{
    if s.len() > 0 {
        let p = s.drop_last();
        lemma_best_of_is_maximum(p);
        if best_of(s).1.len() > 0 && best_of(s) != s.last() {
            let i = choose|i: int| 0 <= i < p.len() && p[i] == best_of(p);
            assert(s[i] == best_of(s));
        }
        assert forall|i: int| 0 <= i < s.len() && (#[trigger] s[i]).1.len() > 0 implies s[i].0 <= best_of(s).0 by {
            if i < s.len() - 1 {
                assert(s[i] == p[i]);
            }
        }
        if exists|i: int| 0 <= i < s.len() && (#[trigger] s[i]).1.len() > 0 {
            let i = choose|i: int| 0 <= i < s.len() && (#[trigger] s[i]).1.len() > 0;
            if i < s.len() - 1 {
                assert(p[i] == s[i]);
            }
        }
    }
}

/// Every order of roster positions is a valid lineup for that roster.
proof fn lemma_ordering_fits(s: Seq<usize>, n: nat)
    requires
        is_ordering(s, n),
        0 < n <= usize::MAX,
    ensures
        lineup_fits(s, n),
{
    broadcast use vstd::seq_lib::group_to_multiset_ensures;

    assert(s.to_multiset().len() == identity_order(n).to_multiset().len());
    assert(s.len() == identity_order(n).len());
    assert forall|i: int| 0 <= i < s.len() implies (#[trigger] s[i]) < n by {
        assert(s.contains(s[i]));
        assert(s.to_multiset().count(s[i]) > 0);
        assert(identity_order(n).contains(s[i]));
        let j = choose|j: int| 0 <= j < identity_order(n).len() && identity_order(n)[j] == s[i];
        assert(identity_order(n)[j] == j as usize);
    }
}

/// The number of workers to use and the number of lineups each visits:
/// at least one worker and no more workers than lineups, with the lineups
/// split evenly and the remainder left unvisited.
pub fn partition(total: usize, available: usize) -> (r: (usize, usize))
    ensures
        r.0 == if total == 0 || available == 0 {
            1
        } else if available < total {
            available as int
        } else {
            total as int
        },
        r.1 == total / r.0,
        r.0 * r.1 <= total,
{
    let workers: usize = if total == 0 || available == 0 {
        1
    } else if available < total {
        available
    } else {
        total
    };
    let per_worker = total / workers;
    proof {
        assert(workers * (total / workers) <= total) by (nonlinear_arith)
            requires
                workers > 0,
        ;
    }
    (workers, per_worker)
}

/// Keeps the best lineup so far: a non-empty `lineup` with `runs` replaces
/// it where there is none yet (an empty lineup) or with strictly more runs.
pub fn keep_better(best: &mut (u64, Vec<usize>), runs: u64, lineup: &Vec<usize>)
    ensures
        (final(best).0, final(best).1@) == better((runs, lineup@), (old(best).0, old(best).1@)),
{
    if lineup.len() > 0 && (best.1.len() == 0 || runs > best.0) {
        *best = (runs, lineup.clone());
    }
}

/// The best of the workers' results: results with an empty lineup (a worker
/// that visited nothing) are ignored; of the others, the first with the most
/// runs. No runs and an empty lineup where every result is empty.
pub fn reduce_best(results: &Vec<(u64, Vec<usize>)>) -> (r: (u64, Vec<usize>))
    ensures
        (r.0, r.1@) == best_of(scored_view(results@)),
{
    let mut best: (u64, Vec<usize>) = (0, Vec::new());
    let mut i: usize = 0;
    proof {
        assert(scored_view(results@).subrange(0, 0) =~= Seq::<Scored>::empty());
    }
    while i < results.len()
        invariant
            i <= results@.len(),
            (best.0, best.1@) == best_of(scored_view(results@).subrange(0, i as int)),
        decreases results@.len() - i,
    {
        keep_better(&mut best, results[i].0, &results[i].1);
        proof {
            assert(scored_view(results@).subrange(0, i as int + 1).drop_last() =~= scored_view(
                results@,
            ).subrange(0, i as int));
        }
        i = i + 1;
    }
    proof {
        assert(scored_view(results@).subrange(0, i as int) =~= scored_view(results@));
    }
    best
}

/// `g` stands after `a` calls of `advance` on a fresh generator over a
/// roster of `n` players: it holds order `a - 1` of the enumeration while
/// that order exists, and reports none once the orders ran out.
pub open spec fn tracks(g: PermutationGenerator, n: nat, a: nat) -> bool {
    &&& a == 0 ==> !g.started && g.order@ == identity_order(n)
    &&& a > 0 ==> {
        &&& g.started
        &&& g.has_next ==> g.order@ == nth_order(n, (a - 1) as nat) && order_exists(n, (a - 1) as nat)
        &&& !g.has_next ==> !order_exists(n, (a - 1) as nat)
    }
}

proof fn lemma_tracks_advance(g0: PermutationGenerator, g1: PermutationGenerator, n: nat, a: nat)
    requires
        tracks(g0, n, a),
        g1.started,
        !g0.started ==> g1.has_next && g1.order@ == g0.order@,
        g0.started && !g0.has_next ==> !g1.has_next,
        g0.started && g0.has_next ==> g1.has_next == has_ascent(g0.order@),
        g0.started && g0.has_next && g1.has_next ==> successive(g0.order@, g1.order@),
    ensures
        tracks(g1, n, a + 1),
{
    if a == 0 {
        assert(nth_order(n, 0) == identity_order(n));
    } else if g0.has_next {
        let prev = (a - 1) as nat;
        if g1.has_next {
            lemma_next_order(g0.order@, g1.order@);
            assert(nth_order(n, a) == next_order(nth_order(n, prev)));
            assert forall|j: nat| j < a implies has_ascent(#[trigger] nth_order(n, j)) by {
                if j < prev {
                    assert(order_exists(n, prev));
                }
            }
        } else {
            assert(!has_ascent(nth_order(n, prev)));
        }
    } else {
        let prev = (a - 1) as nat;
        let j = choose|j: nat| j < prev && !has_ascent(#[trigger] nth_order(n, j));
        assert(j < a && !has_ascent(nth_order(n, j)));
    }
}

impl MonteCarlo {
    /// One worker's share of the search: skips the first `start` orders of
    /// the roster's enumeration, then simulates the next `count` orders (fewer
    /// where the orders run out), `num_games` games of `num_innings` innings
    /// each, and keeps the one with the most total runs (the first on a tie).
    /// It returns no runs and an empty lineup only where no order was left
    /// to visit.
    pub fn search_range(
        &self,
        rng: &mut SmallRng,
        roster: &Vec<Player>,
        start: usize,
        count: usize,
        num_innings: u32,
        num_games: u32,
    ) -> (r: (u64, Vec<usize>))
        requires
            self.wf(),
            roster_ready(roster@),
            roster@.len() > 0,
            num_innings as int * MAX_INNING_TOTAL <= u32::MAX,
        ensures
            exists|visited: Seq<Scored>|
                {
                    &&& visited.len() <= count
                    &&& forall|i: int|
                        0 <= i < visited.len() ==> {
                            &&& order_exists(roster@.len(), (start + i) as nat)
                            &&& (#[trigger] visited[i]).1 == nth_order(roster@.len(), (start + i) as nat)
                            &&& games_possible(roster@, visited[i].1, num_innings as nat, num_games as nat, visited[i].0 as nat)
                        }
                    &&& visited.len() < count ==> !order_exists(roster@.len(), (start + visited.len()) as nat)
                    &&& (r.0, r.1@) == best_of(visited)
                    &&& visited.len() > 0 ==> exists|i: int| 0 <= i < visited.len() && visited[i] == (r.0, r.1@)
                    &&& visited.len() == 0 ==> r.0 == 0 && r.1@.len() == 0
                },
    {
        let roster_size: usize = roster.len();
        let ghost n = roster@.len();
        let mut generator = PermutationGenerator::new(roster_size);
        let mut k: usize = 0;
        while k < start
            invariant
                generator.wf(),
                generator.order@.len() == n,
                n == roster@.len(),
                k <= start,
                tracks(generator, n, k as nat),
            decreases start - k,
        {
            let ghost g0 = generator;
            generator.advance();
            proof {
                lemma_tracks_advance(g0, generator, n, k as nat);
            }
            k = k + 1;
        }
        let mut best: (u64, Vec<usize>) = (0, Vec::new());
        let ghost mut visited: Seq<Scored> = Seq::empty();
        let mut j: usize = 0;
        let mut done = false;
        while j < count && !done
            invariant
                self.wf(),
                roster_ready(roster@),
                roster@.len() > 0,
                n == roster@.len(),
                num_innings as int * MAX_INNING_TOTAL <= u32::MAX,
                generator.wf(),
                generator.order@.len() == n,
                j <= count,
                roster_size == n,
                visited.len() == j,
                forall|i: int|
                    0 <= i < visited.len() ==> {
                        &&& order_exists(n, (start + i) as nat)
                        &&& (#[trigger] visited[i]).1 == nth_order(n, (start + i) as nat)
                        &&& visited[i].1.len() == n
                        &&& games_possible(roster@, visited[i].1, num_innings as nat, num_games as nat, visited[i].0 as nat)
                    },
                !done ==> tracks(generator, n, (start + j) as nat),
                done ==> !order_exists(n, (start + j) as nat),
                (best.0, best.1@) == best_of(visited),
            decreases count - j, if done { 0int } else { 1int },
        {
            let ghost g0 = generator;
            generator.advance();
            proof {
                lemma_tracks_advance(g0, generator, n, (start + j) as nat);
            }
            match generator.get() {
                Some(lineup) => {
                    proof {
                        lemma_ordering_fits(lineup@, roster@.len());
                    }
                    let runs = self.simulate_games(rng, roster, lineup, num_innings, num_games);
                    keep_better(&mut best, runs, lineup);
                    proof {
                        let v2 = visited.push((runs, lineup@));
                        assert(v2.drop_last() =~= visited);
                        assert forall|i: int| 0 <= i < v2.len() implies {
                            &&& order_exists(n, (start + i) as nat)
                            &&& (#[trigger] v2[i]).1 == nth_order(n, (start + i) as nat)
                            &&& v2[i].1.len() == n
                            &&& games_possible(roster@, v2[i].1, num_innings as nat, num_games as nat, v2[i].0 as nat)
                        } by {
                            if i < visited.len() {
                                assert(v2[i] == visited[i]);
                            }
                        }
                        visited = v2;
                    }
                    j = j + 1;
                },
                None => {
                    done = true;
                },
            }
        }
        proof {
            lemma_best_of_is_maximum(visited);
            if visited.len() > 0 {
                assert(visited[0].1.len() > 0);
            }
        }
        best
    }
}

} // verus!
