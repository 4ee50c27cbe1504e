use rand::rngs::SmallRng;
use rand::{Rng, SeedableRng};
use softball_sim::{keep_better, partition, reduce_best, Gender, MonteCarlo, Outcome, Player, PermutationGenerator, Stats};

fn player(id: &str, history: &[(Outcome, usize)]) -> Player {
    let mut pas = Vec::new();
    for (o, n) in history {
        pas.extend(vec![*o; *n]);
    }
    Player::new(id, id, Gender::Male, Stats::new(&pas)).unwrap()
}

#[test]
fn outs_only_score_nothing() {
    let sim = MonteCarlo::new();
    let roster = vec![player("a", &[(Outcome::Out, 5)])];
    let mut rng = SmallRng::seed_from_u64(3);
    assert_eq!(sim.simulate_game(&mut rng, &roster, &vec![0], 7), 0);
}

#[test]
fn walks_only_reach_the_ceiling() {
    let sim = MonteCarlo::new();
    let roster = vec![player("w", &[(Outcome::Walk, 5)])];
    let mut rng = SmallRng::seed_from_u64(3);
    assert_eq!(sim.simulate_game(&mut rng, &roster, &vec![0], 7), 700);
}

#[test]
fn doubles_only_reach_the_ceiling() {
    let sim = MonteCarlo::new();
    let roster = vec![player("d", &[(Outcome::Double, 5)])];
    let mut rng = SmallRng::seed_from_u64(3);
    // the first double scores none, every later one scores one
    assert_eq!(sim.simulate_game(&mut rng, &roster, &vec![0], 1), 100);
}

#[test]
fn last_hit_may_pass_the_ceiling() {
    let sim = MonteCarlo::new();
    let roster = vec![player("w", &[(Outcome::Walk, 1)]), player("h", &[(Outcome::Homerun, 1)])];
    let mut rng = SmallRng::seed_from_u64(3);
    // walk, walk, homerun scores three: 99 after 33 rounds, then 102
    assert_eq!(sim.simulate_game(&mut rng, &roster, &vec![0, 0, 1], 1), 102);
}

#[test]
fn games_stay_under_the_bound() {
    let sim = MonteCarlo::new();
    let roster = vec![
        player("a", &[(Outcome::Out, 1), (Outcome::Walk, 3), (Outcome::Homerun, 5), (Outcome::Triple, 2)]),
        player("b", &[(Outcome::Single, 1), (Outcome::Double, 1)]),
    ];
    let mut rng = SmallRng::seed_from_u64(11);
    for _ in 0..200 {
        let r = sim.simulate_game(&mut rng, &roster, &vec![1, 0], 7);
        assert!(r <= 7 * 103);
    }
}

#[test]
fn homerun_hitter_alternating_with_outs() {
    let sim = MonteCarlo::new();
    let roster = vec![player("a", &[(Outcome::Homerun, 1)]), player("b", &[(Outcome::Out, 1)])];
    let mut rng = SmallRng::seed_from_u64(5);
    assert_eq!(sim.simulate_game(&mut rng, &roster, &vec![0, 1], 7), 21);
    // the lineup resumes across innings: the second inning starts with the
    // homerun hitter, and so does every later one: 2, 3, 3, 3, 3, 3, 3
    assert_eq!(sim.simulate_game(&mut rng, &roster, &vec![1, 0], 7), 20);
    assert_eq!(sim.simulate_games(&mut rng, &roster, &vec![1, 0], 7, 10), 200);
}

#[test]
fn search_picks_the_better_order() {
    let sim = MonteCarlo::new();
    let roster = vec![player("a", &[(Outcome::Homerun, 1)]), player("b", &[(Outcome::Out, 1)])];
    let mut rng = SmallRng::seed_from_u64(5);
    let (runs, lineup) = sim.search_range(&mut rng, &roster, 0, 2, 7, 10);
    assert_eq!(runs, 210);
    assert_eq!(lineup, vec![0, 1]);
    // the second worker sees only [1, 0]
    let (runs, lineup) = sim.search_range(&mut rng, &roster, 1, 1, 7, 10);
    assert_eq!(runs, 200);
    assert_eq!(lineup, vec![1, 0]);
    let best = reduce_best(&vec![(200, vec![1, 0]), (210, vec![0, 1])]);
    assert_eq!(best, (210, vec![0, 1]));
}

#[test]
fn walker_and_strikeout_never_score() {
    let sim = MonteCarlo::new();
    let roster = vec![player("a", &[(Outcome::Walk, 1)]), player("b", &[(Outcome::Out, 1)])];
    let mut rng = SmallRng::seed_from_u64(5);
    let (runs, lineup) = sim.search_range(&mut rng, &roster, 0, 2, 7, 10);
    // both orders score nothing: the first visited is kept
    assert_eq!(runs, 0);
    assert_eq!(lineup, vec![0, 1]);
}

#[test]
fn one_player_scoring_nothing_is_kept() {
    let sim = MonteCarlo::new();
    let roster = vec![player("o", &[(Outcome::Out, 1)])];
    let mut rng = SmallRng::seed_from_u64(5);
    assert_eq!(sim.search_range(&mut rng, &roster, 0, 1, 7, 10), (0, vec![0]));
}

#[test]
fn search_range_stops_at_the_end() {
    let sim = MonteCarlo::new();
    let roster = vec![player("a", &[(Outcome::Single, 1)])];
    let mut rng = SmallRng::seed_from_u64(5);
    let (runs, lineup) = sim.search_range(&mut rng, &roster, 0, 10, 1, 1);
    assert_eq!(runs, 100);
    assert_eq!(lineup, vec![0]);
    // past the last order nothing is visited
    let (runs, lineup) = sim.search_range(&mut rng, &roster, 1, 10, 1, 1);
    assert_eq!(runs, 0);
    assert!(lineup.is_empty());
}

#[test]
fn reduce_keeps_first_of_ties() {
    let best = reduce_best(&vec![(5, vec![0, 1]), (5, vec![1, 0]), (3, vec![0, 1])]);
    assert_eq!(best, (5, vec![0, 1]));
    assert_eq!(reduce_best(&vec![]), (0, vec![]));
    assert_eq!(reduce_best(&vec![(0, vec![1, 0])]), (0, vec![1, 0]));
    // a worker that visited nothing is ignored
    assert_eq!(reduce_best(&vec![(0, vec![]), (0, vec![1, 0]), (0, vec![0, 1])]), (0, vec![1, 0]));
}

#[test]
fn keep_better_is_strict() {
    let mut first = (0u64, vec![]);
    keep_better(&mut first, 0, &vec![1, 0]);
    assert_eq!(first, (0, vec![1, 0]));
    keep_better(&mut first, 7, &vec![]);
    assert_eq!(first, (0, vec![1, 0]));
    let mut best = (4u64, vec![2usize, 1, 0]);
    keep_better(&mut best, 4, &vec![0, 1, 2]);
    assert_eq!(best, (4, vec![2, 1, 0]));
    keep_better(&mut best, 5, &vec![0, 1, 2]);
    assert_eq!(best, (5, vec![0, 1, 2]));
}

#[test]
fn partition_examples() {
    assert_eq!(partition(24, 8), (8, 3));
    assert_eq!(partition(25, 8), (8, 3));
    assert_eq!(partition(2, 8), (2, 1));
    assert_eq!(partition(1, 16), (1, 1));
    assert_eq!(partition(0, 4), (1, 0));
    assert_eq!(partition(10, 0), (1, 10));
}

#[test]
fn identical_players_give_alike_orders() {
    let sim = MonteCarlo::new();
    let roster: Vec<Player> = (0..9)
        .map(|i| {
            player(&format!("p{}", i), &[(Outcome::Out, 70), (Outcome::Single, 20), (Outcome::Homerun, 10)])
        })
        .collect();
    let games = 4000;
    let mut means = Vec::new();
    let mut g = PermutationGenerator::new(9);
    let mut rng = SmallRng::seed_from_u64(9);
    for k in 0..2000 {
        g.advance();
        if k % 500 == 0 {
            let order = g.get().unwrap().clone();
            let total = sim.simulate_games(&mut rng, &roster, &order, 7, games);
            means.push(total as f64 / games as f64);
        }
    }
    let lo = means.iter().cloned().fold(f64::INFINITY, f64::min);
    let hi = means.iter().cloned().fold(f64::NEG_INFINITY, f64::max);
    assert!(hi - lo < 0.5, "means {:?}", means);
}

#[test]
fn homeruns_only_reach_the_ceiling() {
    let sim = MonteCarlo::new();
    let roster = vec![player("h", &[(Outcome::Homerun, 2)])];
    let mut rng = SmallRng::seed_from_u64(8);
    assert_eq!(sim.simulate_game(&mut rng, &roster, &vec![0], 7), 700);
}

#[test]
fn no_innings_draw_nothing() {
    let sim = MonteCarlo::new();
    let roster = vec![player("m", &[(Outcome::Out, 1), (Outcome::Single, 1)])];
    let mut rng = SmallRng::seed_from_u64(21);
    let mut copy = rng.clone();
    assert_eq!(sim.simulate_game(&mut rng, &roster, &vec![0], 0), 0);
    assert_eq!(rng.gen::<u64>(), copy.gen::<u64>());
}

#[test]
fn later_worker_starts_at_its_ordinal() {
    let sim = MonteCarlo::new();
    let roster = vec![
        player("a", &[(Outcome::Homerun, 1)]),
        player("b", &[(Outcome::Out, 1)]),
        player("c", &[(Outcome::Out, 1)]),
    ];
    let mut rng = SmallRng::seed_from_u64(2);
    // orders 2 and 3 of the enumeration: [1, 0, 2] and [1, 2, 0]
    let (runs, lineup) = sim.search_range(&mut rng, &roster, 2, 2, 1, 1);
    // [1, 0, 2]: out, homerun, out, out -> 1 run; [1, 2, 0]: out, out,
    // homerun, out -> 1 run too, and the tie keeps the first
    assert_eq!((runs, lineup), (1, vec![1, 0, 2]));
}
