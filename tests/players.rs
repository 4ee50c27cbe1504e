use rand::rngs::SmallRng;
use rand::SeedableRng;
use softball_sim::{Gender, Outcome, Player, PlayerError, Stats};

fn repeat(o: Outcome, n: usize) -> Vec<Outcome> {
    vec![o; n]
}

#[test]
fn stats_count_outcomes() {
    let mut pas = repeat(Outcome::Single, 3);
    pas.extend(repeat(Outcome::Out, 2));
    let stats = Stats::new(&pas);
    assert_eq!(stats.plate_appearances.count_of(&Outcome::Single), 3);
    assert_eq!(stats.plate_appearances.count_of(&Outcome::Out), 2);
    assert_eq!(stats.plate_appearances.count_of(&Outcome::Walk), 0);
}

#[test]
fn player_without_appearances_is_refused() {
    let r = Player::new("p1", "Nobody", Gender::Female, Stats::new(&[]));
    assert!(matches!(r, Err(PlayerError::NoPlateAppearances)));
}

#[test]
fn player_keeps_identity() {
    let p = Player::new("p7", "Ann", Gender::Female, Stats::new(&[Outcome::Walk])).unwrap();
    assert_eq!(p.id, "p7");
    assert_eq!(p.name, "Ann");
    assert_eq!(p.gender, Gender::Female);
}

#[test]
fn only_singles_always_single() {
    let p = Player::new("s", "Single", Gender::Male, Stats::new(&repeat(Outcome::Single, 100))).unwrap();
    let mut rng = SmallRng::seed_from_u64(1);
    for _ in 0..1000 {
        assert_eq!(p.hit(&mut rng), Outcome::Single);
    }
}

#[test]
fn sampling_follows_history() {
    let mut pas = repeat(Outcome::Out, 70);
    pas.extend(repeat(Outcome::Single, 20));
    pas.extend(repeat(Outcome::Homerun, 10));
    let p = Player::new("m", "Mixed", Gender::Male, Stats::new(&pas)).unwrap();
    let mut rng = SmallRng::seed_from_u64(42);
    let draws = 100_000;
    let mut counts = [0usize; 6];
    for _ in 0..draws {
        let o = p.hit(&mut rng);
        let i = match o {
            Outcome::Out => 0,
            Outcome::Walk => 1,
            Outcome::Single => 2,
            Outcome::Double => 3,
            Outcome::Triple => 4,
            Outcome::Homerun => 5,
        };
        counts[i] += 1;
    }
    assert_eq!(counts[1] + counts[3] + counts[4], 0);
    let freq = |c: usize| c as f64 / draws as f64;
    assert!((freq(counts[0]) - 0.7).abs() < 0.01);
    assert!((freq(counts[2]) - 0.2).abs() < 0.01);
    assert!((freq(counts[5]) - 0.1).abs() < 0.01);
}
