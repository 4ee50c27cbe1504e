use softball_sim::{BaseState, Outcome, TransitionTable};

fn run(table: &TransitionTable, state: &mut BaseState, bases: u32) -> u32 {
    state.advance_runners(table, bases)
}

#[test]
fn outcome_bases() {
    assert_eq!(Outcome::Out.num_bases(), 0);
    assert_eq!(Outcome::Walk.num_bases(), 1);
    assert_eq!(Outcome::Single.num_bases(), 1);
    assert_eq!(Outcome::Double.num_bases(), 2);
    assert_eq!(Outcome::Triple.num_bases(), 3);
    assert_eq!(Outcome::Homerun.num_bases(), 4);
}

#[test]
fn outcome_from_index() {
    assert_eq!(Outcome::from_index(0), Some(Outcome::Out));
    assert_eq!(Outcome::from_index(5), Some(Outcome::Homerun));
    assert_eq!(Outcome::from_index(6), None);
}

#[test]
fn table_has_every_transition() {
    let table = TransitionTable::new();
    assert_eq!(table.entries.len(), 32);
    // from empty, a single puts the batter on first
    assert_eq!(table.entries[0], (1, 0));
    // from bases loaded, a homerun scores four
    assert_eq!(table.entries[4 * 7 + 3], (0, 4));
}

#[test]
fn three_singles_load_the_bases() {
    let table = TransitionTable::new();
    let mut s = BaseState::new();
    assert_eq!(run(&table, &mut s, 1), 0);
    assert_eq!(s.state, 0b001);
    assert_eq!(run(&table, &mut s, 1), 0);
    assert_eq!(s.state, 0b011);
    assert_eq!(run(&table, &mut s, 1), 0);
    assert_eq!(s.state, 0b111);
    assert_eq!(run(&table, &mut s, 1), 1);
    assert_eq!(s.state, 0b111);
}

#[test]
fn homerun_clears_every_state() {
    let table = TransitionTable::new();
    for start in 0u8..8 {
        let mut s = BaseState { state: start };
        let runs = run(&table, &mut s, 4);
        assert_eq!(runs, 1 + start.count_ones());
        assert_eq!(s.state, 0);
    }
}

#[test]
fn hits_move_every_runner() {
    let table = TransitionTable::new();
    for start in 0u8..8 {
        for bases in 1u32..=4 {
            let mut s = BaseState { state: start };
            let runs = run(&table, &mut s, bases);
            let moved: u32 = ((start as u32) << bases) | (1 << (bases - 1));
            assert_eq!(s.state as u32, moved & 7);
            assert_eq!(runs, (moved >> 3).count_ones());
        }
    }
}

#[test]
fn double_and_triple() {
    let table = TransitionTable::new();
    // runner on first, double: runners on second and third
    let mut s = BaseState { state: 0b001 };
    assert_eq!(run(&table, &mut s, 2), 0);
    assert_eq!(s.state, 0b110);
    // runners on second and third, triple: two score, batter on third
    assert_eq!(run(&table, &mut s, 3), 2);
    assert_eq!(s.state, 0b100);
}

#[test]
fn out_leaves_state() {
    let table = TransitionTable::new();
    let mut s = BaseState { state: 0b101 };
    assert_eq!(run(&table, &mut s, 0), 0);
    assert_eq!(s.state, 0b101);
}
