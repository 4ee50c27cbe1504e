use std::collections::HashSet;
use softball_sim::PermutationGenerator;

fn all_orders(n: usize) -> Vec<Vec<usize>> {
    let mut g = PermutationGenerator::new(n);
    let mut out = Vec::new();
    loop {
        g.advance();
        match g.get() {
            Some(o) => out.push(o.clone()),
            None => break,
        }
    }
    out
}

#[test]
fn len_is_factorial() {
    assert_eq!(PermutationGenerator::len(0), 1);
    assert_eq!(PermutationGenerator::len(1), 1);
    assert_eq!(PermutationGenerator::len(4), 24);
    assert_eq!(PermutationGenerator::len(9), 362880);
}

#[test]
fn size_hint_is_exact() {
    let g = PermutationGenerator::new(5);
    assert_eq!(g.size_hint(), (120, Some(120)));
}

#[test]
fn nothing_before_first_advance() {
    let g = PermutationGenerator::new(3);
    assert!(g.get().is_none());
}

#[test]
fn first_orders() {
    let mut g = PermutationGenerator::new(3);
    g.advance();
    assert_eq!(g.get().unwrap(), &vec![0, 1, 2]);
    g.advance();
    assert_eq!(g.get().unwrap(), &vec![0, 2, 1]);
}

#[test]
fn every_order_once() {
    for n in 0..7 {
        let orders = all_orders(n);
        assert_eq!(orders.len(), PermutationGenerator::len(n));
        let distinct: HashSet<Vec<usize>> = orders.iter().cloned().collect();
        assert_eq!(distinct.len(), orders.len());
        for o in &orders {
            let mut sorted = o.clone();
            sorted.sort();
            assert_eq!(sorted, (0..n).collect::<Vec<usize>>());
        }
    }
}

#[test]
fn exhausted_stays_exhausted() {
    let mut g = PermutationGenerator::new(2);
    g.advance();
    g.advance();
    g.advance();
    assert!(g.get().is_none());
    g.advance();
    assert!(g.get().is_none());
}
