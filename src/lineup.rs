use vstd::prelude::*;
use permutohedron::LexicalPermutation;

verus! {

pub open spec fn factorial(n: nat) -> nat
    decreases n,
{
    if n == 0 {
        1
    } else {
        n * factorial((n - 1) as nat)
    }
}

/// The batting order that keeps the roster's own order: 0, 1, ..., n - 1.
pub open spec fn identity_order(n: nat) -> Seq<usize> {
    Seq::new(n, |i: int| i as usize)
}

/// `s` orders the roster indices 0..n, each exactly once.
pub open spec fn is_ordering(s: Seq<usize>, n: nat) -> bool {
    s.to_multiset() == identity_order(n).to_multiset()
}

/// `a` comes before `b` in lexicographic order, at the first place where they differ.
pub open spec fn lex_less(a: Seq<usize>, b: Seq<usize>) -> bool {
    exists|k: int|
        0 <= k < a.len() && k < b.len() && a[k] < b[k] && (forall|j: int| 0 <= j < k ==> a[j] == b[j])
}

/// Some element is smaller than the one after it, so a later ordering exists.
pub open spec fn has_ascent(s: Seq<usize>) -> bool {
    exists|i: int| 0 < i < s.len() && s[i - 1] < #[trigger] s[i]
}

/// No sequence comes before itself.
pub proof fn lemma_lex_irreflexive(a: Seq<usize>)
    ensures
        !lex_less(a, a),
{
}

/// Lexicographic order is transitive.
pub proof fn lemma_lex_transitive(a: Seq<usize>, b: Seq<usize>, c: Seq<usize>)
    requires
        lex_less(a, b),
        lex_less(b, c),
    ensures
        lex_less(a, c),
{
    let k1 = choose|k: int|
        0 <= k < a.len() && k < b.len() && a[k] < b[k] && (forall|j: int| 0 <= j < k ==> a[j] == b[j]);
    let k2 = choose|k: int|
        0 <= k < b.len() && k < c.len() && b[k] < c[k] && (forall|j: int| 0 <= j < k ==> b[j] == c[j]);
    if k1 < k2 {
        assert(b[k1] == c[k1]);
        assert(forall|j: int| 0 <= j < k1 ==> a[j] == c[j]);
    } else if k2 < k1 {
        assert(a[k2] == b[k2]);
        assert(forall|j: int| 0 <= j < k2 ==> a[j] == c[j]);
    } else {
        assert(forall|j: int| 0 <= j < k1 ==> a[j] == c[j]);
    }
}

/// Orders produced one after another, each lexicographically after the one
/// before (as `PermutationGenerator::advance` yields them), are all distinct:
/// an enumeration never repeats an order.
pub proof fn lemma_enumeration_distinct(orders: Seq<Seq<usize>>)
    requires
        forall|i: int| 0 <= i < orders.len() - 1 ==> lex_less(#[trigger] orders[i], orders[i + 1]),
    ensures
        forall|i: int, j: int| 0 <= i < j < orders.len() ==> lex_less(#[trigger] orders[i], #[trigger] orders[j]),
        forall|i: int, j: int| 0 <= i < j < orders.len() ==> #[trigger] orders[i] != #[trigger] orders[j],
    decreases orders.len(),
{
    if orders.len() > 0 {
        let prefix = orders.drop_last();
        assert forall|i: int| 0 <= i < prefix.len() - 1 implies lex_less(#[trigger] prefix[i], prefix[i + 1]) by {
            assert(prefix[i] == orders[i] && prefix[i + 1] == orders[i + 1]);
        }
        lemma_enumeration_distinct(prefix);
        let last = orders.len() - 1;
        assert forall|i: int, j: int| 0 <= i < j < orders.len() implies lex_less(
            #[trigger] orders[i],
            #[trigger] orders[j],
        ) by {
            if j < last {
                assert(prefix[i] == orders[i] && prefix[j] == orders[j]);
            } else if i < last - 1 {
                assert(prefix[i] == orders[i] && prefix[last - 1] == orders[last - 1]);
                assert(lex_less(orders[i], orders[last - 1]));
                lemma_lex_transitive(orders[i], orders[last - 1], orders[last]);
            }
        }
        assert forall|i: int, j: int| 0 <= i < j < orders.len() implies #[trigger] orders[i]
            != #[trigger] orders[j] by {
            assert(lex_less(orders[i], orders[j]));
            lemma_lex_irreflexive(orders[i]);
        }
    }
}

/// Two sequences of one length are equal or one comes before the other.
pub proof fn lemma_lex_total(a: Seq<usize>, b: Seq<usize>)
    requires
        a.len() == b.len(),
    ensures
        a == b || lex_less(a, b) || lex_less(b, a),
{
    lemma_first_difference(a, b, 0);
}

proof fn lemma_first_difference(a: Seq<usize>, b: Seq<usize>, k: int)
    requires
        a.len() == b.len(),
        0 <= k <= a.len(),
        forall|j: int| 0 <= j < k ==> a[j] == b[j],
    ensures
        a == b || lex_less(a, b) || lex_less(b, a),
    decreases a.len() - k,
{
    if k == a.len() {
        assert(a =~= b);
    } else if a[k] < b[k] {
        assert(lex_less(a, b));
    } else if b[k] < a[k] {
        assert(lex_less(b, a));
    } else {
        lemma_first_difference(a, b, k + 1);
    }
}

/// Without an ascent a sequence never increases.
proof fn lemma_descending(c: Seq<usize>, i: int, j: int)
    requires
        !has_ascent(c),
        0 <= i <= j < c.len(),
    ensures
        c[i] >= c[j],
    decreases j - i,
{
    if i < j {
        lemma_descending(c, i, j - 1);
        assert(!(c[j - 1] < c[j]));
    }
}

/// Where two orderings of the same elements agree before `k`, the element of
/// `b` at `k` stands in `a` at `k` or later.
proof fn lemma_found_after(a: Seq<usize>, b: Seq<usize>, k: int) -> (m: int)
    requires
        a.to_multiset() == b.to_multiset(),
        0 <= k < b.len(),
        k <= a.len(),
        forall|j: int| 0 <= j < k ==> a[j] == b[j],
    ensures
        k <= m < a.len(),
        a[m] == b[k],
{
    broadcast use vstd::seq_lib::group_to_multiset_ensures;
    broadcast use vstd::multiset::group_multiset_axioms;

    vstd::seq_lib::lemma_multiset_commutative(a.take(k), a.skip(k));
    vstd::seq_lib::lemma_multiset_commutative(b.take(k), b.skip(k));
    assert(a.take(k) + a.skip(k) =~= a);
    assert(b.take(k) + b.skip(k) =~= b);
    assert(a.take(k) =~= b.take(k));
    assert(b.skip(k)[0] == b[k]);
    assert(b.skip(k).contains(b[k]));
    assert(b.skip(k).to_multiset().count(b[k]) > 0);
    let v = b[k];
    assert(a.to_multiset().count(v) == a.take(k).to_multiset().count(v) + a.skip(k).to_multiset().count(v));
    assert(b.to_multiset().count(v) == b.take(k).to_multiset().count(v) + b.skip(k).to_multiset().count(v));
    assert(a.skip(k).to_multiset().count(v) == b.skip(k).to_multiset().count(v));
    assert(a.skip(k).contains(b[k]));
    let i = choose|i: int| 0 <= i < a.skip(k).len() && a.skip(k)[i] == b[k];
    k + i
}

/// An ordering without an ascent is the last of its elements' orderings.
pub proof fn lemma_no_ascent_is_last(c: Seq<usize>, p: Seq<usize>)
    requires
        !has_ascent(c),
        p.to_multiset() == c.to_multiset(),
    ensures
        p == c || lex_less(p, c),
{
    broadcast use vstd::seq_lib::group_to_multiset_ensures;

    p.to_multiset_ensures();
    c.to_multiset_ensures();
    assert(p.len() == c.len());
    lemma_lex_total(p, c);
    if lex_less(c, p) {
        let k = choose|k: int|
            0 <= k < c.len() && k < p.len() && c[k] < p[k] && (forall|j: int| 0 <= j < k ==> c[j] == p[j]);
        let m = lemma_found_after(c, p, k);
        lemma_descending(c, k, m);
    }
}

/// The roster's own order is the first of all orderings of the roster.
pub proof fn lemma_identity_is_first(p: Seq<usize>, n: nat)
    requires
        is_ordering(p, n),
        n <= usize::MAX,
    ensures
        p == identity_order(n) || lex_less(identity_order(n), p),
{
    broadcast use vstd::seq_lib::group_to_multiset_ensures;

    let id = identity_order(n);
    assert(p.to_multiset().len() == id.to_multiset().len());
    lemma_lex_total(p, id);
    if lex_less(p, id) {
        let k = choose|k: int|
            0 <= k < p.len() && k < id.len() && p[k] < id[k] && (forall|j: int| 0 <= j < k ==> p[j] == id[j]);
        let m = lemma_found_after(id, p, k);
        assert(id[m] == m as usize);
        assert(id[k] == k as usize);
    }
}

/// Each order is followed by the next one in lexicographic order: the next
/// is a later ordering of the same elements, and no ordering lies between.
pub open spec fn successive(a: Seq<usize>, b: Seq<usize>) -> bool {
    &&& b.to_multiset() == a.to_multiset()
    &&& lex_less(a, b)
    &&& forall|q: Seq<usize>|
        q.to_multiset() == a.to_multiset() && #[trigger] lex_less(a, q) ==> !lex_less(q, b)
}

/// The order that follows `s` in lexicographic order.
pub open spec fn next_order(s: Seq<usize>) -> Seq<usize> {
    choose|t: Seq<usize>| successive(s, t)
}

/// Order `k` (from 0) of the enumeration of a roster of `n` players.
pub open spec fn nth_order(n: nat, k: nat) -> Seq<usize>
    decreases k,
{
    if k == 0 {
        identity_order(n)
    } else {
        next_order(nth_order(n, (k - 1) as nat))
    }
}

/// The enumeration of a roster of `n` players has an order `k`: none of the
/// orders before it is the last.
pub open spec fn order_exists(n: nat, k: nat) -> bool {
    forall|j: nat| j < k ==> has_ascent(#[trigger] nth_order(n, j))
}

/// An order has one next order at most.
pub proof fn lemma_successor_unique(s: Seq<usize>, t1: Seq<usize>, t2: Seq<usize>)
    requires
        successive(s, t1),
        successive(s, t2),
    ensures
        t1 == t2,
{
    broadcast use vstd::seq_lib::group_to_multiset_ensures;

    t1.to_multiset_ensures();
    t2.to_multiset_ensures();
    lemma_lex_total(t1, t2);
}

/// Where `s` has a next order `t`, `next_order(s)` is `t`.
pub proof fn lemma_next_order(s: Seq<usize>, t: Seq<usize>)
    requires
        successive(s, t),
    ensures
        next_order(s) == t,
{
    lemma_successor_unique(s, next_order(s), t);
}

/// An enumeration that starts at the roster's own order, steps from each
/// order to the next (as `PermutationGenerator::advance` does) and ends where
/// no order is left (where `advance` reports none) has visited every order
/// of the roster.
pub proof fn lemma_enumeration_complete(orders: Seq<Seq<usize>>, n: nat, p: Seq<usize>)
    requires
        n <= usize::MAX,
        orders.len() > 0,
        orders[0] == identity_order(n),
        forall|i: int| 0 <= i < orders.len() - 1 ==> successive(#[trigger] orders[i], orders[i + 1]),
        !has_ascent(orders.last()),
        is_ordering(p, n),
    ensures
        orders.contains(p),
{
    lemma_identity_is_first(p, n);
    lemma_visited_from(orders, n, p, 0);
}

proof fn lemma_visited_from(orders: Seq<Seq<usize>>, n: nat, p: Seq<usize>, i: int)
    requires
        0 <= i < orders.len(),
        forall|k: int| 0 <= k < orders.len() - 1 ==> successive(#[trigger] orders[k], orders[k + 1]),
        !has_ascent(orders.last()),
        is_ordering(p, n),
        is_ordering(orders[i], n),
        orders[i] == p || lex_less(orders[i], p),
    ensures
        orders.contains(p),
    decreases orders.len() - i,
{
    broadcast use vstd::seq_lib::group_to_multiset_ensures;

    if orders[i] == p {
        assert(orders[i] == p);
    } else if i == orders.len() - 1 {
        lemma_no_ascent_is_last(orders[i], p);
        lemma_lex_transitive(orders[i], p, orders[i]);
        lemma_lex_irreflexive(orders[i]);
    } else {
        let next = orders[i + 1];
        assert(successive(orders[i], next));
        assert(!lex_less(p, next));
        assert(next.to_multiset().len() == p.to_multiset().len());
        lemma_lex_total(next, p);
        lemma_visited_from(orders, n, p, i + 1);
    }
}

/// Relies on `permutohedron::factorial`: the product 1 * 2 * ... * n, which
/// must fit in a usize.
#[verifier::external_body]
fn factorial_of(n: usize) -> (r: usize)
    requires
        factorial(n as nat) <= usize::MAX,
    ensures
        r as nat == factorial(n as nat),
{
    permutohedron::factorial(n)
}

/// Relies on permutohedron's `LexicalPermutation::next_permutation` on a
/// slice: it rearranges the elements into the next ordering in lexicographic
/// order, or reports that none is left and leaves them as they are.
#[verifier::external_body]
fn next_lexical(v: &mut Vec<usize>) -> (r: bool)
    ensures
        final(v)@.to_multiset() == old(v)@.to_multiset(),
        final(v)@.len() == old(v)@.len(),
        r == has_ascent(old(v)@),
        !r ==> final(v)@ == old(v)@,
        r ==> lex_less(old(v)@, final(v)@),
        r ==> forall|p: Seq<usize>|
            p.to_multiset() == old(v)@.to_multiset() && #[trigger] lex_less(old(v)@, p) ==> !lex_less(
                p,
                final(v)@,
            ),
{
    v.as_mut_slice().next_permutation()
}

/// Every batting order of a roster, one at a time, in lexicographic order
/// of roster indices. A generator is started by `advance`; after that `get`
/// yields the current order until the orders run out.
pub struct PermutationGenerator {
    pub order: Vec<usize>,
    pub started: bool,
    pub has_next: bool,
}

impl PermutationGenerator {
    pub open spec fn wf(&self) -> bool {
        is_ordering(self.order@, self.order@.len())
    }

    /// A generator over the orders of a roster of `roster_size` players.
    pub fn new(roster_size: usize) -> (r: PermutationGenerator)
        ensures
            r.wf(),
            r.order@ == identity_order(roster_size as nat),
            !r.started,
            !r.has_next,
    {
        let mut order: Vec<usize> = Vec::new();
        let mut i: usize = 0;
        while i < roster_size
            invariant
                i <= roster_size,
                order@ == identity_order(i as nat),
            decreases roster_size - i,
        {
            order.push(i);
            i = i + 1;
            proof {
                assert(order@ =~= identity_order(i as nat));
            }
        }
        proof {
            assert(order@ =~= identity_order(roster_size as nat));
        }
        PermutationGenerator { order, started: false, has_next: false }
    }

    /// Moves to the next order: the first call yields the roster's own order,
    /// each later one the next order in lexicographic order, until none is left.
    pub fn advance(&mut self)
        requires
            old(self).wf(),
        ensures
            final(self).wf(),
            final(self).started,
            final(self).order@.len() == old(self).order@.len(),
            !old(self).started ==> final(self).has_next && final(self).order@ == old(self).order@,
            old(self).started && !old(self).has_next ==> !final(self).has_next && final(self).order@
                == old(self).order@,
            old(self).started && old(self).has_next ==> final(self).has_next == has_ascent(old(self).order@),
            old(self).started && old(self).has_next && !final(self).has_next ==> final(self).order@
                == old(self).order@,
            old(self).started && old(self).has_next && final(self).has_next ==> successive(
                old(self).order@,
                final(self).order@,
            ),
    {
        if !self.started {
            self.started = true;
            self.has_next = true;
        } else if self.has_next {
            self.has_next = next_lexical(&mut self.order);
        }
    }

    /// The current order, while there is one.
    pub fn get(&self) -> (r: Option<&Vec<usize>>)
        ensures
            r is Some <==> self.has_next,
            r matches Some(o) ==> o@ == self.order@,
    {
        if self.has_next {
            Some(&self.order)
        } else {
            None
        }
    }

    /// The number of orders of the whole roster, as lower and upper bound.
    pub fn size_hint(&self) -> (r: (usize, Option<usize>))
        requires
            factorial(self.order@.len()) <= usize::MAX,
        ensures
            r.0 as nat == factorial(self.order@.len()),
            r.1 == Some(r.0),
    {
        let n = PermutationGenerator::len(self.order.len());
        (n, Some(n))
    }

    /// The number of orders of a roster of `roster_size` players.
    pub fn len(roster_size: usize) -> (r: usize)
        requires
            factorial(roster_size as nat) <= usize::MAX,
        ensures
            r as nat == factorial(roster_size as nat),
    {
        factorial_of(roster_size)
    }
}

} // verus!
