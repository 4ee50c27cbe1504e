use vstd::prelude::*;
use vstd::multiset::Multiset;
use multiset::HashMultiSet;
use rand::distributions::weighted::alias_method::WeightedIndex;
use rand::distributions::weighted::WeightedError;
use rand::distributions::Distribution;
use rand::rngs::SmallRng;
use crate::outcome::{Gender, Outcome, NUM_OUTCOMES, index_of};

verus! {

#[verifier::external_type_specification]
#[verifier::external_body]
#[verifier::reject_recursive_types(K)]
pub struct ExHashMultiSet<K>(HashMultiSet<K>);

/// An alias-method sampler over outcome indices (rand's `WeightedIndex`),
/// held opaquely: Verus does not take a declaration of a type bounded by
/// rand's `Weight` trait.
#[verifier::external_body]
pub struct OutcomeSampler {
    inner: WeightedIndex<usize>,
}

#[verifier::external_type_specification]
#[verifier::external_body]
pub struct ExWeightedError(WeightedError);

#[verifier::external_type_specification]
#[verifier::external_body]
pub struct ExSmallRng(SmallRng);

/// What a `HashMultiSet` of outcomes holds.
pub uninterp spec fn outcome_counts(m: HashMultiSet<Outcome>) -> Multiset<Outcome>;

/// The weights that an alias-method sampler was built from.
pub uninterp spec fn alias_weights(d: OutcomeSampler) -> Seq<usize>;

/// Relies on `HashMultiSet::new`: an empty multiset.
#[verifier::external_body]
fn empty_outcomes() -> (r: HashMultiSet<Outcome>)
    ensures
        outcome_counts(r) == Multiset::<Outcome>::empty(),
{
    HashMultiSet::new()
}

/// Relies on `HashMultiSet::insert`: adds one occurrence of `o`; the size
/// counter it keeps must not overflow.
#[verifier::external_body]
fn insert_outcome(m: &mut HashMultiSet<Outcome>, o: Outcome)
    requires
        outcome_counts(*old(m)).len() < usize::MAX,
    ensures
        outcome_counts(*final(m)) == outcome_counts(*old(m)).insert(o),
{
    m.insert(o)
}

/// Relies on `HashMultiSet::count_of`: the number of occurrences of `o`.
#[verifier::external_body]
fn count_of_outcome(m: &HashMultiSet<Outcome>, o: &Outcome) -> (r: usize)
    ensures
        r as nat == outcome_counts(*m).count(*o),
{
    m.count_of(o)
}

/// Some weight is not zero.
pub open spec fn has_positive(weights: Seq<usize>) -> bool {
    exists|i: int| 0 <= i < weights.len() && weights[i] > 0
}

/// Relies on alias_method `WeightedIndex::new`: with at least one and at most
/// `u32::MAX` weights, each at most `usize::MAX / n`, it fails exactly when
/// all weights are zero, and otherwise keeps the weights it samples by.
#[verifier::external_body]
fn alias_sampler(weights: Vec<usize>) -> (r: Result<OutcomeSampler, WeightedError>)
    requires
        0 < weights@.len() <= u32::MAX,
        forall|i: int| 0 <= i < weights@.len() ==> weights@[i] <= (usize::MAX as int) / (weights@.len() as int),
    ensures
        r.is_ok() == has_positive(weights@),
        r.is_ok() ==> alias_weights(r->Ok_0) == weights@,
{
    WeightedIndex::new(weights).map(|inner| OutcomeSampler { inner })
}

/// Relies on alias_method `WeightedIndex::sample`: an index below the number
/// of weights whose weight is not zero (integer weights make the alias table
/// exact).
#[verifier::external_body]
fn sample_index(d: &OutcomeSampler, rng: &mut SmallRng) -> (r: usize)
    ensures
        r < alias_weights(*d).len(),
        alias_weights(*d)[r as int] > 0,
{
    d.inner.sample(rng)
}

/// Largest count of one outcome that a player's history may hold.
pub const MAX_OUTCOME_COUNT: usize = usize::MAX / 6;

/// The historical plate appearances of one player.
pub struct Stats {
    pub plate_appearances: HashMultiSet<Outcome>,
}

impl Stats {
    pub open spec fn history(&self) -> Multiset<Outcome> {
        outcome_counts(self.plate_appearances)
    }

    pub fn new(plate_appearances: &[Outcome]) -> (r: Stats)
        ensures
            r.history() == plate_appearances@.to_multiset(),
    {
        let mut m = empty_outcomes();
        let mut i: usize = 0;
        proof {
            broadcast use vstd::seq_lib::group_to_multiset_ensures;
            assert(plate_appearances@.subrange(0, 0) =~= Seq::<Outcome>::empty());
        }
        while i < plate_appearances.len()
            invariant
                i <= plate_appearances@.len(),
                outcome_counts(m) == plate_appearances@.subrange(0, i as int).to_multiset(),
            decreases plate_appearances@.len() - i,
        {
            proof {
                broadcast use vstd::seq_lib::group_to_multiset_ensures;
                assert(plate_appearances@.subrange(0, i as int + 1) =~= plate_appearances@.subrange(
                    0,
                    i as int,
                ).push(plate_appearances@[i as int]));
            }
            insert_outcome(&mut m, plate_appearances[i]);
            i = i + 1;
        }
        proof {
            assert(plate_appearances@.subrange(0, i as int) =~= plate_appearances@);
        }
        Stats { plate_appearances: m }
    }
}

/// Why a player cannot be built from their history.
#[derive(Clone, Copy, Debug, PartialEq, Eq, Structural)]
pub enum PlayerError {
    /// The history holds no plate appearance.
    NoPlateAppearances,
    /// One outcome occurs more than `MAX_OUTCOME_COUNT` times.
    TooManyPlateAppearances,
}

/// A player, with the outcome distribution drawn from their history.
pub struct Player {
    pub id: String,
    pub name: String,
    pub gender: Gender,
    pub stats: Stats,
    pub dist: OutcomeSampler,
}

impl Player {
    pub open spec fn history(&self) -> Multiset<Outcome> {
        self.stats.history()
    }

    /// The sampler's weight for each outcome is that outcome's count.
    pub open spec fn wf(&self) -> bool {
        &&& alias_weights(self.dist).len() == NUM_OUTCOMES
        &&& forall|o: Outcome| #[trigger]
            alias_weights(self.dist)[index_of(o) as int] == self.history().count(o)
    }

    pub fn new(id: &str, name: &str, gender: Gender, stats: Stats) -> (r: Result<Player, PlayerError>)
        ensures
            r matches Ok(p) ==> p.wf() && p.id@ == id@ && p.name@ == name@ && p.gender == gender
                && p.history() == stats.history(),
            (r == Err::<Player, PlayerError>(PlayerError::TooManyPlateAppearances)) <==> (exists|o: Outcome|
                #[trigger] stats.history().count(o) > MAX_OUTCOME_COUNT),
            (r == Err::<Player, PlayerError>(PlayerError::NoPlateAppearances)) <==> (stats.history().len() == 0
                && !exists|o: Outcome| #[trigger] stats.history().count(o) > MAX_OUTCOME_COUNT),
    {
        let mut weights: Vec<usize> = Vec::new();
        let mut i: usize = 0;
        let mut too_many = false;
        while i < NUM_OUTCOMES
            invariant
                i <= NUM_OUTCOMES,
                weights@.len() == i,
                forall|o: Outcome|
                    index_of(o) < i ==> #[trigger] weights@[index_of(o) as int] == stats.history().count(o),
                forall|k: int| 0 <= k < i ==> (#[trigger] weights@[k] > MAX_OUTCOME_COUNT ==> too_many),
                stats.history().len() == 0 ==> forall|k: int| 0 <= k < i ==> #[trigger] weights@[k] == 0,
                too_many <==> exists|o: Outcome|
                    index_of(o) < i && #[trigger] stats.history().count(o) > MAX_OUTCOME_COUNT,
            decreases NUM_OUTCOMES - i,
        {
            let o = Outcome::from_index(i).unwrap();
            let c = count_of_outcome(&stats.plate_appearances, &o);
            if c > MAX_OUTCOME_COUNT {
                too_many = true;
            }
            weights.push(c);
            proof {
                assert forall|o2: Outcome| index_of(o2) == i implies o2 == o by {
                    crate::outcome::lemma_index_injective(o2, o);
                }
                if c > MAX_OUTCOME_COUNT {
                    assert(index_of(o) < i + 1 && stats.history().count(o) > MAX_OUTCOME_COUNT);
                }
                vstd::multiset::lemma_multiset_empty_len(stats.history());
                if stats.history().len() == 0 {
                    assert(stats.history().count(o) == Multiset::<Outcome>::empty().count(o));
                }
            }
            i = i + 1;
        }
        if too_many {
            return Err(PlayerError::TooManyPlateAppearances);
        }
        proof {
            assert forall|o: Outcome| #[trigger] stats.history().count(o) <= MAX_OUTCOME_COUNT by {
                assert(index_of(o) < NUM_OUTCOMES);
            }
            vstd::multiset::lemma_multiset_empty_len(stats.history());
            if stats.history().len() > 0 {
                let o = choose|o: Outcome| 0 < stats.history().count(o);
                assert(weights@[index_of(o) as int] > 0);
                assert(has_positive(weights@));
            } else {
                assert(stats.history() =~= Multiset::empty());
            }
        }
        match alias_sampler(weights) {
            Ok(dist) => Ok(
                Player { id: id.to_string(), name: name.to_string(), gender, stats, dist },
            ),
            Err(_) => Err(PlayerError::NoPlateAppearances),
        }
    }

    /// One plate appearance: an outcome drawn with probability proportional
    /// to its count in the player's history.
    pub fn hit(&self, rng: &mut SmallRng) -> (r: Outcome)
        requires
            self.wf(),
        ensures
            self.history().count(r) > 0,
    {
        let i = sample_index(&self.dist, rng);
        let o = Outcome::from_index(i).unwrap();
        proof {
            assert(alias_weights(self.dist)[index_of(o) as int] == self.history().count(o));
        }
        o
    }
}

} // verus!
