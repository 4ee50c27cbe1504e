use vstd::prelude::*;

verus! {

/// The result of one plate appearance.
#[derive(Clone, Copy, Debug, PartialEq, Eq, Hash, Structural)]
pub enum Outcome {
    Out,
    Walk,
    Single,
    Double,
    Triple,
    Homerun,
}

#[derive(Clone, Copy, Debug, PartialEq, Eq, Structural)]
pub enum Gender {
    Male,
    Female,
}

/// Number of distinct outcomes.
pub const NUM_OUTCOMES: usize = 6;

/// Bases that the batter advances on each outcome.
pub open spec fn bases_of(o: Outcome) -> nat {
    match o {
        Outcome::Out => 0,
        Outcome::Walk => 1,
        Outcome::Single => 1,
        Outcome::Double => 2,
        Outcome::Triple => 3,
        Outcome::Homerun => 4,
    }
}

/// Position of each outcome in the enumeration order.
pub open spec fn index_of(o: Outcome) -> nat {
    match o {
        Outcome::Out => 0,
        Outcome::Walk => 1,
        Outcome::Single => 2,
        Outcome::Double => 3,
        Outcome::Triple => 4,
        Outcome::Homerun => 5,
    }
}

/// Distinct outcomes have distinct positions.
pub proof fn lemma_index_injective(a: Outcome, b: Outcome)
    ensures
        index_of(a) == index_of(b) ==> a == b,
{
}

impl Outcome {
    pub fn num_bases(&self) -> (r: u32)
        ensures
            r == bases_of(*self),
    {
        match self {
            Outcome::Out => 0,
            Outcome::Walk | Outcome::Single => 1,
            Outcome::Double => 2,
            Outcome::Triple => 3,
            Outcome::Homerun => 4,
        }
    }

    /// The outcome at position `i` of the enumeration order.
    pub fn from_index(i: usize) -> (r: Option<Outcome>)
        ensures
            i < NUM_OUTCOMES <==> r is Some,
            r matches Some(o) ==> index_of(o) == i,
    {
        match i {
            0 => Some(Outcome::Out),
            1 => Some(Outcome::Walk),
            2 => Some(Outcome::Single),
            3 => Some(Outcome::Double),
            4 => Some(Outcome::Triple),
            5 => Some(Outcome::Homerun),
            _ => None,
        }
    }
}

} // verus!
