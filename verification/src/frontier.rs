use vstd::prelude::*;
use vstd::multiset::Multiset;
use vstd::seq_lib::{to_multiset_build, to_multiset_remove};
use crate::coord::Coord;
use crate::level::column_major;

verus! {

/// A cell that waits to be looked at, with its estimated total cost.
#[derive(Debug, Copy, Clone, PartialEq, Eq, Structural)]
pub struct Candidate {
    pub cost: u128,
    pub coord: Coord,
}

impl Candidate {
    /// The order in which candidates leave the frontier: the lower cost first,
    /// and among equal costs the lower column, then the lower row.
    pub open spec fn spec_precedes(&self, other: &Candidate) -> bool {
        self.cost < other.cost || (self.cost == other.cost && column_major(self.coord, other.coord))
    }

    #[verifier::when_used_as_spec(spec_precedes)]
    pub fn precedes(&self, other: &Candidate) -> (b: bool)
        ensures
            b == self.spec_precedes(other),
    {
        self.cost < other.cost || (self.cost == other.cost && (self.coord.x < other.coord.x || (
        self.coord.x == other.coord.x && self.coord.y < other.coord.y)))
    }
}

/// The candidates that wait. The one that precedes all others leaves first.
pub struct Frontier {
    waiting: Vec<Candidate>,
}

impl View for Frontier {
    type V = Multiset<Candidate>;

    /// The candidates that wait, each as often as it was put in.
    closed spec fn view(&self) -> Multiset<Candidate> {
        self.waiting@.to_multiset()
    }
}

impl Frontier {
    /// A frontier in which nothing waits.
    pub fn new() -> (frontier: Frontier)
        ensures
            frontier@ == Multiset::<Candidate>::empty(),
    {
        let frontier = Frontier { waiting: Vec::new() };
        proof {
            frontier.waiting@.to_multiset_ensures();
        }
        frontier
    }

    /// Number of candidates that wait.
    pub fn len(&self) -> (n: usize)
        ensures
            n == self@.len(),
    {
        proof {
            self.waiting@.to_multiset_ensures();
        }
        self.waiting.len()
    }

    /// Puts a candidate in.
    pub fn push(&mut self, candidate: Candidate)
        ensures
            final(self)@ == old(self)@.insert(candidate),
    {
        proof {
            to_multiset_build(self.waiting@, candidate);
        }
        self.waiting.push(candidate);
    }

    /// Takes out the candidate that no other precedes, if any waits.
    pub fn pop(&mut self) -> (next: Option<Candidate>)
        ensures
            match next {
                Some(candidate) => {
                    &&& old(self)@.contains(candidate)
                    &&& final(self)@ == old(self)@.remove(candidate)
                    &&& forall|other: Candidate| old(self)@.contains(other) ==> !other.spec_precedes(&candidate)
                },
                None => old(self)@.len() == 0 && final(self)@ == old(self)@,
            },
    {
        proof {
            self.waiting@.to_multiset_ensures();
        }
        if self.waiting.len() == 0 {
            return None;
        }
        let mut best: usize = 0;
        let mut i: usize = 1;
        while i < self.waiting.len()
            invariant
                1 <= i <= self.waiting@.len(),
                best < i,
                forall|j: int| 0 <= j < i ==> !(#[trigger] self.waiting@[j]).spec_precedes(&self.waiting@[best as int]),
            decreases self.waiting@.len() - i,
        {
            if self.waiting[i].precedes(&self.waiting[best]) {
                best = i;
            }
            i += 1;
        }
        proof {
            to_multiset_remove(self.waiting@, best as int);
        }
        Some(self.waiting.remove(best))
    }

    /// Gives a waiting candidate another cost.
    pub fn reprioritize(&mut self, candidate: Candidate, cost: u128)
        requires
            old(self)@.contains(candidate),
        ensures
            final(self)@ == old(self)@.remove(candidate).insert(Candidate { cost, coord: candidate.coord }),
    {
        proof {
            self.waiting@.to_multiset_ensures();
        }
        let mut i: usize = 0;
        assert(self.waiting.len() <= usize::MAX);
        while !(self.waiting[i].cost == candidate.cost && self.waiting[i].coord == candidate.coord)
            invariant
                0 <= i < self.waiting@.len() <= usize::MAX,
                exists|j: int| i <= j < self.waiting@.len() && self.waiting@[j] == candidate,
            decreases self.waiting@.len() - i,
        {
            i += 1;
        }
        proof {
            to_multiset_remove(self.waiting@, i as int);
            to_multiset_build(self.waiting@.remove(i as int), Candidate { cost, coord: candidate.coord });
        }
        self.waiting.remove(i);
        self.waiting.push(Candidate { cost, coord: candidate.coord });
    }
}

} // verus!
