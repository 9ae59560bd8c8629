use vstd::prelude::*;
use crate::citizen::{Citizen, State};

verus! {

broadcast use vstd::set::group_set_axioms;

/// Number of citizens in each state.
#[derive(Clone, Copy, Debug, PartialEq, Eq, Structural)]
pub struct Counts {
    pub susceptible: u64,
    pub exposed: u64,
    pub infected: u64,
    pub quarantined: u64,
    pub recovered: u64,
    pub deceased: u64,
}

/// The number of occupied cells whose occupant is in state `s`.
pub open spec fn count_in(m: Map<(i32, i32), Citizen>, s: State) -> nat {
    m.dom().filter(|k: (i32, i32)| m[k].state == s).len()
}

/// One if the citizen is in state `s`, else zero.
pub open spec fn is_in(c: Citizen, s: State) -> nat {
    if c.state == s {
        1
    } else {
        0
    }
}

/// The sum of the six buckets.
pub open spec fn total_of(m: Map<(i32, i32), Citizen>) -> nat {
    count_in(m, State::Susceptible) + count_in(m, State::Exposed) + count_in(m, State::Infected)
        + count_in(m, State::Quarantined) + count_in(m, State::Recovered) + count_in(
        m,
        State::Deceased,
    )
}

impl Counts {
    /// The bucket of state `s`.
    pub open spec fn bucket(&self, s: State) -> int {
        match s {
            State::Susceptible => self.susceptible as int,
            State::Exposed => self.exposed as int,
            State::Infected => self.infected as int,
            State::Quarantined => self.quarantined as int,
            State::Recovered => self.recovered as int,
            State::Deceased => self.deceased as int,
        }
    }

    /// True iff every bucket holds the number of occupants in its state.
    pub open spec fn tallies(&self, m: Map<(i32, i32), Citizen>) -> bool {
        forall|s: State| #[trigger] self.bucket(s) == count_in(m, s)
    }

    pub fn new() -> (r: Counts)
        ensures
            forall|s: State| #[trigger] r.bucket(s) == 0,
    {
        Counts { susceptible: 0, exposed: 0, infected: 0, quarantined: 0, recovered: 0, deceased: 0 }
    }

    /// Adds `n` to the bucket of `s`.
    pub fn add(&mut self, s: State, n: u64)
        requires
            old(self).bucket(s) + n <= u64::MAX,
        ensures
            final(self).bucket(s) == old(self).bucket(s) + n,
            forall|t: State| t != s ==> #[trigger] final(self).bucket(t) == old(self).bucket(t),
    {
        match s {
            State::Susceptible => self.susceptible = self.susceptible + n,
            State::Exposed => self.exposed = self.exposed + n,
            State::Infected => self.infected = self.infected + n,
            State::Quarantined => self.quarantined = self.quarantined + n,
            State::Recovered => self.recovered = self.recovered + n,
            State::Deceased => self.deceased = self.deceased + n,
        }
    }

    /// Takes `n` from the bucket of `s`.
    pub fn remove(&mut self, s: State, n: u64)
        requires
            old(self).bucket(s) >= n,
        ensures
            final(self).bucket(s) == old(self).bucket(s) - n,
            forall|t: State| t != s ==> #[trigger] final(self).bucket(t) == old(self).bucket(t),
    {
        match s {
            State::Susceptible => self.susceptible = self.susceptible - n,
            State::Exposed => self.exposed = self.exposed - n,
            State::Infected => self.infected = self.infected - n,
            State::Quarantined => self.quarantined = self.quarantined - n,
            State::Recovered => self.recovered = self.recovered - n,
            State::Deceased => self.deceased = self.deceased - n,
        }
    }
}

/// Adding an occupant to a free cell adds one to its state's bucket.
pub proof fn lemma_count_insert(m: Map<(i32, i32), Citizen>, k: (i32, i32), c: Citizen, s: State)
    requires
        m.dom().finite(),
        !m.contains_key(k),
    ensures
        count_in(m.insert(k, c), s) == count_in(m, s) + is_in(c, s),
{
    let m2 = m.insert(k, c);
    let f1 = m.dom().filter(|j: (i32, i32)| m[j].state == s);
    let f2 = m2.dom().filter(|j: (i32, i32)| m2[j].state == s);
    if c.state == s {
        assert(f2 =~= f1.insert(k));
    } else {
        assert(f2 =~= f1);
    }
}

/// Taking the occupant out of a cell takes one from its state's bucket.
pub proof fn lemma_count_remove(m: Map<(i32, i32), Citizen>, k: (i32, i32), s: State)
    requires
        m.dom().finite(),
        m.contains_key(k),
    ensures
        count_in(m.remove(k), s) == count_in(m, s) - is_in(m[k], s),
{
    let m2 = m.remove(k);
    let f1 = m.dom().filter(|j: (i32, i32)| m[j].state == s);
    let f2 = m2.dom().filter(|j: (i32, i32)| m2[j].state == s);
    if m[k].state == s {
        assert(f2 =~= f1.remove(k));
    } else {
        assert(f2 =~= f1);
    }
}

/// Replacing the occupant of a cell moves one citizen between buckets.
pub proof fn lemma_count_replace(m: Map<(i32, i32), Citizen>, k: (i32, i32), c: Citizen, s: State)
    requires
        m.dom().finite(),
        m.contains_key(k),
    ensures
        count_in(m.insert(k, c), s) == count_in(m, s) - is_in(m[k], s) + is_in(c, s),
{
    lemma_count_remove(m, k, s);
    lemma_count_insert(m.remove(k), k, c, s);
    assert(m.remove(k).insert(k, c) =~= m.insert(k, c));
}

/// No bucket holds more citizens than there are occupied cells.
pub proof fn lemma_count_le_len(m: Map<(i32, i32), Citizen>, s: State)
    requires
        m.dom().finite(),
    ensures
        count_in(m, s) <= m.len(),
{
    vstd::set_lib::lemma_len_subset(m.dom().filter(|k: (i32, i32)| m[k].state == s), m.dom());
}

/// Every occupant stands in exactly one bucket, so that the buckets together
/// count the whole population, the dead included.
pub proof fn lemma_total_is_population(m: Map<(i32, i32), Citizen>)
    requires
        m.dom().finite(),
    ensures
        total_of(m) == m.len(),
    decreases m.len(),
{
    if m.len() == 0 {
        assert forall|s: State| count_in(m, s) == 0 by {
            lemma_count_le_len(m, s);
        }
    } else {
        let k = m.dom().choose();
        assert(m.dom().contains(k));
        let m2 = m.remove(k);
        lemma_total_is_population(m2);
        lemma_count_remove(m, k, State::Susceptible);
        lemma_count_remove(m, k, State::Exposed);
        lemma_count_remove(m, k, State::Infected);
        lemma_count_remove(m, k, State::Quarantined);
        lemma_count_remove(m, k, State::Recovered);
        lemma_count_remove(m, k, State::Deceased);
    }
}

} // verus!
