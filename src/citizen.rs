use vstd::prelude::*;
use crate::geometry::{Area, Point};

verus! {

/// Scale of the rates a citizen carries: a rate of `RATE_SCALE` is certainty.
pub const RATE_SCALE: u32 = 1_000_000;

/// Rate at which an infectious citizen passes the disease to one neighbour.
pub const DEFAULT_TRANSMISSION_RATE: u32 = 500_000;

/// Rate at which a quarantined citizen dies when the illness runs its course.
pub const DEFAULT_FATALITY_RATE: u32 = 20_000;

/// Day of infection from which a quarantined citizen either dies or recovers.
pub const LAST_INFECTION_DAY: u32 = 14;

/// Health of a citizen.
#[derive(Clone, Copy, Debug, PartialEq, Eq, Hash, Structural)]
pub enum State {
    Susceptible,
    Exposed,
    Infected,
    Quarantined,
    Recovered,
    Deceased,
}

/// One simulated individual.
#[derive(Clone, Copy, Debug, PartialEq, Eq, Hash, Structural)]
pub struct Citizen {
    pub id: u64,
    pub state: State,
    pub infection_day: u32,
    pub vaccinated: bool,
    pub hospitalized: bool,
    pub working: bool,
    pub uses_public_transport: bool,
    pub home_location: Area,
    pub work_location: Area,
    pub transport_location: Point,
    /// Chance, out of `RATE_SCALE`, that this citizen infects a neighbour.
    pub transmission_rate: u32,
    /// Chance, out of `RATE_SCALE`, that this citizen dies of the disease.
    pub fatality_rate: u32,
}

/// A citizen leaving one simulation for another, without a place yet.
#[derive(Clone, Copy, Debug, PartialEq, Eq, Hash, Structural)]
pub struct Migrator {
    pub id: u64,
    pub state: State,
    pub infection_day: u32,
    pub vaccinated: bool,
    pub working: bool,
    pub uses_public_transport: bool,
    pub transmission_rate: u32,
    pub fatality_rate: u32,
}

/// A citizen coming from another simulation for the working day: it keeps
/// the home and work areas it came with.
#[derive(Clone, Copy, Debug, PartialEq, Eq, Hash, Structural)]
pub struct Commuter {
    pub id: u64,
    pub state: State,
    pub infection_day: u32,
    pub vaccinated: bool,
    pub home_location: Area,
    pub work_location: Area,
    pub transmission_rate: u32,
    pub fatality_rate: u32,
}

/// The resident made of migrator `m`, housed in `home`, working in `work`.
pub open spec fn migrant(m: Migrator, home: Area, work: Area, transport_location: Point) -> Citizen {
    Citizen {
        id: m.id,
        state: m.state,
        infection_day: m.infection_day,
        vaccinated: m.vaccinated,
        hospitalized: false,
        working: m.working,
        uses_public_transport: m.uses_public_transport,
        home_location: home,
        work_location: work,
        transport_location,
        transmission_rate: m.transmission_rate,
        fatality_rate: m.fatality_rate,
    }
}

/// The visitor made of commuter `c`.
pub open spec fn visitor(c: Commuter, transport_location: Point) -> Citizen {
    Citizen {
        id: c.id,
        state: c.state,
        infection_day: c.infection_day,
        vaccinated: c.vaccinated,
        hospitalized: false,
        working: true,
        uses_public_transport: true,
        home_location: c.home_location,
        work_location: c.work_location,
        transport_location,
        transmission_rate: c.transmission_rate,
        fatality_rate: c.fatality_rate,
    }
}

/// True iff a citizen in this state and place passes the disease on.
pub open spec fn infectious(c: Citizen) -> bool {
    (c.state == State::Infected || c.state == State::Quarantined) && !c.hospitalized
}

/// True iff the citizen may change cell of its own accord.
pub open spec fn mobile(c: Citizen) -> bool {
    c.state != State::Quarantined && c.state != State::Deceased && !c.hospitalized
}

/// The citizen just after it fell ill.
pub open spec fn fell_ill(c: Citizen) -> Citizen {
    Citizen { state: State::Infected, infection_day: 0, ..c }
}

/// True iff the citizen can catch the disease.
pub open spec fn catchable(c: Citizen) -> bool {
    c.state == State::Susceptible && !c.vaccinated
}

/// The citizen with only its health changed.
pub open spec fn with_state(c: Citizen, s: State) -> Citizen {
    Citizen { state: s, ..c }
}

impl Citizen {
    pub fn new_citizen(
        id: u64,
        home_location: Area,
        work_location: Area,
        transport_location: Point,
        working: bool,
        uses_public_transport: bool,
    ) -> (r: Citizen)
        ensures
            r.id == id,
            r.state == State::Susceptible,
            r.infection_day == 0,
            !r.vaccinated,
            !r.hospitalized,
            r.working == working,
            r.uses_public_transport == uses_public_transport,
            r.home_location == home_location,
            r.work_location == work_location,
            r.transport_location == transport_location,
            r.transmission_rate == DEFAULT_TRANSMISSION_RATE,
            r.fatality_rate == DEFAULT_FATALITY_RATE,
    {
        Citizen {
            id,
            state: State::Susceptible,
            infection_day: 0,
            vaccinated: false,
            hospitalized: false,
            working,
            uses_public_transport,
            home_location,
            work_location,
            transport_location,
            transmission_rate: DEFAULT_TRANSMISSION_RATE,
            fatality_rate: DEFAULT_FATALITY_RATE,
        }
    }

    /// A resident built from a migrator, housed in `home` and working in `work`.
    pub fn from_migrator(m: &Migrator, home: Area, work: Area, transport_location: Point) -> (r:
        Citizen)
        ensures
            r == migrant(*m, home, work, transport_location),
    {
        Citizen {
            id: m.id,
            state: m.state,
            infection_day: m.infection_day,
            vaccinated: m.vaccinated,
            hospitalized: false,
            working: m.working,
            uses_public_transport: m.uses_public_transport,
            home_location: home,
            work_location: work,
            transport_location,
            transmission_rate: m.transmission_rate,
            fatality_rate: m.fatality_rate,
        }
    }

    /// A visitor built from a commuter; commuters always work.
    pub fn from_commuter(c: &Commuter, transport_location: Point) -> (r: Citizen)
        ensures
            r == visitor(*c, transport_location),
    {
        Citizen {
            id: c.id,
            state: c.state,
            infection_day: c.infection_day,
            vaccinated: c.vaccinated,
            hospitalized: false,
            working: true,
            uses_public_transport: true,
            home_location: c.home_location,
            work_location: c.work_location,
            transport_location,
            transmission_rate: c.transmission_rate,
            fatality_rate: c.fatality_rate,
        }
    }

    pub fn is_susceptible(&self) -> (r: bool)
        ensures
            r == (self.state == State::Susceptible),
    {
        self.state == State::Susceptible
    }

    pub fn is_infected(&self) -> (r: bool)
        ensures
            r == (self.state == State::Infected),
    {
        self.state == State::Infected
    }

    pub fn is_quarantined(&self) -> (r: bool)
        ensures
            r == (self.state == State::Quarantined),
    {
        self.state == State::Quarantined
    }

    pub fn is_deceased(&self) -> (r: bool)
        ensures
            r == (self.state == State::Deceased),
    {
        self.state == State::Deceased
    }

    pub fn is_working(&self) -> (r: bool)
        ensures
            r == self.working,
    {
        self.working
    }

    pub fn is_infectious(&self) -> (r: bool)
        ensures
            r == infectious(*self),
    {
        (self.is_infected() || self.is_quarantined()) && !self.hospitalized
    }

    pub fn can_move(&self) -> (r: bool)
        ensures
            r == mobile(*self),
    {
        !self.is_quarantined() && !self.is_deceased() && !self.hospitalized
    }

    pub fn set_vaccination(&mut self, vaccinated: bool)
        ensures
            *final(self) == (Citizen { vaccinated, ..*old(self) }),
    {
        self.vaccinated = vaccinated;
    }

    /// Infects a susceptible citizen; returns how many citizens fell ill.
    pub fn infect(&mut self) -> (r: u64)
        ensures
            old(self).state == State::Susceptible ==> r == 1 && *final(self) == fell_ill(*old(self)),
            old(self).state != State::Susceptible ==> r == 0 && *final(self) == *old(self),
    {
        if self.is_susceptible() {
            self.state = State::Infected;
            self.infection_day = 0;
            1
        } else {
            0
        }
    }

    /// Isolates an infected citizen; returns how many citizens were isolated.
    pub fn quarantine(&mut self) -> (r: u64)
        ensures
            old(self).state == State::Infected ==> r == 1 && *final(self) == with_state(
                *old(self),
                State::Quarantined,
            ),
            old(self).state != State::Infected ==> r == 0 && *final(self) == *old(self),
    {
        if self.is_infected() {
            self.state = State::Quarantined;
            1
        } else {
            0
        }
    }

    /// Ends the illness of a quarantined citizen whose last day has come: it
    /// dies if `dies`, else it recovers. Returns (deaths, recoveries).
    pub fn decease(&mut self, dies: bool) -> (r: (u64, u64))
        ensures
            old(self).state == State::Quarantined && old(self).infection_day >= LAST_INFECTION_DAY
                ==> if dies {
                r == (1u64, 0u64) && *final(self) == (Citizen {
                    state: State::Deceased,
                    hospitalized: false,
                    ..*old(self)
                })
            } else {
                r == (0u64, 1u64) && *final(self) == (Citizen {
                    state: State::Recovered,
                    hospitalized: false,
                    ..*old(self)
                })
            },
            !(old(self).state == State::Quarantined && old(self).infection_day
                >= LAST_INFECTION_DAY) ==> r == (0u64, 0u64) && *final(self) == *old(self),
    {
        if self.is_quarantined() && self.infection_day >= LAST_INFECTION_DAY {
            self.hospitalized = false;
            if dies {
                self.state = State::Deceased;
                (1, 0)
            } else {
                self.state = State::Recovered;
                (0, 1)
            }
        } else {
            (0, 0)
        }
    }

    /// Counts one more day of illness, stopping at the largest day it can hold.
    pub fn increment_infection_day(&mut self)
        ensures
            *final(self) == (Citizen {
                infection_day: if old(self).infection_day < u32::MAX {
                    (old(self).infection_day + 1) as u32
                } else {
                    old(self).infection_day
                },
                ..*old(self)
            }),
    {
        if self.infection_day < u32::MAX {
            self.infection_day = self.infection_day + 1;
        }
    }
}

} // verus!
