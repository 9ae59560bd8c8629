use vstd::prelude::*;
use crate::chance::draw_below;
use crate::geometry::Area;

verus! {

/// The houses and offices of a simulation, with how many people each holds.
pub struct Grid {
    /// The part of the grid where houses stand.
    pub housing_area: Area,
    pub houses: Vec<Area>,
    pub offices: Vec<Area>,
    pub house_occupants: Vec<u32>,
    pub office_occupants: Vec<u32>,
    /// How many people a house can hold.
    pub house_capacity: u32,
    /// How many people an office can hold.
    pub office_capacity: u32,
}

/// The counters after one more occupant of every area equal to `a`.
pub open spec fn added(areas: Seq<Area>, occ: Seq<u32>, a: Area, i: int) -> u32 {
    if areas[i] == a && occ[i] < u32::MAX {
        (occ[i] + 1) as u32
    } else {
        occ[i]
    }
}

/// The counters after one occupant fewer of every area equal to `a`.
pub open spec fn removed(areas: Seq<Area>, occ: Seq<u32>, a: Area, i: int) -> u32 {
    if areas[i] == a && occ[i] > 0 {
        (occ[i] - 1) as u32
    } else {
        occ[i]
    }
}

/// True iff area `a` is one of `areas` with room left below `cap`.
pub open spec fn has_room(areas: Seq<Area>, occ: Seq<u32>, cap: u32, a: Area) -> bool {
    exists|i: int| 0 <= i < areas.len() && areas[i] == a && #[trigger] occ[i] < cap
}

/// True iff none of `areas` has room left below `cap`.
pub open spec fn all_full(occ: Seq<u32>, cap: u32) -> bool {
    forall|i: int| 0 <= i < occ.len() ==> #[trigger] occ[i] >= cap
}

fn adjust(areas: &Vec<Area>, occ: &mut Vec<u32>, a: &Area, up: bool)
    requires
        areas@.len() == old(occ)@.len(),
    ensures
        final(occ)@.len() == old(occ)@.len(),
        forall|i: int|
            0 <= i < old(occ)@.len() ==> #[trigger] final(occ)@[i] == if up {
                added(areas@, old(occ)@, *a, i)
            } else {
                removed(areas@, old(occ)@, *a, i)
            },
{
    let ghost start = occ@;
    let mut i: usize = 0;
    while i < areas.len()
        invariant
            areas@.len() == start.len(),
            occ@.len() == start.len(),
            0 <= i <= start.len(),
            forall|j: int| i <= j < start.len() ==> #[trigger] occ@[j] == start[j],
            forall|j: int|
                0 <= j < i ==> #[trigger] occ@[j] == if up {
                    added(areas@, start, *a, j)
                } else {
                    removed(areas@, start, *a, j)
                },
        decreases start.len() - i,
    {
        if areas[i] == *a {
            let v = occ[i];
            if up && v < u32::MAX {
                occ.set(i, v + 1);
            } else if !up && v > 0 {
                occ.set(i, v - 1);
            }
        }
        i = i + 1;
    }
}

fn choose_free(rng: &mut rand::rngs::ThreadRng, areas: &Vec<Area>, occ: &Vec<u32>, cap: u32) -> (r:
    Option<Area>)
    requires
        areas@.len() == occ@.len(),
    ensures
        r is None <==> all_full(occ@, cap),
        r matches Some(a) ==> has_room(areas@, occ@, cap, a),
{
    let mut free: Vec<Area> = Vec::new();
    let mut i: usize = 0;
    while i < areas.len()
        invariant
            areas@.len() == occ@.len(),
            0 <= i <= areas@.len(),
            forall|j: int| 0 <= j < free@.len() ==> has_room(areas@, occ@, cap, #[trigger] free@[j]),
            free@.len() == 0 <==> (forall|j: int| 0 <= j < i ==> #[trigger] occ@[j] >= cap),
        decreases areas@.len() - i,
    {
        if occ[i] < cap {
            free.push(areas[i]);
            assert(has_room(areas@, occ@, cap, free@[free@.len() - 1]));
        }
        i = i + 1;
    }
    if free.len() == 0 {
        None
    } else {
        let j = draw_below(rng, free.len());
        assert(has_room(areas@, occ@, cap, free@[j as int]));
        Some(free[j])
    }
}

impl Grid {
    pub open spec fn wf(&self) -> bool {
        &&& self.house_occupants@.len() == self.houses@.len()
        &&& self.office_occupants@.len() == self.offices@.len()
    }

    /// A grid whose houses and offices are all empty.
    pub fn new(
        housing_area: Area,
        houses: Vec<Area>,
        offices: Vec<Area>,
        house_capacity: u32,
        office_capacity: u32,
    ) -> (r: Grid)
        ensures
            r.wf(),
            r.housing_area == housing_area,
            r.houses@ == houses@,
            r.offices@ == offices@,
            forall|i: int| 0 <= i < r.houses@.len() ==> #[trigger] r.house_occupants@[i] == 0,
            forall|i: int| 0 <= i < r.offices@.len() ==> #[trigger] r.office_occupants@[i] == 0,
            r.house_capacity == house_capacity,
            r.office_capacity == office_capacity,
    {
        let mut house_occupants: Vec<u32> = Vec::new();
        while house_occupants.len() < houses.len()
            invariant
                house_occupants@.len() <= houses@.len(),
                forall|i: int| 0 <= i < house_occupants@.len() ==> #[trigger] house_occupants@[i] == 0,
            decreases houses@.len() - house_occupants@.len(),
        {
            house_occupants.push(0);
        }
        let mut office_occupants: Vec<u32> = Vec::new();
        while office_occupants.len() < offices.len()
            invariant
                office_occupants@.len() <= offices@.len(),
                forall|i: int|
                    0 <= i < office_occupants@.len() ==> #[trigger] office_occupants@[i] == 0,
            decreases offices@.len() - office_occupants@.len(),
        {
            office_occupants.push(0);
        }
        Grid {
            housing_area,
            houses,
            offices,
            house_occupants,
            office_occupants,
            house_capacity,
            office_capacity,
        }
    }

    /// A house with room left, drawn at random; `None` when all are full.
    pub fn choose_house_with_free_space(&self, rng: &mut rand::rngs::ThreadRng) -> (r: Option<Area>)
        requires
            self.wf(),
        ensures
            r is None <==> all_full(self.house_occupants@, self.house_capacity),
            r matches Some(a) ==> has_room(
                self.houses@,
                self.house_occupants@,
                self.house_capacity,
                a,
            ),
    {
        choose_free(rng, &self.houses, &self.house_occupants, self.house_capacity)
    }

    /// An office with room left, drawn at random; `None` when all are full.
    pub fn choose_office_with_free_space(&self, rng: &mut rand::rngs::ThreadRng) -> (r: Option<
        Area,
    >)
        requires
            self.wf(),
        ensures
            r is None <==> all_full(self.office_occupants@, self.office_capacity),
            r matches Some(a) ==> has_room(
                self.offices@,
                self.office_occupants@,
                self.office_capacity,
                a,
            ),
    {
        choose_free(rng, &self.offices, &self.office_occupants, self.office_capacity)
    }

    pub fn add_house_occupant(&mut self, house: &Area)
        requires
            old(self).wf(),
        ensures
            final(self).wf(),
            final(self).houses == old(self).houses,
            final(self).offices == old(self).offices,
            final(self).office_occupants == old(self).office_occupants,
            final(self).housing_area == old(self).housing_area,
            final(self).house_capacity == old(self).house_capacity,
            final(self).office_capacity == old(self).office_capacity,
            forall|i: int|
                0 <= i < old(self).houses@.len() ==> #[trigger] final(self).house_occupants@[i]
                    == added(old(self).houses@, old(self).house_occupants@, *house, i),
    {
        adjust(&self.houses, &mut self.house_occupants, house, true);
    }

    pub fn remove_house_occupant(&mut self, house: &Area)
        requires
            old(self).wf(),
        ensures
            final(self).wf(),
            final(self).houses == old(self).houses,
            final(self).offices == old(self).offices,
            final(self).office_occupants == old(self).office_occupants,
            final(self).housing_area == old(self).housing_area,
            final(self).house_capacity == old(self).house_capacity,
            final(self).office_capacity == old(self).office_capacity,
            forall|i: int|
                0 <= i < old(self).houses@.len() ==> #[trigger] final(self).house_occupants@[i]
                    == removed(old(self).houses@, old(self).house_occupants@, *house, i),
    {
        adjust(&self.houses, &mut self.house_occupants, house, false);
    }

    pub fn add_office_occupant(&mut self, office: &Area)
        requires
            old(self).wf(),
        ensures
            final(self).wf(),
            final(self).houses == old(self).houses,
            final(self).offices == old(self).offices,
            final(self).house_occupants == old(self).house_occupants,
            final(self).housing_area == old(self).housing_area,
            final(self).house_capacity == old(self).house_capacity,
            final(self).office_capacity == old(self).office_capacity,
            forall|i: int|
                0 <= i < old(self).offices@.len() ==> #[trigger] final(self).office_occupants@[i]
                    == added(old(self).offices@, old(self).office_occupants@, *office, i),
    {
        adjust(&self.offices, &mut self.office_occupants, office, true);
    }

    pub fn remove_office_occupant(&mut self, office: &Area)
        requires
            old(self).wf(),
        ensures
            final(self).wf(),
            final(self).houses == old(self).houses,
            final(self).offices == old(self).offices,
            final(self).house_occupants == old(self).house_occupants,
            final(self).housing_area == old(self).housing_area,
            final(self).house_capacity == old(self).house_capacity,
            final(self).office_capacity == old(self).office_capacity,
            forall|i: int|
                0 <= i < old(self).offices@.len() ==> #[trigger] final(self).office_occupants@[i]
                    == removed(old(self).offices@, old(self).office_occupants@, *office, i),
    {
        adjust(&self.offices, &mut self.office_occupants, office, false);
    }
}

} // verus!
