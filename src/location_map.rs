use vstd::prelude::*;
use crate::cells::{
    CellTable, cells_of, table_clear, table_contains, table_get, table_insert, table_keys,
    table_len, table_new, table_remove, table_with_capacity,
};
use crate::chance::{fresh_rng, get_random_element_from};
use crate::chance::draw_ratio;
use crate::citizen::{Citizen, LAST_INFECTION_DAY, RATE_SCALE, State, catchable, fell_ill, infectious, mobile};
use crate::counts::{
    Counts, count_in, is_in, lemma_count_insert, lemma_count_le_len, lemma_count_remove,
    lemma_count_replace, lemma_total_is_population, total_of,
};
use crate::citizen::{Commuter, Migrator, migrant, visitor};
use crate::geometry::{Area, Point, in_grid, is_neighbor};
use crate::grid::{Grid, all_full};

verus! {

broadcast use vstd::set::group_set_axioms;

/// True iff some cell around `cell` holds a citizen that passes the disease
/// on, with a transmission rate of at least `rate`.
pub open spec fn exposed_to(m: AgentLocationMap, cell: Point, rate: int) -> bool {
    exists|q: Point|
        #[trigger] is_neighbor(cell, q, m.side()) && m.occupied(q) && infectious(m.occupant(q))
            && m.occupant(q).transmission_rate >= rate
}

/// The cell stored under key `k`.
pub open spec fn at(k: (i32, i32)) -> Point {
    Point { x: k.0, y: k.1 }
}

/// True iff citizen `c` may go from `from` to `to` in one pass: it stays,
/// steps to a neighbouring cell, or, when the pass sends workers to `dest`,
/// it works and goes into `dest` or to the first cell of its home area.
pub open spec fn step_ok(c: Citizen, from: Point, to: Point, side: int, dest: Option<Area>) -> bool {
    to == from || is_neighbor(from, to, side) || (dest matches Some(area) && c.working && (
    area.contains_spec(to) || to == c.home_location.start))
}

/// The change a movement pass may make to one citizen: none, and a step
/// allowed by `step_ok`.
pub open spec fn walk(side: int, dest: Option<Area>) -> spec_fn(Citizen, Citizen, Point, Point) -> bool {
    |c: Citizen, d: Citizen, from: Point, to: Point| d == c && step_ok(c, from, to, side, dest)
}

/// The change a quarantine pass may make to one citizen: an infected one is
/// quarantined and ends in hospital (marked so) or, unmarked, in place or in
/// its home area; any other stays as it is.
pub open spec fn isolation(area: Area) -> spec_fn(Citizen, Citizen, Point, Point) -> bool {
    |c: Citizen, d: Citizen, from: Point, to: Point|
        if c.state == State::Infected {
            &&& d == (Citizen { state: State::Quarantined, hospitalized: d.hospitalized, ..c })
            &&& d.hospitalized ==> area.contains_spec(to)
            &&& !d.hospitalized ==> to == from || c.home_location.contains_spec(to)
        } else {
            d == c && to == from
        }
}

/// The change the end of illness may make to one citizen: one whose illness
/// is due dies or recovers, out of hospital, in place or at the first cell
/// of its home area; any other stays as it is.
pub open spec fn outcome(c: Citizen, d: Citizen, from: Point, to: Point) -> bool {
    if due(c) {
        &&& d == (Citizen { state: State::Deceased, hospitalized: false, ..c }) || d == (Citizen {
            state: State::Recovered,
            hospitalized: false,
            ..c
        })
        &&& to == from || to == c.home_location.start
    } else {
        d == c && to == from
    }
}

/// True iff the occupant of `k` in `b` came, by a change `rel` allows, from
/// some occupant of `a`.
pub open spec fn came_within(
    a: Map<(i32, i32), Citizen>,
    b: Map<(i32, i32), Citizen>,
    k: (i32, i32),
    rel: spec_fn(Citizen, Citizen, Point, Point) -> bool,
) -> bool {
    exists|k0: (i32, i32)| #[trigger] a.contains_key(k0) && rel(a[k0], b[k], at(k0), at(k))
}

/// True iff the occupant of `k0` in `a` is found in `b`, changed as `rel`
/// allows, in a cell outside `busy`.
pub open spec fn placed(
    a: Map<(i32, i32), Citizen>,
    b: Map<(i32, i32), Citizen>,
    k0: (i32, i32),
    rel: spec_fn(Citizen, Citizen, Point, Point) -> bool,
    busy: Seq<(i32, i32)>,
) -> bool {
    exists|k: (i32, i32)| #[trigger] b.contains_key(k) && rel(a[k0], b[k], at(k0), at(k)) && !busy.contains(k)
}

/// True iff `k` is a cell of `a` that a pass visiting `keys` has not yet
/// reached after `i` visits.
pub open spec fn pending(a: Map<(i32, i32), Citizen>, keys: Seq<(i32, i32)>, i: int, k: (i32, i32)) -> bool {
    a.contains_key(k) && !keys.take(i).contains(k)
}

/// What holds after the first `i` cells of `keys` were visited by a pass
/// that started from `a` and has reached `b`.
#[verifier::opaque]
pub open spec fn pass_inv(
    a: Map<(i32, i32), Citizen>,
    b: Map<(i32, i32), Citizen>,
    keys: Seq<(i32, i32)>,
    i: int,
    rel: spec_fn(Citizen, Citizen, Point, Point) -> bool,
) -> bool {
    &&& forall|k: (i32, i32)| #[trigger] pending(a, keys, i, k) ==> b.contains_key(k) && b[k] == a[k]
    &&& forall|k: (i32, i32)|
        #[trigger] b.contains_key(k) && !pending(a, keys, i, k) ==> came_within(a, b, k, rel)
    &&& forall|k0: (i32, i32)|
        #[trigger] a.contains_key(k0) && keys.take(i).contains(k0) ==> placed(
            a,
            b,
            k0,
            rel,
            keys.subrange(i, keys.len() as int),
        )
}

/// The cell a visited citizen was put in, if it was changed.
spec fn at_key(moved: Option<((i32, i32), Citizen)>) -> (i32, i32) {
    match moved {
        Some((q, _)) => q,
        None => (0, 0),
    }
}

/// One visited cell keeps the pass invariant: its occupant either stays as
/// it is, or is changed as `rel` allows and put back in its cell or in a
/// free one.
proof fn lemma_pass_step(
    a: Map<(i32, i32), Citizen>,
    keys: Seq<(i32, i32)>,
    i: int,
    before: Map<(i32, i32), Citizen>,
    after: Map<(i32, i32), Citizen>,
    moved: Option<((i32, i32), Citizen)>,
    rel: spec_fn(Citizen, Citizen, Point, Point) -> bool,
)
    requires
        keys.no_duplicates(),
        forall|k: (i32, i32)| keys.contains(k) <==> a.contains_key(k),
        0 <= i < keys.len(),
        pass_inv(a, before, keys, i, rel),
        moved is None ==> after == before && rel(
            before[keys[i]],
            before[keys[i]],
            at(keys[i]),
            at(keys[i]),
        ),
        moved matches Some((q, v)) ==> (q == keys[i] || !before.contains_key(q)) && after
            == before.remove(keys[i]).insert(q, v) && rel(before[keys[i]], v, at(keys[i]), at(q)),
    ensures
        pass_inv(a, after, keys, i + 1, rel),
        before.contains_key(keys[i]) && before[keys[i]] == a[keys[i]],
{
    reveal(pass_inv);
    let c = keys[i];
    assert(keys.contains(c));
    assert(!keys.take(i).contains(c)) by {
        if keys.take(i).contains(c) {
            let j = choose|j: int| 0 <= j < i && keys.take(i)[j] == c;
            assert(keys[j] == keys[i]);
        }
    }
    assert(pending(a, keys, i, c));
    assert(keys.take(i + 1) =~= keys.take(i).push(c));
    assert(keys.take(i + 1)[i] == c);
    assert(before.contains_key(c) && before[c] == a[c]);
    let rest = keys.subrange(i, keys.len() as int);
    let rest2 = keys.subrange(i + 1, keys.len() as int);
    assert(rest[0] == c);
    assert(!rest2.contains(c)) by {
        if rest2.contains(c) {
            let j = choose|j: int| 0 <= j < rest2.len() && rest2[j] == c;
            assert(keys[i + 1 + j] == keys[i]);
        }
    }
    assert forall|k: (i32, i32)| rest2.contains(k) implies rest.contains(k) by {
        let j = choose|j: int| 0 <= j < rest2.len() && rest2[j] == k;
        assert(rest[j + 1] == k);
    }
    assert forall|k: (i32, i32)| #[trigger] pending(a, keys, i + 1, k) implies after.contains_key(k)
        && after[k] == a[k] by {
        assert(k != c);
        assert(!keys.take(i).contains(k));
        assert(pending(a, keys, i, k));
        if let Some((q, v)) = moved {
            assert(k != q);
        }
    }
    assert forall|k: (i32, i32)| #[trigger] after.contains_key(k) && !pending(a, keys, i + 1, k)
        implies came_within(a, after, k, rel) by {
        if k == c && moved is None {
            assert(a.contains_key(c));
        } else if moved is Some && k == at_key(moved) {
            assert(a.contains_key(c));
        } else {
            assert(before.contains_key(k));
            assert(after[k] == before[k]);
            if pending(a, keys, i, k) {
                assert(k != c);
                assert(keys.take(i + 1).contains(k) == keys.take(i).contains(k));
            }
            assert(came_within(a, before, k, rel));
            let k0 = choose|k0: (i32, i32)| #[trigger] a.contains_key(k0) && rel(a[k0], before[k], at(k0), at(k));
            assert(a.contains_key(k0));
        }
    }
    assert forall|k0: (i32, i32)| #[trigger] a.contains_key(k0) && keys.take(i + 1).contains(k0)
        implies placed(a, after, k0, rel, rest2) by {
        if k0 == c {
            match moved {
                Some((q, v)) => {
                    assert(!rest2.contains(q)) by {
                        if rest2.contains(q) && q != c {
                            assert(rest.contains(q));
                            let j = choose|j: int| 0 <= j < rest.len() && rest[j] == q;
                            assert(keys[i + j] == q);
                            assert(keys.contains(q));
                            if keys.take(i).contains(q) {
                                let jj = choose|jj: int| 0 <= jj < i && keys.take(i)[jj] == q;
                                assert(keys[jj] == keys[i + j]);
                            }
                            assert(pending(a, keys, i, q));
                        }
                    }
                    assert(after.contains_key(q) && after[q] == v);
                },
                None => {
                    assert(after.contains_key(c) && after[c] == a[c]);
                },
            }
        } else {
            assert(keys.take(i).contains(k0)) by {
                let j = choose|j: int| 0 <= j < keys.take(i + 1).len() && #[trigger] keys.take(i + 1)[j] == k0;
                assert(j < i);
                assert(keys.take(i)[j] == k0);
            }
            assert(placed(a, before, k0, rel, rest));
            let k = choose|k: (i32, i32)| #[trigger] before.contains_key(k) && rel(a[k0], before[k], at(k0), at(k))
                && !rest.contains(k);
            assert(k != c);
            if let Some((q, v)) = moved {
                if q != c {
                    assert(k != q);
                }
            }
            assert(after.contains_key(k) && after[k] == before[k]);
            assert(!rest2.contains(k));
        }
    }
}

/// The next cell to visit still holds its occupant from the start.
proof fn lemma_pass_next(
    a: Map<(i32, i32), Citizen>,
    b: Map<(i32, i32), Citizen>,
    keys: Seq<(i32, i32)>,
    i: int,
    rel: spec_fn(Citizen, Citizen, Point, Point) -> bool,
)
    requires
        keys.no_duplicates(),
        forall|k: (i32, i32)| keys.contains(k) <==> a.contains_key(k),
        0 <= i < keys.len(),
        pass_inv(a, b, keys, i, rel),
    ensures
        b.contains_key(keys[i]) && b[keys[i]] == a[keys[i]],
{
    reveal(pass_inv);
    assert(keys.contains(keys[i]));
    assert(!keys.take(i).contains(keys[i])) by {
        if keys.take(i).contains(keys[i]) {
            let j = choose|j: int| 0 <= j < i && keys.take(i)[j] == keys[i];
            assert(keys[j] == keys[i]);
        }
    }
    assert(pending(a, keys, i, keys[i]));
}

/// At the start of a pass the invariant holds.
proof fn lemma_pass_start(
    a: Map<(i32, i32), Citizen>,
    keys: Seq<(i32, i32)>,
    rel: spec_fn(Citizen, Citizen, Point, Point) -> bool,
)
    ensures
        pass_inv(a, a, keys, 0, rel),
{
    reveal(pass_inv);
    assert(keys.take(0) =~= Seq::<(i32, i32)>::empty());
}

/// At the end of a pass every citizen from before is found, changed as `rel`
/// allows, and every citizen after came so from one before.
proof fn lemma_pass_end(
    a: Map<(i32, i32), Citizen>,
    b: Map<(i32, i32), Citizen>,
    keys: Seq<(i32, i32)>,
    rel: spec_fn(Citizen, Citizen, Point, Point) -> bool,
)
    requires
        forall|k: (i32, i32)| keys.contains(k) <==> a.contains_key(k),
        pass_inv(a, b, keys, keys.len() as int, rel),
    ensures
        forall|k0: (i32, i32)| #[trigger] a.contains_key(k0) ==> placed(a, b, k0, rel, seq![]),
        forall|k: (i32, i32)| #[trigger] b.contains_key(k) ==> came_within(a, b, k, rel),
{
    reveal(pass_inv);
    assert(keys.take(keys.len() as int) =~= keys);
    assert(keys.subrange(keys.len() as int, keys.len() as int) =~= Seq::<(i32, i32)>::empty());
    assert forall|k0: (i32, i32)| #[trigger] a.contains_key(k0) implies placed(a, b, k0, rel, seq![]) by {
        assert(keys.contains(k0));
        assert(placed(a, b, k0, rel, keys.subrange(keys.len() as int, keys.len() as int)));
    }
    assert forall|k: (i32, i32)| #[trigger] b.contains_key(k) implies came_within(a, b, k, rel) by {
        if pending(a, keys, keys.len() as int, k) {
            assert(keys.contains(k));
        }
    }
}

/// True iff some cell around `cell` is free.
pub open spec fn free_neighbour(m: AgentLocationMap, cell: Point) -> bool {
    exists|q: Point| #[trigger] is_neighbor(cell, q, m.side()) && !m.occupied(q)
}

/// True iff the occupant of `cell` may move and has a free cell next to it.
pub open spec fn must_step(m: AgentLocationMap, cell: Point) -> bool {
    m.occupied(cell) && mobile(m.occupant(cell)) && free_neighbour(m, cell)
}

/// True iff the occupant of `cell` may move and has somewhere to go when
/// workers are sent to `area`: a free cell of `area` or its free home cell
/// for a worker, a free neighbouring cell for anyone else.
pub open spec fn must_go(m: AgentLocationMap, cell: Point, area: Area) -> bool {
    m.occupied(cell) && mobile(m.occupant(cell)) && if m.occupant(cell).working {
        m.has_vacancy(area) || !m.occupied(m.occupant(cell).home_location.start)
    } else {
        free_neighbour(m, cell)
    }
}

/// True iff, in `m`, some cell around `cell` holds a citizen that passes the
/// disease on with a transmission rate of at least `rate`.
pub open spec fn exposed_in(m: Map<(i32, i32), Citizen>, cell: Point, side: int, rate: int) -> bool {
    exists|q: Point|
        #[trigger] is_neighbor(cell, q, side) && m.contains_key(key(q)) && infectious(m[key(q)])
            && m[key(q)].transmission_rate >= rate
}

/// Each occupant of `a` is in `b` too, unchanged or, if it could catch the
/// disease, fallen ill.
pub open spec fn infected_from(a: Map<(i32, i32), Citizen>, b: Map<(i32, i32), Citizen>) -> bool {
    &&& b.dom() == a.dom()
    &&& forall|k: (i32, i32)|
        #[trigger] a.contains_key(k) ==> b[k] == a[k] || (catchable(a[k]) && b[k] == fell_ill(a[k]))
}

/// True iff the citizen's illness ends today, in death or recovery.
pub open spec fn due(c: Citizen) -> bool {
    c.state == State::Quarantined && c.infection_day >= LAST_INFECTION_DAY
}

/// The citizen after one more day of illness, if it is ill.
pub open spec fn aged(c: Citizen) -> Citizen {
    if (c.state == State::Infected || c.state == State::Quarantined) && c.infection_day < u32::MAX {
        Citizen { infection_day: (c.infection_day + 1) as u32, ..c }
    } else {
        c
    }
}

/// `b` is `a` with the occupant of `from`, which may move, taken to the free
/// cell `to`.
pub open spec fn moved_to(
    a: Map<(i32, i32), Citizen>,
    b: Map<(i32, i32), Citizen>,
    from: (i32, i32),
    to: (i32, i32),
) -> bool {
    &&& a.contains_key(from)
    &&& mobile(a[from])
    &&& !a.contains_key(to)
    &&& b == a.remove(from).insert(to, a[from])
}

/// Moving a citizen that may move to a free cell keeps the population, the
/// per-state totals, and every citizen that may not move where it was.
proof fn lemma_relocation(
    start: Map<(i32, i32), Citizen>,
    a: Map<(i32, i32), Citizen>,
    b: Map<(i32, i32), Citizen>,
    from: (i32, i32),
    to: (i32, i32),
)
    requires
        a.dom().finite(),
        moved_to(a, b, from, to),
        keeps_immobile(start, a),
    ensures
        b.len() == a.len(),
        forall|s: State| #[trigger] count_in(b, s) == count_in(a, s),
        keeps_immobile(start, b),
{
    assert forall|s: State| #[trigger] count_in(b, s) == count_in(a, s) by {
        lemma_count_remove(a, from, s);
        lemma_count_insert(a.remove(from), to, a[from], s);
    }
    assert forall|k: (i32, i32)| #[trigger]
        start.contains_key(k) && !mobile(start[k]) implies b.contains_key(k) && b[k] == start[k] by {
        assert(a.contains_key(k) && a[k] == start[k]);
        assert(k != from);
        assert(k != to);
    }
}

/// True iff every departure names an occupied cell whose occupant is alive,
/// the migrator is alive, and no cell is named twice.
pub open spec fn departures_valid(m: Map<(i32, i32), Citizen>, out: Seq<(Point, Migrator)>) -> bool {
    &&& forall|i: int|
        0 <= i < out.len() ==> {
            let k = key(#[trigger] out[i].0);
            &&& m.contains_key(k)
            &&& m[k].state != State::Deceased
            &&& out[i].1.state != State::Deceased
        }
    &&& forall|i: int, j: int|
        0 <= i < j < out.len() ==> key(#[trigger] out[i].0) != key(#[trigger] out[j].0)
}

/// The cells named by the first `n` departures.
pub open spec fn departure_cells(out: Seq<(Point, Migrator)>, n: int) -> Set<(i32, i32)> {
    Set::new(|k: (i32, i32)| exists|j: int| 0 <= j < n && key(#[trigger] out[j].0) == k)
}

/// How many of the first `n` departures leave a home in area `a`.
pub open spec fn leaving_home(
    m: Map<(i32, i32), Citizen>,
    out: Seq<(Point, Migrator)>,
    n: int,
    a: Area,
) -> nat
    decreases n,
{
    if n <= 0 {
        0
    } else {
        leaving_home(m, out, n - 1, a) + if m[key(out[n - 1].0)].home_location == a {
            1nat
        } else {
            0nat
        }
    }
}

/// How many of the first `n` departures leave a job in area `a`.
pub open spec fn leaving_work(
    m: Map<(i32, i32), Citizen>,
    out: Seq<(Point, Migrator)>,
    n: int,
    a: Area,
) -> nat
    decreases n,
{
    if n <= 0 {
        0
    } else {
        leaving_work(m, out, n - 1, a) + if m[key(out[n - 1].0)].working && m[key(
            out[n - 1].0,
        )].work_location == a {
            1nat
        } else {
            0nat
        }
    }
}

/// `x` less `y`, stopping at zero.
pub open spec fn less_or_zero(x: int, y: int) -> int {
    if x - y < 0 {
        0
    } else {
        x - y
    }
}

/// True iff migrator `m` stands in `b`, in a cell of `housing` that was free
/// in `a`, as a resident housed and employed somewhere (at home when it does
/// not work), whose transport cell is that cell.
pub open spec fn settled(
    a: Map<(i32, i32), Citizen>,
    b: Map<(i32, i32), Citizen>,
    m: Migrator,
    housing: Area,
) -> bool {
    exists|k: (i32, i32), home: Area, work: Area|
        b.contains_key(k) && !a.contains_key(k) && housing.contains_spec(at(k)) && b[k] == #[trigger] migrant(
            m,
            home,
            work,
            at(k),
        ) && (!m.working ==> work == home)
}

/// True iff commuter `c` stands in `b`, in a cell of `housing` that was free
/// in `a`, with that cell as its transport cell.
pub open spec fn visiting(
    a: Map<(i32, i32), Citizen>,
    b: Map<(i32, i32), Citizen>,
    c: Commuter,
    housing: Area,
) -> bool {
    exists|k: (i32, i32)|
        b.contains_key(k) && !a.contains_key(k) && housing.contains_spec(at(k)) && b[k] == #[trigger] visitor(
            c,
            at(k),
        )
}

/// The number of arrivals in state `s`.
pub open spec fn arrivals_in(arrivals: Seq<State>, s: State) -> nat {
    arrivals.filter(|t: State| t == s).len()
}

/// True iff every entry of `a` is in `b`, unchanged.
pub open spec fn keeps_all(a: Map<(i32, i32), Citizen>, b: Map<(i32, i32), Citizen>) -> bool {
    forall|k: (i32, i32)| #[trigger] a.contains_key(k) ==> b.contains_key(k) && b[k] == a[k]
}

/// Every citizen that may not move is still in its cell.
pub open spec fn keeps_immobile(a: Map<(i32, i32), Citizen>, b: Map<(i32, i32), Citizen>) -> bool {
    forall|k: (i32, i32)|
        #[trigger] a.contains_key(k) && !mobile(a[k]) ==> b.contains_key(k) && b[k] == a[k]
}

/// The key under which the occupant of `p` is kept.
pub open spec fn key(p: Point) -> (i32, i32) {
    (p.x, p.y)
}

/// Why an operation on the map was refused.
#[derive(Clone, Copy, Debug, PartialEq, Eq, Structural)]
pub enum MapError {
    /// A cell that should hold a citizen is empty.
    NoCitizenAt { x: i32, y: i32 },
    /// A dead citizen was asked to leave or to arrive.
    DeceasedTraveller { id: u64 },
    /// Two departures name the same cell.
    RepeatedCell { x: i32, y: i32 },
    /// No house, office or free cell was left for an arrival.
    NoRoom,
}

/// The grid's occupancy index: at most one citizen per cell, and per state
/// the number of citizens in that state.
pub struct AgentLocationMap {
    grid_size: i32,
    agent_cell: CellTable,
    counts: Counts,
}

impl AgentLocationMap {
    /// Each occupied cell's key with its occupant.
    pub closed spec fn cells(&self) -> Map<(i32, i32), Citizen> {
        cells_of(self.agent_cell)
    }

    /// The side of the square grid.
    pub closed spec fn side(&self) -> int {
        self.grid_size as int
    }

    /// The per-state totals the map keeps.
    pub closed spec fn tally(&self) -> Counts {
        self.counts
    }

    /// True iff the totals match the occupants.
    pub open spec fn wf(&self) -> bool {
        &&& self.cells().dom().finite()
        &&& self.cells().len() <= usize::MAX
        &&& self.tally().tallies(self.cells())
    }

    /// Puts `c` into the free cell `k`.
    fn put_new(&mut self, k: (i32, i32), c: Citizen)
        requires
            old(self).wf(),
            !old(self).cells().contains_key(k),
            old(self).cells().len() < usize::MAX,
        ensures
            final(self).wf(),
            final(self).cells() == old(self).cells().insert(k, c),
            final(self).side() == old(self).side(),
    {
        proof {
            lemma_count_le_len(self.cells(), c.state);
            assert forall|s: State| #[trigger]
                count_in(self.cells().insert(k, c), s) == count_in(self.cells(), s) + is_in(
                    c,
                    s,
                ) by {
                lemma_count_insert(self.cells(), k, c, s);
            }
        }
        table_insert(&mut self.agent_cell, k, c);
        self.counts.add(c.state, 1);
    }

    /// Takes the occupant out of cell `k`.
    fn take_out(&mut self, k: (i32, i32)) -> (r: Citizen)
        requires
            old(self).wf(),
            old(self).cells().contains_key(k),
        ensures
            final(self).wf(),
            final(self).cells() == old(self).cells().remove(k),
            r == old(self).cells()[k],
            final(self).side() == old(self).side(),
    {
        proof {
            assert forall|s: State| #[trigger]
                count_in(self.cells().remove(k), s) == count_in(self.cells(), s) - is_in(
                    self.cells()[k],
                    s,
                ) by {
                lemma_count_remove(self.cells(), k, s);
            }
            let s0 = self.cells()[k].state;
            assert(count_in(self.cells().remove(k), s0) == count_in(self.cells(), s0) - 1);
        }
        let c = table_remove(&mut self.agent_cell, k).unwrap();
        self.counts.remove(c.state, 1);
        c
    }

    /// Replaces the occupant of cell `k` by `c`.
    fn replace(&mut self, k: (i32, i32), c: Citizen)
        requires
            old(self).wf(),
            old(self).cells().contains_key(k),
        ensures
            final(self).wf(),
            final(self).cells() == old(self).cells().insert(k, c),
            final(self).side() == old(self).side(),
    {
        let _ = self.take_out(k);
        proof {
            assert(self.cells().len() < old(self).cells().len());
        }
        self.put_new(k, c);
        proof {
            assert(self.cells() =~= old(self).cells().insert(k, c));
        }
    }
}

impl AgentLocationMap {
    /// True iff the map's cell `p` holds a citizen.
    pub open spec fn occupied(&self, p: Point) -> bool {
        self.cells().contains_key(key(p))
    }

    /// The occupant of cell `p`, which must be occupied.
    pub open spec fn occupant(&self, p: Point) -> Citizen {
        self.cells()[key(p)]
    }

    /// A map of side `grid_size` with `agent_list[i]` at `points[i]`.
    pub fn new(grid_size: i32, agent_list: &[Citizen], points: &[Point]) -> (r: AgentLocationMap)
        requires
            agent_list@.len() <= points@.len(),
            forall|i: int, j: int|
                0 <= i < j < agent_list@.len() ==> key(#[trigger] points@[i]) != key(
                    #[trigger] points@[j],
                ),
        ensures
            r.wf(),
            r.side() == grid_size,
            forall|i: int|
                0 <= i < agent_list@.len() ==> r.occupied(#[trigger] points@[i]) && r.occupant(
                    points@[i],
                ) == agent_list@[i],
            forall|k: (i32, i32)|
                r.cells().contains_key(k) ==> exists|i: int|
                    0 <= i < agent_list@.len() && key(#[trigger] points@[i]) == k,
    {
        let mut map = AgentLocationMap {
            grid_size,
            agent_cell: table_new(),
            counts: Counts::new(),
        };
        proof {
            assert(map.cells().dom() =~= Set::empty());
            assert forall|s: State| #[trigger] map.tally().bucket(s) == count_in(map.cells(), s) by {
                assert(map.cells().dom().filter(|k: (i32, i32)| map.cells()[k].state == s)
                    =~= Set::empty());
            }
        }
        let mut i: usize = 0;
        while i < agent_list.len()
            invariant
                map.wf(),
                map.side() == grid_size,
                agent_list@.len() <= points@.len(),
                0 <= i <= agent_list@.len(),
                forall|a: int, b: int|
                    0 <= a < b < agent_list@.len() ==> key(#[trigger] points@[a]) != key(
                        #[trigger] points@[b],
                    ),
                map.cells().len() == i,
                forall|j: int|
                    0 <= j < i ==> map.occupied(#[trigger] points@[j]) && map.occupant(points@[j])
                        == agent_list@[j],
                forall|k: (i32, i32)|
                    map.cells().contains_key(k) ==> exists|j: int|
                        0 <= j < i && key(#[trigger] points@[j]) == k,
            decreases agent_list@.len() - i,
        {
            let p = points[i];
            proof {
                assert forall|j: int| 0 <= j < i implies key(points@[j]) != key(p) by {
                    assert(key(points@[j]) != key(points@[i as int]));
                }
                if map.cells().contains_key(key(p)) {
                    let j = choose|j: int| 0 <= j < i && key(#[trigger] points@[j]) == key(p);
                    assert(false);
                }
            }
            let ghost before = map.cells();
            map.put_new((p.x, p.y), agent_list[i]);
            proof {
                assert forall|k: (i32, i32)| map.cells().contains_key(k) implies exists|j: int|
                    0 <= j < i + 1 && key(#[trigger] points@[j]) == k by {
                    if k == key(p) {
                        assert(key(points@[i as int]) == k);
                    } else {
                        assert(before.contains_key(k));
                    }
                }
            }
            i = i + 1;
        }
        map
    }

    pub fn grid_size(&self) -> (r: i32)
        ensures
            r == self.side(),
    {
        self.grid_size
    }

    /// True iff `point` lies inside the grid.
    pub fn is_point_in_grid(&self, point: &Point) -> (r: bool)
        ensures
            r == in_grid(*point, self.side()),
    {
        point.x >= 0 && point.y >= 0 && point.x < self.grid_size && point.y < self.grid_size
    }

    /// True iff no citizen occupies `cell`.
    pub fn is_cell_vacant(&self, cell: &Point) -> (r: bool)
        ensures
            r == !self.occupied(*cell),
    {
        !table_contains(&self.agent_cell, (cell.x, cell.y))
    }

    /// The occupant of `point`, if any.
    pub fn get(&self, point: &Point) -> (r: Option<Citizen>)
        ensures
            self.occupied(*point) ==> r == Some(self.occupant(*point)),
            !self.occupied(*point) ==> r is None,
    {
        table_get(&self.agent_cell, (point.x, point.y))
    }

    /// The occupant of `cell`, if any.
    pub fn get_agent_for(&self, cell: &Point) -> (r: Option<Citizen>)
        ensures
            self.occupied(*cell) ==> r == Some(self.occupant(*cell)),
            !self.occupied(*cell) ==> r is None,
    {
        self.get(cell)
    }

    /// The number of occupied cells.
    pub fn current_population(&self) -> (r: usize)
        ensures
            r == self.cells().len(),
    {
        table_len(&self.agent_cell)
    }

    /// The per-state totals.
    pub fn get_record(&self) -> (r: Counts)
        requires
            self.wf(),
        ensures
            forall|s: State| #[trigger] r.bucket(s) == count_in(self.cells(), s),
    {
        self.counts
    }

    /// Places `citizen` at `point` when the cell is free, returning `None`;
    /// an occupied cell is never overwritten: the citizen is handed back and
    /// the map is left as it was.
    pub fn insert(&mut self, point: Point, citizen: Citizen) -> (r: Option<Citizen>)
        requires
            old(self).wf(),
        ensures
            final(self).wf(),
            final(self).side() == old(self).side(),
            r is None ==> final(self).cells() == old(self).cells().insert(key(point), citizen),
            r is Some ==> r == Some(citizen) && *final(self) == *old(self),
            old(self).cells().len() < usize::MAX ==> (r is None <==> !old(self).occupied(point)),
            old(self).occupied(point) ==> r == Some(citizen) && *final(self) == *old(self),
    {
        if table_contains(&self.agent_cell, (point.x, point.y)) || table_len(&self.agent_cell)
            == usize::MAX {
            return Some(citizen);
        }
        self.put_new((point.x, point.y), citizen);
        None
    }

    /// Replaces the occupant of `point` by `citizen`, keeping the totals in
    /// step; a free cell is left free. Returns whether it replaced.
    pub fn update_citizen(&mut self, point: Point, citizen: Citizen) -> (r: bool)
        requires
            old(self).wf(),
        ensures
            final(self).wf(),
            final(self).side() == old(self).side(),
            r == old(self).occupied(point),
            r ==> final(self).cells() == old(self).cells().insert(key(point), citizen),
            !r ==> *final(self) == *old(self),
    {
        if !table_contains(&self.agent_cell, (point.x, point.y)) {
            return false;
        }
        self.replace((point.x, point.y), citizen);
        true
    }

    /// Empties the map.
    pub fn clear(&mut self)
        ensures
            final(self).wf(),
            final(self).cells().len() == 0,
            final(self).side() == old(self).side(),
    {
        table_clear(&mut self.agent_cell);
        self.counts = Counts::new();
        proof {
            assert(self.cells().dom() =~= Set::empty());
            assert forall|s: State| #[trigger] self.tally().bucket(s) == count_in(self.cells(), s) by {
                assert(self.cells().dom().filter(|k: (i32, i32)| self.cells()[k].state == s)
                    =~= Set::empty());
            }
        }
    }

    /// Where a citizen at `old_cell` that wants `new_cell` ends up: there if
    /// it is free, else where it stands.
    pub fn move_agent(&self, old_cell: Point, new_cell: Point) -> (r: Point)
        ensures
            !self.occupied(new_cell) ==> r == new_cell,
            self.occupied(new_cell) ==> r == old_cell,
    {
        if self.is_cell_vacant(&new_cell) {
            return new_cell;
        }
        old_cell
    }

    /// Moves the occupant of `old_cell` to `new_cell`, as `agent`, when
    /// `new_cell` is free; else changes nothing. Returns whether it moved.
    pub fn move_citizen(&mut self, agent: Citizen, old_cell: Point, new_cell: Point) -> (r: bool)
        requires
            old(self).wf(),
            old(self).occupied(old_cell),
        ensures
            final(self).wf(),
            final(self).side() == old(self).side(),
            r == !old(self).occupied(new_cell),
            r ==> final(self).cells() == old(self).cells().remove(key(old_cell)).insert(
                key(new_cell),
                agent,
            ),
            !r ==> *final(self) == *old(self),
    {
        if table_contains(&self.agent_cell, (new_cell.x, new_cell.y)) {
            return false;
        }
        let _ = self.take_out((old_cell.x, old_cell.y));
        self.put_new((new_cell.x, new_cell.y), agent);
        true
    }

    /// The cells of `neighbors` that no citizen occupies, in the same order.
    pub fn get_empty_cells_from(&self, neighbors: Vec<Point>) -> (r: Vec<Point>)
        ensures
            r@ == neighbors@.filter(|p: Point| !self.occupied(p)),
    {
        let mut out: Vec<Point> = Vec::new();
        let mut i: usize = 0;
        while i < neighbors.len()
            invariant
                0 <= i <= neighbors@.len(),
                out@ == neighbors@.take(i as int).filter(|p: Point| !self.occupied(p)),
            decreases neighbors@.len() - i,
        {
            let p = neighbors[i];
            proof {
                assert(neighbors@.take(i + 1) == neighbors@.take(i as int).push(p));
                neighbors@.take(i as int).lemma_filter_push(p, |p: Point| !self.occupied(p));
            }
            if self.is_cell_vacant(&p) {
                out.push(p);
            }
            i = i + 1;
        }
        proof {
            assert(neighbors@.take(neighbors@.len() as int) == neighbors@);
        }
        out
    }

    /// The occupants of the occupied cells of `neighbors`, in the same order.
    pub fn get_agents_from(&self, neighbors: Vec<Point>) -> (r: Vec<Citizen>)
        ensures
            r@ == neighbors@.filter(|p: Point| self.occupied(p)).map_values(
                |p: Point| self.occupant(p),
            ),
    {
        let mut out: Vec<Citizen> = Vec::new();
        let mut i: usize = 0;
        while i < neighbors.len()
            invariant
                0 <= i <= neighbors@.len(),
                out@ == neighbors@.take(i as int).filter(|p: Point| self.occupied(p)).map_values(
                    |p: Point| self.occupant(p),
                ),
            decreases neighbors@.len() - i,
        {
            let p = neighbors[i];
            proof {
                assert(neighbors@.take(i + 1) == neighbors@.take(i as int).push(p));
                neighbors@.take(i as int).lemma_filter_push(p, |p: Point| self.occupied(p));
            }
            match self.get(&p) {
                Some(c) => {
                    out.push(c);
                    proof {
                        let f = neighbors@.take(i as int).filter(|p: Point| self.occupied(p));
                        assert(f.push(p).map_values(|p: Point| self.occupant(p)) =~= f.map_values(
                            |p: Point| self.occupant(p),
                        ).push(c));
                    }
                },
                None => {},
            }
            i = i + 1;
        }
        proof {
            assert(neighbors@.take(neighbors@.len() as int) == neighbors@);
        }
        out
    }
}

impl AgentLocationMap {
    /// The free cells of `area`, column by column.
    pub fn vacant_cells_in(&self, area: &Area) -> (r: Vec<Point>)
        ensures
            forall|p: Point| r@.contains(p) <==> area.contains_spec(p) && !self.occupied(p),
    {
        let mut out: Vec<Point> = Vec::new();
        let mut x: i64 = area.start.x as i64;
        while x <= area.end.x as i64
            invariant
                area.start.x <= x,
                x <= area.end.x + 1 || x == area.start.x,
                forall|p: Point|
                    out@.contains(p) <==> area.contains_spec(p) && !self.occupied(p) && p.x < x,
            decreases area.end.x + 1 - x,
        {
            let mut y: i64 = area.start.y as i64;
            while y <= area.end.y as i64
                invariant
                    area.start.x <= x <= area.end.x,
                    area.start.y <= y,
                    y <= area.end.y + 1 || y == area.start.y,
                    forall|p: Point|
                        out@.contains(p) <==> area.contains_spec(p) && !self.occupied(p) && (p.x < x
                            || (p.x == x && p.y < y)),
                decreases area.end.y + 1 - y,
            {
                let p = Point { x: x as i32, y: y as i32 };
                if self.is_cell_vacant(&p) {
                    let ghost prev = out@;
                    out.push(p);
                    proof {
                        assert forall|q: Point| out@.contains(q) implies prev.contains(q) || q == p by {
                            let j = choose|j: int| 0 <= j < out@.len() && out@[j] == q;
                            if j < prev.len() {
                                assert(prev[j] == q);
                            }
                        }
                        assert forall|q: Point| prev.contains(q) implies out@.contains(q) by {
                            let j = choose|j: int| 0 <= j < prev.len() && prev[j] == q;
                            assert(out@[j] == q);
                        }
                        assert(out@[out@.len() - 1] == p);
                    }
                }
                y = y + 1;
            }
            x = x + 1;
        }
        out
    }

    /// Moves the occupant of `cell`, if it may move, to a free neighbouring
    /// cell drawn at random; it stays when there is none.
    fn move_agent_from(&mut self, cell: Point, rng: &mut rand::rngs::ThreadRng) -> (r: Option<Point>)
        requires
            old(self).wf(),
        ensures
            final(self).wf(),
            final(self).side() == old(self).side(),
            r is None ==> *final(self) == *old(self),
            r matches Some(q) ==> is_neighbor(cell, q, old(self).side()) && moved_to(
                old(self).cells(),
                final(self).cells(),
                key(cell),
                key(q),
            ),
            must_step(*old(self), cell) ==> r is Some,
    {
        let agent = match self.get(&cell) {
            Some(a) => a,
            None => return None,
        };
        if !agent.can_move() {
            return None;
        }
        let neighbor_cells = cell.get_neighbor_cells(self.grid_size);
        let ghost nb = neighbor_cells@;
        let vacant = self.get_empty_cells_from(neighbor_cells);
        let ghost pred = |p: Point| !self.occupied(p);
        proof {
            if free_neighbour(*self, cell) {
                let q = choose|q: Point| #[trigger] is_neighbor(cell, q, self.side()) && !self.occupied(q);
                assert(nb.contains(q));
                let j = choose|j: int| 0 <= j < nb.len() && nb[j] == q;
                nb.lemma_filter_contains(pred, j);
                assert(vacant@.len() > 0);
            }
        }
        let new_cell = get_random_element_from(rng, &vacant, cell);
        proof {
            if vacant@.len() > 0 {
                let j = choose|j: int| 0 <= j < vacant@.len() && vacant@[j] == new_cell;
                assert(nb.filter(pred).contains(new_cell));
                nb.lemma_filter_contains_rev(pred, new_cell);
                nb.lemma_filter_pred(pred, j);
            }
        }
        if self.move_citizen(agent, cell, new_cell) {
            Some(new_cell)
        } else {
            None
        }
    }

    /// Gives every citizen that may move one chance to step to a free
    /// neighbouring cell. The occupied cells are read once, before any move,
    /// so each citizen is visited once.
    #[verifier::rlimit(50)]
    pub fn move_agents(&mut self)
        requires
            old(self).wf(),
        ensures
            final(self).wf(),
            final(self).side() == old(self).side(),
            final(self).cells().len() == old(self).cells().len(),
            forall|s: State| #[trigger] count_in(final(self).cells(), s) == count_in(old(self).cells(), s),
            keeps_immobile(old(self).cells(), final(self).cells()),
            forall|k: (i32, i32)|
                #[trigger] final(self).cells().contains_key(k) ==> came_within(
                    old(self).cells(),
                    final(self).cells(),
                    k,
                    walk(old(self).side(), None),
                ),
            forall|k0: (i32, i32)|
                #[trigger] old(self).cells().contains_key(k0) ==> placed(
                    old(self).cells(),
                    final(self).cells(),
                    k0,
                    walk(old(self).side(), None),
                    seq![],
                ),
            (exists|p: Point| #[trigger] must_step(*old(self), p)) ==> final(self).cells() != old(
                self,
            ).cells(),
    {
        let mut rng = fresh_rng();
        let keys = table_keys(&self.agent_cell);
        let ghost mut first: Option<(i32, i32)> = None;
        proof {
            lemma_pass_start(old(self).cells(), keys@, walk(old(self).side(), None));
        }
        let mut i: usize = 0;
        while i < keys.len()
            invariant
                self.wf(),
                self.side() == old(self).side(),
                self.cells().len() == old(self).cells().len(),
                forall|s: State| #[trigger] count_in(self.cells(), s) == count_in(old(self).cells(), s),
                keeps_immobile(old(self).cells(), self.cells()),
                keys@.no_duplicates(),
                forall|k: (i32, i32)| keys@.contains(k) <==> old(self).cells().contains_key(k),
                0 <= i <= keys@.len(),
                pass_inv(old(self).cells(), self.cells(), keys@, i as int, walk(old(self).side(), None)),
                first is None ==> *self == *old(self),
                first matches Some(q0) ==> self.cells().contains_key(q0) && !old(
                    self,
                ).cells().contains_key(q0),
                forall|j: int|
                    0 <= j < i && #[trigger] must_step(*old(self), at(keys@[j])) ==> first is Some,
            decreases keys@.len() - i,
        {
            let ghost before = self.cells();
            let k = keys[i];
            proof {
                assert(keys@.contains(k));
            }
            let moved = self.move_agent_from(Point { x: k.0, y: k.1 }, &mut rng);
            proof {
                assert(at(k) == Point { x: k.0, y: k.1 });
                let mk: Option<((i32, i32), Citizen)> = match moved {
                    Some(q) => Some((key(q), before[k])),
                    None => None,
                };
                if let Some(q) = moved {
                    lemma_relocation(old(self).cells(), before, self.cells(), k, key(q));
                    assert(at(key(q)) == q);
                    if first is None {
                        first = Some(key(q));
                    } else {
                        assert(first->0 != k);
                    }
                }
                lemma_pass_step(
                    old(self).cells(),
                    keys@,
                    i as int,
                    before,
                    self.cells(),
                    mk,
                    walk(old(self).side(), None),
                );
            }
            i = i + 1;
        }
        proof {
            if exists|p: Point| #[trigger] must_step(*old(self), p) {
                let p = choose|p: Point| #[trigger] must_step(*old(self), p);
                assert(keys@.contains(key(p)));
                let j = choose|j: int| 0 <= j < keys@.len() && keys@[j] == key(p);
                assert(at(keys@[j]) == p);
                assert(first is Some);
                assert(!old(self).cells().contains_key(first->0));
            }
            lemma_pass_end(old(self).cells(), self.cells(), keys@, walk(old(self).side(), None));
        }
    }
}

impl AgentLocationMap {
    /// Tries to infect the occupant of `cell` from its neighbours: each
    /// infectious neighbour in turn gets one draw at its transmission rate,
    /// and the first success makes the occupant ill.
    fn update_infection(&mut self, cell: Point, rng: &mut rand::rngs::ThreadRng)
        requires
            old(self).wf(),
        ensures
            final(self).wf(),
            final(self).side() == old(self).side(),
            *final(self) == *old(self) || (old(self).occupied(cell) && catchable(
                old(self).occupant(cell),
            ) && exposed_to(*old(self), cell, 1) && final(self).cells() == old(self).cells().insert(
                key(cell),
                fell_ill(old(self).occupant(cell)),
            )),
            old(self).occupied(cell) && catchable(old(self).occupant(cell)) && exposed_to(
                *old(self),
                cell,
                RATE_SCALE as int,
            ) ==> final(self).cells() == old(self).cells().insert(
                key(cell),
                fell_ill(old(self).occupant(cell)),
            ),
    {
        let agent = match self.get(&cell) {
            Some(a) => a,
            None => return ,
        };
        if !(agent.is_susceptible() && !agent.vaccinated) {
            return ;
        }
        let nb = cell.get_neighbor_cells(self.grid_size);
        let ghost nbs = nb@;
        let ghost pred = |p: Point| self.occupied(p);
        let neighbors = self.get_agents_from(nb);
        let mut i: usize = 0;
        while i < neighbors.len()
            invariant
                *self == *old(self),
                self.wf(),
                agent == self.occupant(cell),
                self.occupied(cell),
                catchable(agent),
                0 <= i <= neighbors@.len(),
                forall|q: Point| nbs.contains(q) <==> is_neighbor(cell, q, self.side()),
                pred == (|p: Point| self.occupied(p)),
                neighbors@ == nbs.filter(pred).map_values(|p: Point| self.occupant(p)),
                forall|j: int|
                    0 <= j < i ==> !(infectious(#[trigger] neighbors@[j])
                        && neighbors@[j].transmission_rate >= RATE_SCALE),
            decreases neighbors@.len() - i,
        {
            let n = neighbors[i];
            proof {
                let f = nbs.filter(pred);
                assert(n == self.occupant(f[i as int]));
                assert(f.contains(f[i as int]));
                nbs.lemma_filter_contains_rev(pred, f[i as int]);
                nbs.lemma_filter_pred(pred, i as int);
                assert(is_neighbor(cell, f[i as int], self.side()));
            }
            if n.is_infectious() {
                let rate = if n.transmission_rate > RATE_SCALE {
                    RATE_SCALE
                } else {
                    n.transmission_rate
                };
                if draw_ratio(rng, rate, RATE_SCALE) {
                    let mut c = agent;
                    let _ = c.infect();
                    self.replace((cell.x, cell.y), c);
                    return ;
                }
            }
            i = i + 1;
        }
        proof {
            if exposed_to(*self, cell, RATE_SCALE as int) {
                let q = choose|q: Point|
                    #[trigger] is_neighbor(cell, q, self.side()) && self.occupied(q) && infectious(
                        self.occupant(q),
                    ) && self.occupant(q).transmission_rate >= RATE_SCALE;
                let idx = choose|idx: int| 0 <= idx < nbs.len() && nbs[idx] == q;
                nbs.lemma_filter_contains(pred, idx);
                let f = nbs.filter(pred);
                let j = choose|j: int| 0 <= j < f.len() && f[j] == q;
                assert(neighbors@[j] == self.occupant(q));
            }
        }
    }

    /// One round of contagion: every citizen that can catch the disease may
    /// fall ill from an infectious neighbour (see `update_infection`). The
    /// occupied cells are read once, before any change. A vaccinated citizen
    /// is never infected.
    pub fn update_infections(&mut self)
        requires
            old(self).wf(),
        ensures
            final(self).wf(),
            final(self).side() == old(self).side(),
            infected_from(old(self).cells(), final(self).cells()),
            forall|k: (i32, i32)|
                #[trigger] old(self).cells().contains_key(k) && old(self).cells()[k].vaccinated
                    ==> final(self).cells()[k] == old(self).cells()[k],
            forall|k: (i32, i32)|
                #[trigger] old(self).cells().contains_key(k) && catchable(old(self).cells()[k])
                    && exposed_to(*old(self), at(k), RATE_SCALE as int) ==> final(self).cells()[k]
                    == fell_ill(old(self).cells()[k]),
            count_in(final(self).cells(), State::Susceptible) + count_in(
                final(self).cells(),
                State::Infected,
            ) == count_in(old(self).cells(), State::Susceptible) + count_in(
                old(self).cells(),
                State::Infected,
            ),
            forall|s: State|
                s != State::Susceptible && s != State::Infected ==> #[trigger] count_in(
                    final(self).cells(),
                    s,
                ) == count_in(old(self).cells(), s),
            forall|k: (i32, i32)|
                #[trigger] old(self).cells().contains_key(k) && final(self).cells()[k] != old(
                    self,
                ).cells()[k] ==> exposed_in(final(self).cells(), at(k), old(self).side(), 1),
    {
        let mut rng = fresh_rng();
        let keys = table_keys(&self.agent_cell);
        let mut i: usize = 0;
        while i < keys.len()
            invariant
                self.wf(),
                self.side() == old(self).side(),
                infected_from(old(self).cells(), self.cells()),
                forall|k: (i32, i32)|
                    #[trigger] old(self).cells().contains_key(k) && self.cells()[k] != old(
                        self,
                    ).cells()[k] ==> exposed_in(self.cells(), at(k), old(self).side(), 1),
                keys@.no_duplicates(),
                forall|k: (i32, i32)| keys@.contains(k) <==> old(self).cells().contains_key(k),
                0 <= i <= keys@.len(),
                forall|k: (i32, i32)|
                    #[trigger] old(self).cells().contains_key(k) && !keys@.take(i as int).contains(k)
                        ==> self.cells()[k] == old(self).cells()[k],
                forall|k: (i32, i32)|
                    #[trigger] old(self).cells().contains_key(k) && keys@.take(i as int).contains(k)
                        && catchable(old(self).cells()[k]) && exposed_to(
                        *old(self),
                        at(k),
                        RATE_SCALE as int,
                    ) ==> self.cells()[k] == fell_ill(old(self).cells()[k]),
                count_in(self.cells(), State::Susceptible) + count_in(self.cells(), State::Infected)
                    == count_in(old(self).cells(), State::Susceptible) + count_in(
                    old(self).cells(),
                    State::Infected,
                ),
                forall|s: State|
                    s != State::Susceptible && s != State::Infected ==> #[trigger] count_in(
                        self.cells(),
                        s,
                    ) == count_in(old(self).cells(), s),
            decreases keys@.len() - i,
        {
            let ghost before = self.cells();
            let ghost snap = *self;
            let k = keys[i];
            proof {
                assert(keys@.contains(k));
                assert(!keys@.take(i as int).contains(k)) by {
                    if keys@.take(i as int).contains(k) {
                        let j = choose|j: int| 0 <= j < i && keys@.take(i as int)[j] == k;
                        assert(keys@[j] == keys@[i as int]);
                    }
                }
                assert(keys@.take(i + 1) =~= keys@.take(i as int).push(k));
                assert(keys@.take(i + 1)[i as int] == k);
                assert(before[k] == old(self).cells()[k]);
                if catchable(old(self).cells()[k]) && exposed_to(*old(self), at(k), RATE_SCALE as int) {
                    let q = choose|q: Point|
                        #[trigger] is_neighbor(at(k), q, old(self).side()) && old(self).occupied(q)
                            && infectious(old(self).occupant(q)) && old(self).occupant(q).transmission_rate
                            >= RATE_SCALE;
                    assert(old(self).cells().contains_key(key(q)));
                    assert(before[key(q)] == old(self).cells()[key(q)]);
                    assert(is_neighbor(at(k), q, snap.side()));
                    assert(exposed_to(snap, at(k), RATE_SCALE as int));
                }
            }
            self.update_infection(Point { x: k.0, y: k.1 }, &mut rng);
            proof {
                assert forall|kk: (i32, i32)| #[trigger] old(self).cells().contains_key(kk)
                    && !keys@.take(i + 1).contains(kk) implies self.cells()[kk] == old(self).cells()[kk] by {
                    assert(kk != k);
                    assert(!keys@.take(i as int).contains(kk));
                }
                assert forall|kk: (i32, i32)| #[trigger] old(self).cells().contains_key(kk)
                    && keys@.take(i + 1).contains(kk) && catchable(old(self).cells()[kk]) && exposed_to(
                    *old(self),
                    at(kk),
                    RATE_SCALE as int,
                ) implies self.cells()[kk] == fell_ill(old(self).cells()[kk]) by {
                    if kk != k {
                        assert(keys@.take(i as int).contains(kk));
                    }
                }
                assert forall|kk: (i32, i32)| #[trigger] old(self).cells().contains_key(kk)
                    && self.cells()[kk] != old(self).cells()[kk] implies exposed_in(
                    self.cells(),
                    at(kk),
                    old(self).side(),
                    1,
                ) by {
                    if self.cells() != before {
                        if kk == k {
                            assert(exposed_to(snap, at(k), 1));
                            let q = choose|q: Point| #[trigger] is_neighbor(at(k), q, snap.side())
                                && snap.occupied(q) && infectious(snap.occupant(q))
                                && snap.occupant(q).transmission_rate >= 1;
                            assert(key(q) != k);
                            assert(is_neighbor(at(kk), q, old(self).side()));
                        } else {
                            assert(before[kk] != old(self).cells()[kk]);
                            assert(exposed_in(before, at(kk), old(self).side(), 1));
                            let q = choose|q: Point| #[trigger] is_neighbor(at(kk), q, old(self).side())
                                && before.contains_key(key(q)) && infectious(before[key(q)])
                                && before[key(q)].transmission_rate >= 1;
                            assert(key(q) != k);
                            assert(is_neighbor(at(kk), q, old(self).side()));
                        }
                    } else {
                        assert(before[kk] != old(self).cells()[kk]);
                    }
                }
                if self.cells() != before {
                    let c = before[k];
                    assert(catchable(c));
                    assert forall|s: State| #[trigger] count_in(self.cells(), s) == count_in(before, s)
                        - is_in(c, s) + is_in(fell_ill(c), s) by {
                        lemma_count_replace(before, k, fell_ill(c), s);
                    }
                    assert(count_in(self.cells(), State::Susceptible) == count_in(before, State::Susceptible) - 1);
                    assert(count_in(self.cells(), State::Infected) == count_in(before, State::Infected) + 1);
                    assert(self.cells().dom() =~= before.dom());
                    assert forall|kk: (i32, i32)| #[trigger] old(self).cells().contains_key(kk) implies
                        self.cells()[kk] == old(self).cells()[kk] || (catchable(old(self).cells()[kk])
                        && self.cells()[kk] == fell_ill(old(self).cells()[kk])) by {
                        if kk == k {
                            assert(before[kk] == old(self).cells()[kk]);
                        }
                    }
                }
            }
            i = i + 1;
        }
        proof {
            assert(keys@.take(keys@.len() as int) =~= keys@);
            assert forall|k: (i32, i32)| #[trigger] old(self).cells().contains_key(k)
                && old(self).cells()[k].vaccinated implies self.cells()[k] == old(self).cells()[k] by {
                assert(old(self).cells().contains_key(k));
            }
        }
    }
}

impl AgentLocationMap {
    /// True iff some cell of `area` is free.
    pub open spec fn has_vacancy(&self, area: Area) -> bool {
        exists|p: Point| #[trigger] area.contains_spec(p) && !self.occupied(p)
    }

    /// Where an ill citizen at `cell` would go: the first free cell of the
    /// hospital, with `true`; when the hospital is full, a free cell of its
    /// home area drawn at random, or `cell` itself when there is none, with
    /// `false`.
    pub fn goto_hospital(&self, hospital_area: &Area, cell: Point, citizen: &mut Citizen) -> (r: (
        bool,
        Point,
    ))
        ensures
            *final(citizen) == *old(citizen),
            r.0 == self.has_vacancy(*hospital_area),
            r.0 ==> hospital_area.contains_spec(r.1) && !self.occupied(r.1),
            !r.0 && self.has_vacancy(old(citizen).home_location) ==> old(citizen).home_location.contains_spec(r.1) && !self.occupied(r.1),
            !r.0 && !self.has_vacancy(old(citizen).home_location) ==> r.1 == cell,
    {
        let vacant = self.vacant_cells_in(hospital_area);
        if vacant.len() > 0 {
            proof {
                assert(vacant@.contains(vacant@[0]));
                assert(hospital_area.contains_spec(vacant@[0]));
            }
            return (true, vacant[0]);
        }
        proof {
            if self.has_vacancy(*hospital_area) {
                let p = choose|p: Point| #[trigger] hospital_area.contains_spec(p) && !self.occupied(p);
                assert(vacant@.contains(p));
            }
        }
        let home = self.vacant_cells_in(&citizen.home_location);
        let mut rng = fresh_rng();
        let p = get_random_element_from(&mut rng, &home, cell);
        proof {
            if home@.len() > 0 {
                assert(home@.contains(home@[0]));
                assert(citizen.home_location.contains_spec(home@[0]));
            }
            if self.has_vacancy(citizen.home_location) {
                let q = choose|q: Point| #[trigger] citizen.home_location.contains_spec(q) && !self.occupied(q);
                assert(home@.contains(q));
            }
        }
        (false, p)
    }

    /// Quarantines the occupant of `cell` if it is infected, and sends it to
    /// hospital, or home when the hospital is full. Returns the cell it ends
    /// in and whether it is in hospital.
    fn quarantine_at(&mut self, cell: Point, area: &Area) -> (r: (Point, bool))
        requires
            old(self).wf(),
        ensures
            final(self).wf(),
            final(self).side() == old(self).side(),
            !(old(self).occupied(cell) && old(self).occupant(cell).state == State::Infected)
                ==> *final(self) == *old(self),
            old(self).occupied(cell) && old(self).occupant(cell).state == State::Infected ==> {
                &&& r.0 == cell || !old(self).occupied(r.0)
                &&& r.1 == old(self).has_vacancy(*area)
                &&& r.1 ==> area.contains_spec(r.0)
                &&& !r.1 && old(self).has_vacancy(old(self).occupant(cell).home_location) ==> old(
                    self,
                ).occupant(cell).home_location.contains_spec(r.0)
                &&& !r.1 && !old(self).has_vacancy(old(self).occupant(cell).home_location) ==> r.0
                    == cell
                &&& final(self).cells() == old(self).cells().remove(key(cell)).insert(
                    key(r.0),
                    (Citizen { state: State::Quarantined, hospitalized: r.1, ..old(self).occupant(cell) }),
                )
            },
    {
        let mut citizen = match self.get(&cell) {
            Some(c) => c,
            None => return (cell, false),
        };
        if !citizen.is_infected() {
            return (cell, false);
        }
        let _ = citizen.quarantine();
        let (in_hospital, target) = self.goto_hospital(area, cell, &mut citizen);
        citizen.hospitalized = in_hospital;
        if !self.move_citizen(citizen, cell, target) {
            self.replace((cell.x, cell.y), citizen);
            proof {
                assert(old(self).cells().remove(key(cell)).insert(key(cell), citizen)
                    =~= old(self).cells().insert(key(cell), citizen));
                assert(target == cell);
            }
            return (cell, in_hospital);
        }
        (target, in_hospital)
    }

    /// Quarantines every infected citizen and sends it to a free cell of the
    /// hospital `area`, or to its home area when the hospital is full. All
    /// infected citizens move from the infected to the quarantined bucket,
    /// wherever they end up.
    pub fn quarantine(&mut self, area: Area)
        requires
            old(self).wf(),
        ensures
            final(self).wf(),
            final(self).side() == old(self).side(),
            final(self).cells().len() == old(self).cells().len(),
            count_in(final(self).cells(), State::Infected) == 0,
            count_in(final(self).cells(), State::Quarantined) == count_in(
                old(self).cells(),
                State::Quarantined,
            ) + count_in(old(self).cells(), State::Infected),
            forall|s: State|
                s != State::Quarantined && s != State::Infected ==> #[trigger] count_in(
                    final(self).cells(),
                    s,
                ) == count_in(old(self).cells(), s),
            forall|k0: (i32, i32)|
                #[trigger] old(self).cells().contains_key(k0) ==> placed(
                    old(self).cells(),
                    final(self).cells(),
                    k0,
                    isolation(area),
                    seq![],
                ),
            forall|k: (i32, i32)|
                #[trigger] final(self).cells().contains_key(k) ==> came_within(
                    old(self).cells(),
                    final(self).cells(),
                    k,
                    isolation(area),
                ),
    {
        let keys = table_keys(&self.agent_cell);
        proof {
            assert(keys@.subrange(0, keys@.len() as int) =~= keys@);
            lemma_pass_start(old(self).cells(), keys@, isolation(area));
        }
        let mut i: usize = 0;
        while i < keys.len()
            invariant
                self.wf(),
                self.side() == old(self).side(),
                self.cells().len() == old(self).cells().len(),
                keys@.no_duplicates(),
                forall|k: (i32, i32)| keys@.contains(k) <==> old(self).cells().contains_key(k),
                pass_inv(old(self).cells(), self.cells(), keys@, i as int, isolation(area)),
                0 <= i <= keys@.len(),
                forall|k: (i32, i32)|
                    #[trigger] self.cells().contains_key(k) && self.cells()[k].state == State::Infected
                        ==> keys@.subrange(i as int, keys@.len() as int).contains(k),
                count_in(self.cells(), State::Quarantined) + count_in(self.cells(), State::Infected)
                    == count_in(old(self).cells(), State::Quarantined) + count_in(
                    old(self).cells(),
                    State::Infected,
                ),
                forall|s: State|
                    s != State::Quarantined && s != State::Infected ==> #[trigger] count_in(
                        self.cells(),
                        s,
                    ) == count_in(old(self).cells(), s),
            decreases keys@.len() - i,
        {
            let ghost before = self.cells();
            let k = keys[i];
            let cell = Point { x: k.0, y: k.1 };
            proof {
                assert(keys@.contains(k));
                lemma_pass_next(old(self).cells(), before, keys@, i as int, isolation(area));
            }
            let (to, h) = self.quarantine_at(cell, &area);
            proof {
                assert(at(k) == cell);
                assert(at(key(to)) == to);
                let mk: Option<((i32, i32), Citizen)> = if before.contains_key(k) && before[k].state
                    == State::Infected {
                    Some((key(to), Citizen { state: State::Quarantined, hospitalized: h, ..before[k] }))
                } else {
                    None
                };
                if before.contains_key(k) && before[k].state == State::Infected {
                    if to != cell {
                        assert(key(to) != k);
                    }
                }
                lemma_pass_step(old(self).cells(), keys@, i as int, before, self.cells(), mk, isolation(area));
                let rest = keys@.subrange(i + 1, keys@.len() as int);
                assert forall|kk: (i32, i32)|
                    #[trigger] self.cells().contains_key(kk) && self.cells()[kk].state == State::Infected
                    implies rest.contains(kk) by {
                    if before.contains_key(k) && before[k].state == State::Infected {
                        assert(kk != key(to));
                        assert(kk != k);
                    }
                    assert(before.contains_key(kk) && before[kk].state == State::Infected);
                    let j = choose|j: int| 0 <= j < keys@.len() - i && keys@.subrange(i as int, keys@.len() as int)[j] == kk;
                    assert(keys@[i + j] == kk);
                    if j == 0 {
                        assert(kk == k);
                        if before.contains_key(k) && before[k].state == State::Infected {
                        } else {
                            assert(self.cells() == before);
                        }
                    }
                    assert(rest[j - 1] == kk);
                }
                if before.contains_key(k) && before[k].state == State::Infected {
                    let c2 = Citizen { state: State::Quarantined, hospitalized: h, ..before[k] };
                    assert forall|s: State| #[trigger] count_in(self.cells(), s) == count_in(before, s)
                        - is_in(before[k], s) + is_in(c2, s) by {
                        lemma_count_remove(before, k, s);
                        lemma_count_insert(before.remove(k), key(to), c2, s);
                    }
                    assert(self.cells().len() == before.len());
                }
            }
            i = i + 1;
        }
        proof {
            lemma_pass_end(old(self).cells(), self.cells(), keys@, isolation(area));
            let f = self.cells().dom().filter(|k: (i32, i32)| self.cells()[k].state == State::Infected);
            assert(f =~= Set::empty()) by {
                assert forall|kk: (i32, i32)| !f.contains(kk) by {
                    if f.contains(kk) {
                        assert(keys@.subrange(i as int, keys@.len() as int).len() == 0);
                    }
                }
            }
        }
    }
}

impl AgentLocationMap {
    /// Ends the illness of the occupant of `cell` if its last day has come:
    /// it dies with its fatality rate, else it recovers, and it goes to the
    /// first cell of its home area when that cell is free. Returns where it
    /// ends and its new state.
    fn decease_at(&mut self, cell: Point, rng: &mut rand::rngs::ThreadRng) -> (r: (Point, State))
        requires
            old(self).wf(),
        ensures
            final(self).wf(),
            final(self).side() == old(self).side(),
            !(old(self).occupied(cell) && due(old(self).occupant(cell))) ==> *final(self) == *old(self),
            old(self).occupied(cell) && due(old(self).occupant(cell)) ==> {
                &&& r.1 == State::Deceased || r.1 == State::Recovered
                &&& r.0 == cell || (r.0 == old(self).occupant(cell).home_location.start
                    && !old(self).occupied(r.0))
                &&& final(self).cells() == old(self).cells().remove(key(cell)).insert(
                    key(r.0),
                    (Citizen { state: r.1, hospitalized: false, ..old(self).occupant(cell) }),
                )
            },
    {
        let mut c = match self.get(&cell) {
            Some(c) => c,
            None => return (cell, State::Susceptible),
        };
        if !(c.is_quarantined() && c.infection_day >= LAST_INFECTION_DAY) {
            return (cell, c.state);
        }
        let rate = if c.fatality_rate > RATE_SCALE {
            RATE_SCALE
        } else {
            c.fatality_rate
        };
        let dies = draw_ratio(rng, rate, RATE_SCALE);
        let _ = c.decease(dies);
        let home = c.home_location.start;
        if !self.move_citizen(c, cell, home) {
            self.replace((cell.x, cell.y), c);
            proof {
                assert(old(self).cells().remove(key(cell)).insert(key(cell), c) =~= old(self).cells().insert(key(cell), c));
            }
            return (cell, c.state);
        }
        (home, c.state)
    }

    /// Ends the illness of every quarantined citizen whose last day has come:
    /// each dies or recovers, and goes home when its home cell is free. The
    /// quarantined bucket loses what the deceased and recovered buckets gain.
    pub fn deceased(&mut self)
        requires
            old(self).wf(),
        ensures
            final(self).wf(),
            final(self).side() == old(self).side(),
            final(self).cells().len() == old(self).cells().len(),
            forall|k: (i32, i32)|
                #[trigger] final(self).cells().contains_key(k) ==> !due(final(self).cells()[k]),
            count_in(final(self).cells(), State::Quarantined) + count_in(
                final(self).cells(),
                State::Deceased,
            ) + count_in(final(self).cells(), State::Recovered) == count_in(
                old(self).cells(),
                State::Quarantined,
            ) + count_in(old(self).cells(), State::Deceased) + count_in(
                old(self).cells(),
                State::Recovered,
            ),
            count_in(final(self).cells(), State::Quarantined) <= count_in(
                old(self).cells(),
                State::Quarantined,
            ),
            forall|s: State|
                s != State::Quarantined && s != State::Deceased && s != State::Recovered
                    ==> #[trigger] count_in(final(self).cells(), s) == count_in(old(self).cells(), s),
            forall|k0: (i32, i32)|
                #[trigger] old(self).cells().contains_key(k0) ==> placed(
                    old(self).cells(),
                    final(self).cells(),
                    k0,
                    |c: Citizen, d: Citizen, from: Point, to: Point| outcome(c, d, from, to),
                    seq![],
                ),
            forall|k: (i32, i32)|
                #[trigger] final(self).cells().contains_key(k) ==> came_within(
                    old(self).cells(),
                    final(self).cells(),
                    k,
                    |c: Citizen, d: Citizen, from: Point, to: Point| outcome(c, d, from, to),
                ),
    {
        let mut rng = fresh_rng();
        let keys = table_keys(&self.agent_cell);
        let ghost rel = |c: Citizen, d: Citizen, from: Point, to: Point| outcome(c, d, from, to);
        proof {
            assert(keys@.subrange(0, keys@.len() as int) =~= keys@);
            lemma_pass_start(old(self).cells(), keys@, rel);
        }
        let mut i: usize = 0;
        while i < keys.len()
            invariant
                self.wf(),
                self.side() == old(self).side(),
                self.cells().len() == old(self).cells().len(),
                keys@.no_duplicates(),
                forall|k: (i32, i32)| keys@.contains(k) <==> old(self).cells().contains_key(k),
                rel == (|c: Citizen, d: Citizen, from: Point, to: Point| outcome(c, d, from, to)),
                pass_inv(old(self).cells(), self.cells(), keys@, i as int, rel),
                0 <= i <= keys@.len(),
                forall|k: (i32, i32)|
                    #[trigger] self.cells().contains_key(k) && due(self.cells()[k])
                        ==> keys@.subrange(i as int, keys@.len() as int).contains(k),
                count_in(self.cells(), State::Quarantined) + count_in(self.cells(), State::Deceased)
                    + count_in(self.cells(), State::Recovered) == count_in(
                    old(self).cells(),
                    State::Quarantined,
                ) + count_in(old(self).cells(), State::Deceased) + count_in(
                    old(self).cells(),
                    State::Recovered,
                ),
                count_in(self.cells(), State::Quarantined) <= count_in(
                    old(self).cells(),
                    State::Quarantined,
                ),
                forall|s: State|
                    s != State::Quarantined && s != State::Deceased && s != State::Recovered
                        ==> #[trigger] count_in(self.cells(), s) == count_in(old(self).cells(), s),
            decreases keys@.len() - i,
        {
            let ghost before = self.cells();
            let k = keys[i];
            let cell = Point { x: k.0, y: k.1 };
            proof {
                assert(keys@.contains(k));
                lemma_pass_next(old(self).cells(), before, keys@, i as int, rel);
            }
            let (to, st) = self.decease_at(cell, &mut rng);
            proof {
                assert(at(k) == cell);
                assert(at(key(to)) == to);
                let mk: Option<((i32, i32), Citizen)> = if due(before[k]) {
                    Some((key(to), Citizen { state: st, hospitalized: false, ..before[k] }))
                } else {
                    None
                };
                if due(before[k]) && to != cell {
                    assert(key(to) != k);
                }
                lemma_pass_step(old(self).cells(), keys@, i as int, before, self.cells(), mk, rel);
                let rest = keys@.subrange(i + 1, keys@.len() as int);
                assert forall|kk: (i32, i32)|
                    #[trigger] self.cells().contains_key(kk) && due(self.cells()[kk])
                    implies rest.contains(kk) by {
                    if before.contains_key(k) && due(before[k]) {
                        assert(kk != key(to));
                        assert(kk != k);
                    }
                    assert(before.contains_key(kk) && due(before[kk]));
                    let j = choose|j: int| 0 <= j < keys@.len() - i && keys@.subrange(i as int, keys@.len() as int)[j] == kk;
                    assert(keys@[i + j] == kk);
                    if j == 0 {
                        assert(kk == k);
                        if before.contains_key(k) && due(before[k]) {
                        } else {
                            assert(self.cells() == before);
                        }
                    }
                    assert(rest[j - 1] == kk);
                }
                if before.contains_key(k) && due(before[k]) {
                    let c2 = Citizen { state: st, hospitalized: false, ..before[k] };
                    assert forall|s: State| #[trigger] count_in(self.cells(), s) == count_in(before, s)
                        - is_in(before[k], s) + is_in(c2, s) by {
                        lemma_count_remove(before, k, s);
                        lemma_count_insert(before.remove(k), key(to), c2, s);
                    }
                    assert(count_in(self.cells(), State::Quarantined) == count_in(before, State::Quarantined) - 1);
                    assert(count_in(self.cells(), State::Deceased) == count_in(before, State::Deceased) + is_in(c2, State::Deceased));
                    assert(count_in(self.cells(), State::Recovered) == count_in(before, State::Recovered) + is_in(c2, State::Recovered));
                    assert(self.cells().len() == before.len());
                }
            }
            i = i + 1;
        }
        proof {
            lemma_pass_end(old(self).cells(), self.cells(), keys@, rel);
            assert forall|kk: (i32, i32)| #[trigger] self.cells().contains_key(kk) implies !due(self.cells()[kk]) by {
                if due(self.cells()[kk]) {
                    assert(keys@.subrange(i as int, keys@.len() as int).len() == 0);
                }
            }
        }
    }

    /// Adds a day of illness to every infected or quarantined citizen.
    pub fn update_infection_day(&mut self)
        requires
            old(self).wf(),
        ensures
            final(self).wf(),
            final(self).side() == old(self).side(),
            final(self).cells().dom() == old(self).cells().dom(),
            forall|k: (i32, i32)|
                #[trigger] old(self).cells().contains_key(k) ==> final(self).cells()[k] == aged(
                    old(self).cells()[k],
                ),
    {
        let keys = table_keys(&self.agent_cell);
        let mut i: usize = 0;
        while i < keys.len()
            invariant
                self.wf(),
                self.side() == old(self).side(),
                self.cells().dom() == old(self).cells().dom(),
                keys@.no_duplicates(),
                forall|k: (i32, i32)| keys@.contains(k) <==> old(self).cells().contains_key(k),
                0 <= i <= keys@.len(),
                forall|k: (i32, i32)|
                    #[trigger] old(self).cells().contains_key(k) ==> self.cells()[k] == if keys@.take(
                        i as int,
                    ).contains(k) {
                        aged(old(self).cells()[k])
                    } else {
                        old(self).cells()[k]
                    },
            decreases keys@.len() - i,
        {
            let k = keys[i];
            let ghost before = self.cells();
            proof {
                assert(keys@.contains(k));
                assert(!keys@.take(i as int).contains(k)) by {
                    if keys@.take(i as int).contains(k) {
                        let j = choose|j: int| 0 <= j < i && keys@.take(i as int)[j] == k;
                        assert(keys@[j] == keys@[i as int]);
                    }
                }
                assert(keys@.take(i + 1) =~= keys@.take(i as int).push(k));
            }
            let mut c = table_get(&self.agent_cell, k).unwrap();
            if c.is_infected() || c.is_quarantined() {
                c.increment_infection_day();
                self.replace(k, c);
                proof {
                    assert(self.cells().dom() =~= before.dom());
                }
            }
            proof {
                assert(before[k] == old(self).cells()[k]);
                assert forall|kk: (i32, i32)| #[trigger] old(self).cells().contains_key(kk) implies self.cells()[kk]
                    == if keys@.take(i + 1).contains(kk) {
                    aged(old(self).cells()[kk])
                } else {
                    old(self).cells()[kk]
                } by {
                    if kk != k {
                        assert(keys@.take(i + 1).contains(kk) == keys@.take(i as int).contains(kk));
                    } else {
                        assert(keys@.take(i + 1)[i as int] == k);
                        assert(keys@.take(i + 1).contains(k));
                    }
                }
            }
            i = i + 1;
        }
        proof {
            assert(keys@.take(keys@.len() as int) =~= keys@);
        }
    }
}

impl AgentLocationMap {
    /// Vaccinates each citizen that is not infected with chance
    /// `numerator / denominator`, drawn once per citizen.
    pub fn vaccinate(&mut self, numerator: u32, denominator: u32)
        requires
            old(self).wf(),
            0 < denominator,
            numerator <= denominator,
        ensures
            final(self).wf(),
            final(self).side() == old(self).side(),
            final(self).cells().dom() == old(self).cells().dom(),
            forall|k: (i32, i32)|
                #[trigger] old(self).cells().contains_key(k) ==> final(self).cells()[k] == old(self).cells()[k] || (old(self).cells()[k].state != State::Infected && final(self).cells()[k] == (Citizen { vaccinated: true, ..old(self).cells()[k] })),
            numerator == 0 ==> final(self).cells() == old(self).cells(),
            numerator == denominator ==> forall|k: (i32, i32)|
                #[trigger] old(self).cells().contains_key(k) && old(self).cells()[k].state
                    != State::Infected ==> final(self).cells()[k].vaccinated,
    {
        let mut rng = fresh_rng();
        let keys = table_keys(&self.agent_cell);
        let mut i: usize = 0;
        while i < keys.len()
            invariant
                self.wf(),
                self.side() == old(self).side(),
                self.cells().dom() == old(self).cells().dom(),
                0 < denominator,
                numerator <= denominator,
                keys@.no_duplicates(),
                forall|k: (i32, i32)| keys@.contains(k) <==> old(self).cells().contains_key(k),
                0 <= i <= keys@.len(),
                forall|k: (i32, i32)|
                    #[trigger] old(self).cells().contains_key(k) ==> self.cells()[k] == old(self).cells()[k] || (old(self).cells()[k].state != State::Infected && self.cells()[k]
                        == (Citizen { vaccinated: true, ..old(self).cells()[k] })),
                forall|k: (i32, i32)|
                    #[trigger] old(self).cells().contains_key(k) && !keys@.take(i as int).contains(k)
                        ==> self.cells()[k] == old(self).cells()[k],
                numerator == 0 ==> self.cells() == old(self).cells(),
                numerator == denominator ==> forall|k: (i32, i32)|
                    #[trigger] old(self).cells().contains_key(k) && old(self).cells()[k].state
                        != State::Infected && keys@.take(i as int).contains(k)
                        ==> self.cells()[k].vaccinated,
            decreases keys@.len() - i,
        {
            let k = keys[i];
            let ghost before = self.cells();
            proof {
                assert(keys@.contains(k));
                assert(!keys@.take(i as int).contains(k)) by {
                    if keys@.take(i as int).contains(k) {
                        let j = choose|j: int| 0 <= j < i && keys@.take(i as int)[j] == k;
                        assert(keys@[j] == keys@[i as int]);
                    }
                }
                assert(keys@.take(i + 1) =~= keys@.take(i as int).push(k));
                assert(keys@.take(i + 1)[i as int] == k);
            }
            let mut c = table_get(&self.agent_cell, k).unwrap();
            if !c.is_infected() && draw_ratio(&mut rng, numerator, denominator) {
                c.set_vaccination(true);
                self.replace(k, c);
                proof {
                    assert(self.cells().dom() =~= before.dom());
                }
            }
            proof {
                assert(before[k] == old(self).cells()[k]);
                assert forall|kk: (i32, i32)| #[trigger] old(self).cells().contains_key(kk)
                    && !keys@.take(i + 1).contains(kk) implies self.cells()[kk] == old(self).cells()[kk] by {
                    assert(kk != k);
                    assert(!keys@.take(i as int).contains(kk));
                }
                if numerator == denominator {
                    assert forall|kk: (i32, i32)| #[trigger] old(self).cells().contains_key(kk)
                        && old(self).cells()[kk].state != State::Infected && keys@.take(i + 1).contains(kk)
                        implies self.cells()[kk].vaccinated by {
                        if kk != k {
                            assert(keys@.take(i as int).contains(kk));
                        }
                    }
                }
            }
            i = i + 1;
        }
        proof {
            assert(keys@.take(keys@.len() as int) =~= keys@);
        }
    }
}

impl AgentLocationMap {
    /// Moves the occupant of `cell`, if it may move: a worker goes to a free
    /// cell of `area` drawn at random, or to the first cell of its home area
    /// when `area` is full; any other citizen steps as in `move_agents`.
    /// Returns where it went, if it moved.
    fn goto_from(&mut self, cell: Point, area: &Area, rng: &mut rand::rngs::ThreadRng) -> (r: Option<
        Point,
    >)
        requires
            old(self).wf(),
        ensures
            final(self).wf(),
            final(self).side() == old(self).side(),
            r is None ==> *final(self) == *old(self),
            r matches Some(q) ==> moved_to(old(self).cells(), final(self).cells(), key(cell), key(q))
                && step_ok(old(self).occupant(cell), cell, q, old(self).side(), Some(*area)),
            must_go(*old(self), cell, *area) ==> r is Some,
            old(self).occupied(cell) && mobile(old(self).occupant(cell)) && old(self).occupant(
                cell,
            ).working && old(self).has_vacancy(*area) ==> (r matches Some(q) && area.contains_spec(q)),
            old(self).occupied(cell) && mobile(old(self).occupant(cell)) && old(self).occupant(
                cell,
            ).working && !old(self).has_vacancy(*area) && !old(self).occupied(
                old(self).occupant(cell).home_location.start,
            ) ==> r == Some(old(self).occupant(cell).home_location.start),
    {
        let agent = match self.get(&cell) {
            Some(a) => a,
            None => return None,
        };
        if !agent.can_move() {
            return None;
        }
        if agent.working {
            let vacant = self.vacant_cells_in(area);
            proof {
                if self.has_vacancy(*area) {
                    let p = choose|p: Point| #[trigger] area.contains_spec(p) && !self.occupied(p);
                    assert(vacant@.contains(p));
                }
                if vacant@.len() > 0 {
                    assert(vacant@.contains(vacant@[0]));
                    assert(area.contains_spec(vacant@[0]));
                }
            }
            let target = get_random_element_from(rng, &vacant, agent.home_location.start);
            proof {
                if vacant@.len() > 0 {
                    assert(area.contains_spec(target));
                }
            }
            if self.move_citizen(agent, cell, target) {
                return Some(target);
            }
            return None;
        }
        self.move_agent_from(cell, rng)
    }

    /// Sends every worker that may move to a free cell of `area`, or home
    /// when `area` is full; the others step to a neighbouring cell. The
    /// occupied cells are read once, before any move.
    #[verifier::rlimit(50)]
    pub fn goto(&mut self, area: Area)
        requires
            old(self).wf(),
        ensures
            final(self).wf(),
            final(self).side() == old(self).side(),
            final(self).cells().len() == old(self).cells().len(),
            forall|s: State| #[trigger] count_in(final(self).cells(), s) == count_in(old(self).cells(), s),
            keeps_immobile(old(self).cells(), final(self).cells()),
            forall|k: (i32, i32)|
                #[trigger] final(self).cells().contains_key(k) ==> came_within(
                    old(self).cells(),
                    final(self).cells(),
                    k,
                    walk(old(self).side(), Some(area)),
                ),
            forall|k0: (i32, i32)|
                #[trigger] old(self).cells().contains_key(k0) ==> placed(
                    old(self).cells(),
                    final(self).cells(),
                    k0,
                    walk(old(self).side(), Some(area)),
                    seq![],
                ),
            (exists|p: Point| #[trigger] must_go(*old(self), p, area)) ==> final(self).cells()
                != old(self).cells(),
    {
        let mut rng = fresh_rng();
        let keys = table_keys(&self.agent_cell);
        let ghost mut first: Option<(i32, i32)> = None;
        proof {
            lemma_pass_start(old(self).cells(), keys@, walk(old(self).side(), Some(area)));
        }
        let mut i: usize = 0;
        while i < keys.len()
            invariant
                self.wf(),
                self.side() == old(self).side(),
                self.cells().len() == old(self).cells().len(),
                forall|s: State| #[trigger] count_in(self.cells(), s) == count_in(old(self).cells(), s),
                keeps_immobile(old(self).cells(), self.cells()),
                keys@.no_duplicates(),
                forall|k: (i32, i32)| keys@.contains(k) <==> old(self).cells().contains_key(k),
                0 <= i <= keys@.len(),
                pass_inv(old(self).cells(), self.cells(), keys@, i as int, walk(old(self).side(), Some(area))),
                first is None ==> *self == *old(self),
                first matches Some(q0) ==> self.cells().contains_key(q0) && !old(
                    self,
                ).cells().contains_key(q0),
                forall|j: int|
                    0 <= j < i && #[trigger] must_go(*old(self), at(keys@[j]), area) ==> first is Some,
            decreases keys@.len() - i,
        {
            let ghost before = self.cells();
            let k = keys[i];
            proof {
                assert(keys@.contains(k));
            }
            let moved = self.goto_from(Point { x: k.0, y: k.1 }, &area, &mut rng);
            proof {
                assert(at(k) == Point { x: k.0, y: k.1 });
                let mk: Option<((i32, i32), Citizen)> = match moved {
                    Some(q) => Some((key(q), before[k])),
                    None => None,
                };
                if let Some(q) = moved {
                    lemma_relocation(old(self).cells(), before, self.cells(), k, key(q));
                    assert(at(key(q)) == q);
                    if first is None {
                        first = Some(key(q));
                    } else {
                        assert(first->0 != k);
                    }
                }
                lemma_pass_step(
                    old(self).cells(),
                    keys@,
                    i as int,
                    before,
                    self.cells(),
                    mk,
                    walk(old(self).side(), Some(area)),
                );
            }
            i = i + 1;
        }
        proof {
            if exists|p: Point| #[trigger] must_go(*old(self), p, area) {
                let p = choose|p: Point| #[trigger] must_go(*old(self), p, area);
                assert(keys@.contains(key(p)));
                let j = choose|j: int| 0 <= j < keys@.len() && keys@[j] == key(p);
                assert(at(keys@[j]) == p);
                assert(first is Some);
                assert(!old(self).cells().contains_key(first->0));
            }
            lemma_pass_end(old(self).cells(), self.cells(), keys@, walk(old(self).side(), Some(area)));
        }
    }
}

impl AgentLocationMap {
    /// Removes the departing citizens, after checking every departure first:
    /// on any error nothing changes. Each departure frees its cell and its
    /// citizen's place in its house, and in its office if it works.
    pub fn remove_migrators(&mut self, outgoing: &Vec<(Point, Migrator)>, grid: &mut Grid) -> (r:
        Result<(), MapError>)
        requires
            old(self).wf(),
            old(grid).wf(),
        ensures
            final(self).wf(),
            final(grid).wf(),
            final(self).side() == old(self).side(),
            r is Ok <==> departures_valid(old(self).cells(), outgoing@),
            r is Err ==> *final(self) == *old(self) && *final(grid) == *old(grid),
            r is Ok ==> final(self).cells() == old(self).cells().remove_keys(
                departure_cells(outgoing@, outgoing@.len() as int),
            ) && final(self).cells().len() == old(self).cells().len() - outgoing@.len(),
            r matches Err(MapError::NoCitizenAt { x, y }) ==> !old(self).cells().contains_key((x, y)),
            r matches Err(MapError::RepeatedCell { x, y }) ==> exists|a: int, b: int|
                0 <= a < b < outgoing@.len() && key(#[trigger] outgoing@[a].0) == (x, y) && key(
                    #[trigger] outgoing@[b].0,
                ) == (x, y),
            r matches Err(MapError::DeceasedTraveller { id }) ==> exists|i: int|
                0 <= i < outgoing@.len() && #[trigger] outgoing@[i].1.id == id,
            final(grid).houses == old(grid).houses,
            final(grid).offices == old(grid).offices,
            r is Ok ==> forall|h: int|
                0 <= h < old(grid).houses@.len() ==> #[trigger] final(grid).house_occupants@[h]
                    == less_or_zero(
                    old(grid).house_occupants@[h] as int,
                    leaving_home(old(self).cells(), outgoing@, outgoing@.len() as int, old(grid).houses@[h]) as int,
                ),
            r is Ok ==> forall|h: int|
                0 <= h < old(grid).offices@.len() ==> #[trigger] final(grid).office_occupants@[h]
                    == less_or_zero(
                    old(grid).office_occupants@[h] as int,
                    leaving_work(old(self).cells(), outgoing@, outgoing@.len() as int, old(grid).offices@[h]) as int,
                ),
    {
        let mut i: usize = 0;
        while i < outgoing.len()
            invariant
                self.wf(),
                grid.wf(),
                *self == *old(self),
                *grid == *old(grid),
                0 <= i <= outgoing@.len(),
                forall|a: int|
                    0 <= a < i ==> {
                        let k = key(#[trigger] outgoing@[a].0);
                        &&& self.cells().contains_key(k)
                        &&& self.cells()[k].state != State::Deceased
                        &&& outgoing@[a].1.state != State::Deceased
                    },
                forall|a: int, b: int|
                    0 <= a < b < i ==> key(#[trigger] outgoing@[a].0) != key(#[trigger] outgoing@[b].0),
            decreases outgoing@.len() - i,
        {
            let (p, m) = outgoing[i];
            if m.state == State::Deceased {
                return Err(MapError::DeceasedTraveller { id: m.id });
            }
            match self.get(&p) {
                None => return Err(MapError::NoCitizenAt { x: p.x, y: p.y }),
                Some(c) => {
                    if c.is_deceased() {
                        return Err(MapError::DeceasedTraveller { id: m.id });
                    }
                },
            }
            let mut j: usize = 0;
            while j < i
                invariant
                    0 <= j <= i < outgoing@.len(),
                    self.wf(),
                    grid.wf(),
                    *self == *old(self),
                    *grid == *old(grid),
                    p == outgoing@[i as int].0,
                    forall|a: int| 0 <= a < j ==> key(#[trigger] outgoing@[a].0) != key(p),
                decreases i - j,
            {
                let q = outgoing[j].0;
                if q.x == p.x && q.y == p.y {
                    proof {
                        assert(key(outgoing@[j as int].0) == (p.x, p.y));
                        assert(key(outgoing@[i as int].0) == (p.x, p.y));
                    }
                    return Err(MapError::RepeatedCell { x: p.x, y: p.y });
                }
                j = j + 1;
            }
            i = i + 1;
        }
        let ghost start = self.cells();
        proof {
            assert(start.remove_keys(departure_cells(outgoing@, 0)) =~= start);
        }
        let mut i: usize = 0;
        while i < outgoing.len()
            invariant
                self.wf(),
                grid.wf(),
                self.side() == old(self).side(),
                grid.houses == old(grid).houses,
                grid.offices == old(grid).offices,
                departures_valid(start, outgoing@),
                0 <= i <= outgoing@.len(),
                self.cells() == start.remove_keys(departure_cells(outgoing@, i as int)),
                self.cells().len() == start.len() - i,
                start == old(self).cells(),
                forall|h: int|
                    0 <= h < old(grid).houses@.len() ==> #[trigger] grid.house_occupants@[h]
                        == less_or_zero(
                        old(grid).house_occupants@[h] as int,
                        leaving_home(start, outgoing@, i as int, old(grid).houses@[h]) as int,
                    ),
                forall|h: int|
                    0 <= h < old(grid).offices@.len() ==> #[trigger] grid.office_occupants@[h]
                        == less_or_zero(
                        old(grid).office_occupants@[h] as int,
                        leaving_work(start, outgoing@, i as int, old(grid).offices@[h]) as int,
                    ),
            decreases outgoing@.len() - i,
        {
            let k = (outgoing[i].0.x, outgoing[i].0.y);
            proof {
                assert(!departure_cells(outgoing@, i as int).contains(k)) by {
                    if departure_cells(outgoing@, i as int).contains(k) {
                        let j = choose|j: int| 0 <= j < i && key(#[trigger] outgoing@[j].0) == k;
                        assert(key(outgoing@[j].0) != key(outgoing@[i as int].0));
                    }
                }
                assert(start.contains_key(k));
            }
            let c = self.take_out(k);
            let ghost g0 = *grid;
            grid.remove_house_occupant(&c.home_location);
            let ghost g1 = *grid;
            if c.is_working() {
                grid.remove_office_occupant(&c.work_location);
            }
            proof {
                assert(c == start[key(outgoing@[i as int].0)]);
                assert forall|h: int| 0 <= h < old(grid).houses@.len() implies #[trigger] grid.house_occupants@[h]
                    == less_or_zero(
                    old(grid).house_occupants@[h] as int,
                    leaving_home(start, outgoing@, i + 1, old(grid).houses@[h]) as int,
                ) by {
                    assert(g1.house_occupants@[h] == crate::grid::removed(g0.houses@, g0.house_occupants@, c.home_location, h));
                }
                assert forall|h: int| 0 <= h < old(grid).offices@.len() implies #[trigger] grid.office_occupants@[h]
                    == less_or_zero(
                    old(grid).office_occupants@[h] as int,
                    leaving_work(start, outgoing@, i + 1, old(grid).offices@[h]) as int,
                ) by {
                    if c.working {
                        assert(grid.office_occupants@[h] == crate::grid::removed(g1.offices@, g1.office_occupants@, c.work_location, h));
                    }
                }
                assert(self.cells() =~= start.remove_keys(departure_cells(outgoing@, i + 1))) by {
                    assert forall|kk: (i32, i32)| departure_cells(outgoing@, i + 1).contains(kk)
                        <==> departure_cells(outgoing@, i as int).contains(kk) || kk == k by {
                        if kk == k {
                            assert(key(outgoing@[i as int].0) == kk);
                        }
                    }
                }
            }
            i = i + 1;
        }
        Ok(())
    }
}

impl AgentLocationMap {
    /// A free cell of `area` drawn at random, when there is one and the map
    /// can take one more citizen.
    fn find_place(&self, area: &Area, rng: &mut rand::rngs::ThreadRng) -> (r: Option<Point>)
        requires
            self.wf(),
        ensures
            r matches Some(p) ==> area.contains_spec(p) && !self.occupied(p) && self.cells().len()
                < usize::MAX,
            r is None ==> !self.has_vacancy(*area) || self.cells().len() == usize::MAX,
    {
        if table_len(&self.agent_cell) == usize::MAX {
            return None;
        }
        let vacant = self.vacant_cells_in(area);
        if vacant.len() == 0 {
            proof {
                if self.has_vacancy(*area) {
                    let p = choose|p: Point| #[trigger] area.contains_spec(p) && !self.occupied(p);
                    assert(vacant@.contains(p));
                }
            }
            return None;
        }
        let p = get_random_element_from(rng, &vacant, area.start);
        Some(p)
    }

    /// Settles the incoming migrators, after checking that none is dead (on
    /// that error nothing changes). Each gets a house with room, an office
    /// with room if it works, and a free cell of the housing area drawn at
    /// random. When no house, office or cell is left the call stops with
    /// `NoRoom`, keeping those already settled.
    pub fn assimilate_migrators(
        &mut self,
        incoming: &Vec<Migrator>,
        grid: &mut Grid,
        rng: &mut rand::rngs::ThreadRng,
    ) -> (r: Result<(), MapError>)
        requires
            old(self).wf(),
            old(grid).wf(),
        ensures
            final(self).wf(),
            final(grid).wf(),
            final(self).side() == old(self).side(),
            r matches Err(MapError::DeceasedTraveller { .. }) <==> exists|i: int|
                0 <= i < incoming@.len() && #[trigger] incoming@[i].state == State::Deceased,
            r matches Err(MapError::DeceasedTraveller { .. }) ==> *final(self) == *old(self) && *final(grid) == *old(grid),
            r is Ok || r matches Err(MapError::DeceasedTraveller { .. }) || r matches Err(MapError::NoRoom),
            r matches Err(MapError::NoRoom) ==> all_full(final(grid).house_occupants@, final(grid).house_capacity)
                || ((exists|w: int| 0 <= w < incoming@.len() && #[trigger] incoming@[w].working) && all_full(final(grid).office_occupants@, final(grid).office_capacity))
                || !final(self).has_vacancy(final(grid).housing_area) || final(self).cells().len()
                == usize::MAX,
            keeps_all(old(self).cells(), final(self).cells()),
            r is Ok ==> final(self).cells().len() == old(self).cells().len() + incoming@.len(),
            r is Ok ==> forall|s: State| #[trigger] count_in(final(self).cells(), s) == count_in(
                old(self).cells(),
                s,
            ) + arrivals_in(incoming@.map_values(|m: Migrator| m.state), s),
            final(grid).houses == old(grid).houses,
            final(grid).offices == old(grid).offices,
            r is Ok ==> forall|i: int|
                0 <= i < incoming@.len() ==> settled(
                    old(self).cells(),
                    final(self).cells(),
                    #[trigger] incoming@[i],
                    old(grid).housing_area,
                ),
    {
        let mut i: usize = 0;
        while i < incoming.len()
            invariant
                0 <= i <= incoming@.len(),
                self.wf(),
                grid.wf(),
                *self == *old(self),
                *grid == *old(grid),
                forall|a: int| 0 <= a < i ==> #[trigger] incoming@[a].state != State::Deceased,
            decreases incoming@.len() - i,
        {
            if incoming[i].state == State::Deceased {
                return Err(MapError::DeceasedTraveller { id: incoming[i].id });
            }
            i = i + 1;
        }
        let ghost states = incoming@.map_values(|m: Migrator| m.state);
        proof {
            assert(states.take(0) =~= Seq::<State>::empty());
            assert forall|s: State| #[trigger] arrivals_in(states.take(0), s) == 0 by {
                assert(states.take(0).filter(|t: State| t == s) =~= Seq::<State>::empty());
            }
        }
        let mut i: usize = 0;
        while i < incoming.len()
            invariant
                self.wf(),
                grid.wf(),
                self.side() == old(self).side(),
                grid.houses == old(grid).houses,
                grid.offices == old(grid).offices,
                0 <= i <= incoming@.len(),
                states == incoming@.map_values(|m: Migrator| m.state),
                forall|a: int| 0 <= a < incoming@.len() ==> #[trigger] incoming@[a].state != State::Deceased,
                keeps_all(old(self).cells(), self.cells()),
                self.cells().len() == old(self).cells().len() + i,
                grid.housing_area == old(grid).housing_area,
                forall|j: int|
                    0 <= j < i ==> settled(
                        old(self).cells(),
                        self.cells(),
                        #[trigger] incoming@[j],
                        old(grid).housing_area,
                    ),
                forall|s: State| #[trigger] count_in(self.cells(), s) == count_in(old(self).cells(), s)
                    + arrivals_in(states.take(i as int), s),
            decreases incoming@.len() - i,
        {
            let m = incoming[i];
            let house = match grid.choose_house_with_free_space(rng) {
                Some(h) => h,
                None => return Err(MapError::NoRoom),
            };
            let office = if m.working {
                match grid.choose_office_with_free_space(rng) {
                    Some(o) => o,
                    None => {
                        proof {
                            assert(incoming@[i as int].working);
                        }
                        return Err(MapError::NoRoom);
                    },
                }
            } else {
                house
            };
            let p = match self.find_place(&grid.housing_area, rng) {
                Some(p) => p,
                None => return Err(MapError::NoRoom),
            };
            let c = Citizen::from_migrator(&m, house, office, p);
            grid.add_house_occupant(&house);
            if m.working {
                grid.add_office_occupant(&office);
            }
            let ghost before = self.cells();
            self.put_new((p.x, p.y), c);
            proof {
                assert(at(key(p)) == p);
                assert(!old(self).cells().contains_key(key(p)));
                assert(settled(old(self).cells(), self.cells(), m, old(grid).housing_area)) by {
                    assert(self.cells()[key(p)] == migrant(m, house, office, at(key(p))));
                }
                assert forall|j: int| 0 <= j < i + 1 implies settled(
                    old(self).cells(),
                    self.cells(),
                    #[trigger] incoming@[j],
                    old(grid).housing_area,
                ) by {
                    if j < i {
                        assert(settled(old(self).cells(), before, incoming@[j], old(grid).housing_area));
                        let (k, h, o) = choose|k: (i32, i32), h: Area, o: Area|
                            before.contains_key(k) && !old(self).cells().contains_key(k)
                                && old(grid).housing_area.contains_spec(at(k)) && before[k]
                                == #[trigger] migrant(incoming@[j], h, o, at(k)) && (!incoming@[j].working
                                ==> o == h);
                        assert(k != key(p));
                        assert(self.cells()[k] == migrant(incoming@[j], h, o, at(k)));
                    }
                }
                assert(states.take(i + 1) =~= states.take(i as int).push(m.state));
                assert forall|s: State| #[trigger] count_in(self.cells(), s) == count_in(old(self).cells(), s)
                    + arrivals_in(states.take(i + 1), s) by {
                    lemma_count_insert(before, key(p), c, s);
                    states.take(i as int).lemma_filter_push(m.state, |t: State| t == s);
                }
            }
            i = i + 1;
        }
        proof {
            assert(states.take(incoming@.len() as int) =~= states);
        }
        Ok(())
    }

    /// Takes in the incoming commuters, after checking that none is dead (on
    /// that error nothing changes). Each gets an office with room and a free
    /// cell of the housing area drawn at random, and keeps its own home and
    /// work areas. When no office or cell is left the call stops with
    /// `NoRoom`, keeping those already taken in.
    pub fn assimilate_commuters(
        &mut self,
        incoming: &Vec<Commuter>,
        grid: &mut Grid,
        rng: &mut rand::rngs::ThreadRng,
    ) -> (r: Result<(), MapError>)
        requires
            old(self).wf(),
            old(grid).wf(),
        ensures
            final(self).wf(),
            final(grid).wf(),
            final(self).side() == old(self).side(),
            r matches Err(MapError::DeceasedTraveller { .. }) <==> exists|i: int|
                0 <= i < incoming@.len() && #[trigger] incoming@[i].state == State::Deceased,
            r matches Err(MapError::DeceasedTraveller { .. }) ==> *final(self) == *old(self) && *final(grid) == *old(grid),
            r is Ok || r matches Err(MapError::DeceasedTraveller { .. }) || r matches Err(MapError::NoRoom),
            r matches Err(MapError::NoRoom) ==> all_full(final(grid).office_occupants@, final(grid).office_capacity)
                || !final(self).has_vacancy(final(grid).housing_area) || final(self).cells().len()
                == usize::MAX,
            keeps_all(old(self).cells(), final(self).cells()),
            r is Ok ==> final(self).cells().len() == old(self).cells().len() + incoming@.len(),
            r is Ok ==> forall|s: State| #[trigger] count_in(final(self).cells(), s) == count_in(
                old(self).cells(),
                s,
            ) + arrivals_in(incoming@.map_values(|c: Commuter| c.state), s),
            final(grid).houses == old(grid).houses,
            final(grid).offices == old(grid).offices,
            r is Ok ==> forall|i: int|
                0 <= i < incoming@.len() ==> visiting(
                    old(self).cells(),
                    final(self).cells(),
                    #[trigger] incoming@[i],
                    old(grid).housing_area,
                ),
    {
        let mut i: usize = 0;
        while i < incoming.len()
            invariant
                0 <= i <= incoming@.len(),
                self.wf(),
                grid.wf(),
                *self == *old(self),
                *grid == *old(grid),
                forall|a: int| 0 <= a < i ==> #[trigger] incoming@[a].state != State::Deceased,
            decreases incoming@.len() - i,
        {
            if incoming[i].state == State::Deceased {
                return Err(MapError::DeceasedTraveller { id: incoming[i].id });
            }
            i = i + 1;
        }
        let ghost states = incoming@.map_values(|c: Commuter| c.state);
        proof {
            assert forall|s: State| #[trigger] arrivals_in(states.take(0), s) == 0 by {
                assert(states.take(0).filter(|t: State| t == s) =~= Seq::<State>::empty());
            }
        }
        let mut i: usize = 0;
        while i < incoming.len()
            invariant
                self.wf(),
                grid.wf(),
                self.side() == old(self).side(),
                grid.houses == old(grid).houses,
                grid.offices == old(grid).offices,
                0 <= i <= incoming@.len(),
                states == incoming@.map_values(|c: Commuter| c.state),
                forall|a: int| 0 <= a < incoming@.len() ==> #[trigger] incoming@[a].state != State::Deceased,
                keeps_all(old(self).cells(), self.cells()),
                self.cells().len() == old(self).cells().len() + i,
                grid.housing_area == old(grid).housing_area,
                forall|j: int|
                    0 <= j < i ==> visiting(
                        old(self).cells(),
                        self.cells(),
                        #[trigger] incoming@[j],
                        old(grid).housing_area,
                    ),
                forall|s: State| #[trigger] count_in(self.cells(), s) == count_in(old(self).cells(), s)
                    + arrivals_in(states.take(i as int), s),
            decreases incoming@.len() - i,
        {
            let commuter = incoming[i];
            let office = match grid.choose_office_with_free_space(rng) {
                Some(o) => o,
                None => return Err(MapError::NoRoom),
            };
            let p = match self.find_place(&grid.housing_area, rng) {
                Some(p) => p,
                None => return Err(MapError::NoRoom),
            };
            let c = Citizen::from_commuter(&commuter, p);
            grid.add_office_occupant(&office);
            let ghost before = self.cells();
            self.put_new((p.x, p.y), c);
            proof {
                assert(at(key(p)) == p);
                assert(!old(self).cells().contains_key(key(p)));
                assert(visiting(old(self).cells(), self.cells(), commuter, old(grid).housing_area)) by {
                    assert(self.cells()[key(p)] == visitor(commuter, at(key(p))));
                }
                assert forall|j: int| 0 <= j < i + 1 implies visiting(
                    old(self).cells(),
                    self.cells(),
                    #[trigger] incoming@[j],
                    old(grid).housing_area,
                ) by {
                    if j < i {
                        assert(visiting(old(self).cells(), before, incoming@[j], old(grid).housing_area));
                        let k = choose|k: (i32, i32)|
                            before.contains_key(k) && !old(self).cells().contains_key(k)
                                && old(grid).housing_area.contains_spec(at(k)) && before[k]
                                == #[trigger] visitor(incoming@[j], at(k));
                        assert(k != key(p));
                        assert(self.cells()[k] == visitor(incoming@[j], at(k)));
                    }
                }
                assert(states.take(i + 1) =~= states.take(i as int).push(commuter.state));
                assert forall|s: State| #[trigger] count_in(self.cells(), s) == count_in(old(self).cells(), s)
                    + arrivals_in(states.take(i + 1), s) by {
                    lemma_count_insert(before, key(p), c, s);
                    states.take(i as int).lemma_filter_push(commuter.state, |t: State| t == s);
                }
            }
            i = i + 1;
        }
        proof {
            assert(states.take(incoming@.len() as int) =~= states);
        }
        Ok(())
    }
}

impl AgentLocationMap {
    /// Empties the map, making room for `size` citizens.
    pub fn init_with_capacity(&mut self, size: usize)
        ensures
            final(self).wf(),
            final(self).cells().len() == 0,
            final(self).side() == old(self).side(),
    {
        self.agent_cell = table_with_capacity(size);
        self.counts = Counts::new();
        proof {
            assert(self.cells().dom() =~= Set::empty());
            assert forall|s: State| #[trigger] self.tally().bucket(s) == count_in(self.cells(), s) by {
                assert(self.cells().dom().filter(|k: (i32, i32)| self.cells()[k].state == s)
                    =~= Set::empty());
            }
        }
    }

    /// Every occupied cell with its occupant, each once, in no given order.
    pub fn iter(&self) -> (r: Vec<(Point, Citizen)>)
        requires
            self.wf(),
        ensures
            r@.len() == self.cells().len(),
            forall|i: int|
                0 <= i < r@.len() ==> self.occupied(#[trigger] r@[i].0) && self.occupant(r@[i].0)
                    == r@[i].1,
            forall|k: (i32, i32)|
                self.cells().contains_key(k) ==> exists|i: int|
                    0 <= i < r@.len() && key(#[trigger] r@[i].0) == k,
            forall|i: int, j: int|
                0 <= i < j < r@.len() ==> key(#[trigger] r@[i].0) != key(#[trigger] r@[j].0),
    {
        let keys = table_keys(&self.agent_cell);
        proof {
            assert(keys@.to_set() =~= self.cells().dom());
            keys@.unique_seq_to_set();
        }
        let mut out: Vec<(Point, Citizen)> = Vec::new();
        let mut i: usize = 0;
        while i < keys.len()
            invariant
                0 <= i <= keys@.len(),
                keys@.no_duplicates(),
                forall|k: (i32, i32)| keys@.contains(k) <==> self.cells().contains_key(k),
                out@.len() == i,
                forall|j: int|
                    0 <= j < i ==> key(#[trigger] out@[j].0) == keys@[j] && self.occupied(out@[j].0)
                        && self.occupant(out@[j].0) == out@[j].1,
            decreases keys@.len() - i,
        {
            let k = keys[i];
            proof {
                assert(keys@.contains(k));
            }
            let c = table_get(&self.agent_cell, k).unwrap();
            out.push((Point { x: k.0, y: k.1 }, c));
            i = i + 1;
        }
        proof {
            assert forall|k: (i32, i32)| self.cells().contains_key(k) implies exists|i: int|
                0 <= i < out@.len() && key(#[trigger] out@[i].0) == k by {
                let j = choose|j: int| 0 <= j < keys@.len() && keys@[j] == k;
                assert(key(out@[j].0) == k);
            }
            assert forall|a: int, b: int| 0 <= a < b < out@.len() implies key(#[trigger] out@[a].0)
                != key(#[trigger] out@[b].0) by {
                assert(keys@[a] != keys@[b]);
            }
        }
        out
    }
}

/// The per-state totals of a well-formed map add up to its population: each
/// citizen counts once, the dead in the deceased bucket.
pub proof fn lemma_counts_cover_population(m: AgentLocationMap)
    requires
        m.wf(),
    ensures
        m.tally().bucket(State::Susceptible) + m.tally().bucket(State::Exposed) + m.tally().bucket(
            State::Infected,
        ) + m.tally().bucket(State::Quarantined) + m.tally().bucket(State::Recovered)
            + m.tally().bucket(State::Deceased) == m.cells().len(),
        total_of(m.cells()) == m.cells().len(),
{
    lemma_total_is_population(m.cells());
    assert(m.tally().bucket(State::Susceptible) == count_in(m.cells(), State::Susceptible));
    assert(m.tally().bucket(State::Exposed) == count_in(m.cells(), State::Exposed));
    assert(m.tally().bucket(State::Infected) == count_in(m.cells(), State::Infected));
    assert(m.tally().bucket(State::Quarantined) == count_in(m.cells(), State::Quarantined));
    assert(m.tally().bucket(State::Recovered) == count_in(m.cells(), State::Recovered));
    assert(m.tally().bucket(State::Deceased) == count_in(m.cells(), State::Deceased));
}

/// Evicting valid departures and then settling arrivals in the same states,
/// one for each departure, leaves every per-state total as it was.
pub proof fn lemma_migration_round_trip(
    before: Map<(i32, i32), Citizen>,
    outgoing: Seq<(Point, Migrator)>,
    arrivals: Seq<State>,
)
    requires
        before.dom().finite(),
        departures_valid(before, outgoing),
        arrivals.len() == outgoing.len(),
        forall|i: int|
            0 <= i < outgoing.len() ==> #[trigger] arrivals[i] == before[key(outgoing[i].0)].state,
    ensures
        forall|s: State|
            #[trigger] count_in(before.remove_keys(departure_cells(outgoing, outgoing.len() as int)), s)
                + arrivals_in(arrivals, s) == count_in(before, s),
{
    lemma_round_trip_prefix(before, outgoing, arrivals, outgoing.len() as int);
    assert(arrivals.take(outgoing.len() as int) =~= arrivals);
}

proof fn lemma_round_trip_prefix(
    before: Map<(i32, i32), Citizen>,
    outgoing: Seq<(Point, Migrator)>,
    arrivals: Seq<State>,
    n: int,
)
    requires
        before.dom().finite(),
        departures_valid(before, outgoing),
        arrivals.len() == outgoing.len(),
        forall|i: int|
            0 <= i < outgoing.len() ==> #[trigger] arrivals[i] == before[key(outgoing[i].0)].state,
        0 <= n <= outgoing.len(),
    ensures
        before.remove_keys(departure_cells(outgoing, n)).dom().finite(),
        forall|s: State|
            #[trigger] count_in(before.remove_keys(departure_cells(outgoing, n)), s) + arrivals_in(
                arrivals.take(n),
                s,
            ) == count_in(before, s),
    decreases n,
{
    if n == 0 {
        assert(before.remove_keys(departure_cells(outgoing, 0)) =~= before);
        assert forall|s: State| #[trigger] arrivals_in(arrivals.take(0), s) == 0 by {
            assert(arrivals.take(0).filter(|t: State| t == s) =~= Seq::<State>::empty());
        }
    } else {
        lemma_round_trip_prefix(before, outgoing, arrivals, n - 1);
        let prev = before.remove_keys(departure_cells(outgoing, n - 1));
        let k = key(outgoing[n - 1].0);
        assert(!departure_cells(outgoing, n - 1).contains(k)) by {
            if departure_cells(outgoing, n - 1).contains(k) {
                let j = choose|j: int| 0 <= j < n - 1 && key(#[trigger] outgoing[j].0) == k;
                assert(key(outgoing[j].0) != key(outgoing[n - 1].0));
            }
        }
        assert(prev.contains_key(k));
        assert(before.remove_keys(departure_cells(outgoing, n)) =~= prev.remove(k)) by {
            assert forall|kk: (i32, i32)| departure_cells(outgoing, n).contains(kk)
                <==> departure_cells(outgoing, n - 1).contains(kk) || kk == k by {
                if kk == k {
                    assert(key(outgoing[n - 1].0) == kk);
                }
            }
        }
        assert(arrivals.take(n) =~= arrivals.take(n - 1).push(arrivals[n - 1]));
        assert forall|s: State| #[trigger] count_in(before.remove_keys(departure_cells(outgoing, n)), s)
            + arrivals_in(arrivals.take(n), s) == count_in(before, s) by {
            lemma_count_remove(prev, k, s);
            arrivals.take(n - 1).lemma_filter_push(arrivals[n - 1], |t: State| t == s);
            assert(count_in(prev, s) + arrivals_in(arrivals.take(n - 1), s) == count_in(before, s));
        }
    }
}

} // verus!
