use vstd::prelude::*;
use crate::citizen::Citizen;

verus! {

/// The table from cell to occupant, kept in a hash map of the `hashbrown`
/// crate with the `fnv` hasher. A cell is keyed by its two coordinates.
#[verifier::external_body]
pub struct CellTable {
    table: hashbrown::HashMap<(i32, i32), Citizen, fnv::FnvBuildHasher>,
}

/// What a table holds: each occupied cell with its occupant.
pub uninterp spec fn cells_of(t: CellTable) -> Map<(i32, i32), Citizen>;

/// The contents of an empty table.
pub open spec fn no_cells() -> Map<(i32, i32), Citizen> {
    Map::empty()
}

/// Relies on hashbrown::HashMap::with_hasher: the new map is empty.
#[verifier::external_body]
pub(crate) fn table_new() -> (r: CellTable)
    ensures
        cells_of(r) == no_cells(),
{
    CellTable { table: hashbrown::HashMap::with_hasher(fnv::FnvBuildHasher::default()) }
}

/// Relies on hashbrown::HashMap::with_capacity_and_hasher: the new map is
/// empty.
#[verifier::external_body]
pub(crate) fn table_with_capacity(size: usize) -> (r: CellTable)
    ensures
        cells_of(r) == no_cells(),
{
    CellTable {
        table: hashbrown::HashMap::with_capacity_and_hasher(size, fnv::FnvBuildHasher::default()),
    }
}

/// Relies on hashbrown::HashMap::contains_key.
#[verifier::external_body]
pub(crate) fn table_contains(t: &CellTable, k: (i32, i32)) -> (r: bool)
    ensures
        r == cells_of(*t).contains_key(k),
{
    t.table.contains_key(&k)
}

/// Relies on hashbrown::HashMap::get, copying the occupant out.
#[verifier::external_body]
pub(crate) fn table_get(t: &CellTable, k: (i32, i32)) -> (r: Option<Citizen>)
    ensures
        cells_of(*t).contains_key(k) ==> r == Some(cells_of(*t)[k]),
        !cells_of(*t).contains_key(k) ==> r is None,
{
    t.table.get(&k).copied()
}

/// Relies on hashbrown::HashMap::insert: sets the value of the key and hands
/// back the value it had.
#[verifier::external_body]
pub(crate) fn table_insert(t: &mut CellTable, k: (i32, i32), v: Citizen) -> (r: Option<Citizen>)
    ensures
        cells_of(*final(t)) == cells_of(*old(t)).insert(k, v),
        cells_of(*old(t)).contains_key(k) ==> r == Some(cells_of(*old(t))[k]),
        !cells_of(*old(t)).contains_key(k) ==> r is None,
{
    t.table.insert(k, v)
}

/// Relies on hashbrown::HashMap::remove: drops the key and hands back its value.
#[verifier::external_body]
pub(crate) fn table_remove(t: &mut CellTable, k: (i32, i32)) -> (r: Option<Citizen>)
    ensures
        cells_of(*final(t)) == cells_of(*old(t)).remove(k),
        cells_of(*old(t)).contains_key(k) ==> r == Some(cells_of(*old(t))[k]),
        !cells_of(*old(t)).contains_key(k) ==> r is None,
{
    t.table.remove(&k)
}

/// Relies on hashbrown::HashMap::len: the number of keys.
#[verifier::external_body]
pub(crate) fn table_len(t: &CellTable) -> (r: usize)
    ensures
        r == cells_of(*t).len(),
{
    t.table.len()
}

/// Relies on hashbrown::HashMap::keys: every key once, in no given order.
#[verifier::external_body]
pub(crate) fn table_keys(t: &CellTable) -> (r: Vec<(i32, i32)>)
    ensures
        r@.no_duplicates(),
        forall|k: (i32, i32)| r@.contains(k) <==> cells_of(*t).contains_key(k),
{
    t.table.keys().copied().collect()
}

/// Relies on hashbrown::HashMap::clear: the map is left empty.
#[verifier::external_body]
pub(crate) fn table_clear(t: &mut CellTable)
    ensures
        cells_of(*final(t)) == no_cells(),
{
    t.table.clear()
}

} // verus!
