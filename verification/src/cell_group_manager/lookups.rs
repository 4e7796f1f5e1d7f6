//! Lookups built from the inputs: cell groups and collections by identifier, detection
//! offsets both ways round, expected adjacencies both ways round, and dependencies grouped by
//! cell group.
use vstd::prelude::*;
use super::{
    CellGroup, CellGroupLocationCollection, CellGroupLocationDependency, cell_group_models,
    collection_models, dependency_models, detection_offset_models,
};
use super::lemmas::{
    lemma_dependencies_of, lemma_dependency_ids, lemma_keyed_map_unique, lemma_keyed_map_update,
    lemma_keys_unique_push,
};
use super::model::{
    DependencyModel, adjacency_lookup, cell_group_entries, cell_group_lookup, collection_entries,
    collection_lookup, dependencies_of, dependency_grouping, dependency_ids,
    directed_offset_entries, in_some_pair, keyed_map, keys_unique, paired,
};

verus! {

/// The position of the cell group with identifier `id` in `v`, if there is one.
pub fn find_cell_group(v: &Vec<CellGroup>, id: u64) -> (found: Option<usize>)
    ensures
        match found {
            Some(j) => j < v@.len() && v@[j as int].id == id,
            None => forall|i: int| 0 <= i < v@.len() ==> v@[i].id != id,
        },
{
    let mut i: usize = 0;
    while i < v.len()
        invariant
            i <= v@.len(),
            forall|k: int| 0 <= k < i ==> v@[k].id != id,
        decreases v@.len() - i,
    {
        if v[i].id == id {
            return Some(i);
        }
        i = i + 1;
    }
    None
}

/// The position of the collection with identifier `id` in `v`, if there is one.
pub fn find_collection(v: &Vec<CellGroupLocationCollection>, id: u64) -> (found: Option<usize>)
    ensures
        match found {
            Some(j) => j < v@.len() && v@[j as int].id == id,
            None => forall|i: int| 0 <= i < v@.len() ==> v@[i].id != id,
        },
{
    let mut i: usize = 0;
    while i < v.len()
        invariant
            i <= v@.len(),
            forall|k: int| 0 <= k < i ==> v@[k].id != id,
        decreases v@.len() - i,
    {
        if v[i].id == id {
            return Some(i);
        }
        i = i + 1;
    }
    None
}

/// The cell groups by identifier, a later cell group replacing an earlier one with the same
/// identifier.
pub fn index_cell_groups(cell_groups: Vec<CellGroup>) -> (lookup: Vec<CellGroup>)
    ensures
        keys_unique(cell_group_entries(cell_group_models(lookup@))),
        cell_group_lookup(cell_group_models(lookup@)) == cell_group_lookup(cell_group_models(cell_groups@)),
{
    let ghost input = cell_group_models(cell_groups@);
    let mut lookup: Vec<CellGroup> = Vec::new();
    for cell_group in it: cell_groups.into_iter()
        invariant
            it.seq() == cell_groups@,
            input == cell_group_models(cell_groups@),
            keys_unique(cell_group_entries(cell_group_models(lookup@))),
            keyed_map(cell_group_entries(cell_group_models(lookup@))) == keyed_map(
                cell_group_entries(input.take(it.index() as int)),
            ),
    {
        let ghost k = it.index() as int;
        let ghost before = lookup@;
        assert(cell_group_entries(input.take(k + 1)).drop_last() =~= cell_group_entries(
            input.take(k),
        ));
        assert(cell_group_entries(input.take(k + 1)).last() == (cell_group.id, cell_group@));
        assert(keyed_map(cell_group_entries(input.take(k + 1))) == keyed_map(
            cell_group_entries(input.take(k)),
        ).insert(cell_group.id, cell_group@));
        match find_cell_group(&lookup, cell_group.id) {
            Some(j) => {
                let ghost e = (cell_group.id, cell_group@);
                lookup.set(j, cell_group);
                assert(cell_group_entries(cell_group_models(lookup@)) =~= cell_group_entries(
                    cell_group_models(before),
                ).update(j as int, e));
                proof {
                    lemma_keyed_map_update(cell_group_entries(cell_group_models(before)), j as int, e);
                }
            },
            None => {
                let ghost e = (cell_group.id, cell_group@);
                lookup.push(cell_group);
                assert(cell_group_entries(cell_group_models(lookup@)) =~= cell_group_entries(
                    cell_group_models(before),
                ).push(e));
                proof {
                    lemma_keys_unique_push(cell_group_entries(cell_group_models(before)), e);
                    assert(cell_group_entries(cell_group_models(before)).push(e).drop_last()
                        =~= cell_group_entries(cell_group_models(before)));
                }
                assert(keyed_map(cell_group_entries(cell_group_models(lookup@))) == keyed_map(
                    cell_group_entries(cell_group_models(before)),
                ).insert(e.0, e.1));
            },
        }
    }
    assert(input.take(input.len() as int) =~= input);
    lookup
}

/// The collections by identifier, a later collection replacing an earlier one with the same
/// identifier.
pub fn index_collections(collections: Vec<CellGroupLocationCollection>) -> (lookup: Vec<CellGroupLocationCollection>)
    ensures
        keys_unique(collection_entries(collection_models(lookup@))),
        collection_lookup(collection_models(lookup@)) == collection_lookup(collection_models(collections@)),
{
    let ghost input = collection_models(collections@);
    let mut lookup: Vec<CellGroupLocationCollection> = Vec::new();
    for collection in it: collections.into_iter()
        invariant
            it.seq() == collections@,
            input == collection_models(collections@),
            keys_unique(collection_entries(collection_models(lookup@))),
            keyed_map(collection_entries(collection_models(lookup@))) == keyed_map(
                collection_entries(input.take(it.index() as int)),
            ),
    {
        let ghost k = it.index() as int;
        let ghost before = lookup@;
        assert(collection_entries(input.take(k + 1)).drop_last() =~= collection_entries(
            input.take(k),
        ));
        assert(collection_entries(input.take(k + 1)).last() == (collection.id, collection@.placements));
        assert(keyed_map(collection_entries(input.take(k + 1))) == keyed_map(
            collection_entries(input.take(k)),
        ).insert(collection.id, collection@.placements));
        match find_collection(&lookup, collection.id) {
            Some(j) => {
                let ghost e = (collection.id, collection@.placements);
                lookup.set(j, collection);
                assert(collection_entries(collection_models(lookup@)) =~= collection_entries(
                    collection_models(before),
                ).update(j as int, e));
                proof {
                    lemma_keyed_map_update(collection_entries(collection_models(before)), j as int, e);
                }
            },
            None => {
                let ghost e = (collection.id, collection@.placements);
                lookup.push(collection);
                assert(collection_entries(collection_models(lookup@)) =~= collection_entries(
                    collection_models(before),
                ).push(e));
                proof {
                    lemma_keys_unique_push(collection_entries(collection_models(before)), e);
                    assert(collection_entries(collection_models(before)).push(e).drop_last()
                        =~= collection_entries(collection_models(before)));
                }
                assert(keyed_map(collection_entries(collection_models(lookup@))) == keyed_map(
                    collection_entries(collection_models(before)),
                ).insert(e.0, e.1));
            },
        }
    }
    assert(input.take(input.len() as int) =~= input);
    lookup
}


/// A copy of `v`.
pub fn copy_locations(v: &Vec<(i32, i32)>) -> (copy: Vec<(i32, i32)>)
    ensures
        copy@ == v@,
{
    let mut copy: Vec<(i32, i32)> = Vec::new();
    let mut i: usize = 0;
    while i < v.len()
        invariant
            i <= v@.len(),
            copy@ == v@.take(i as int),
        decreases v@.len() - i,
    {
        copy.push(v[i]);
        i = i + 1;
        assert(copy@ =~= v@.take(i as int));
    }
    assert(v@.take(v@.len() as int) =~= v@);
    copy
}

/// Each list of detection offsets under both orders of its pair of cell group types.
pub fn direct_detection_offsets(detection_offsets: Vec<((u64, u64), Vec<(i32, i32)>)>) -> (directed: Vec<
    ((u64, u64), Vec<(i32, i32)>),
>)
    ensures
        detection_offset_models(directed@) == directed_offset_entries(detection_offset_models(detection_offsets@)),
{
    let ghost input = detection_offset_models(detection_offsets@);
    let mut directed: Vec<((u64, u64), Vec<(i32, i32)>)> = Vec::new();
    for entry in it: detection_offsets.into_iter()
        invariant
            it.seq() == detection_offsets@,
            input == detection_offset_models(detection_offsets@),
            detection_offset_models(directed@) == directed_offset_entries(input.take(it.index() as int)),
    {
        let ghost k = it.index() as int;
        let ghost before = directed@;
        assert(input.take(k + 1).drop_last() =~= input.take(k));
        assert(input.take(k + 1).last() == (entry.0, entry.1@));
        let pair = entry.0;
        let reversed = copy_locations(&entry.1);
        directed.push((pair, entry.1));
        directed.push(((pair.1, pair.0), reversed));
        assert(detection_offset_models(directed@) =~= detection_offset_models(before).push((pair, reversed@)).push(
            ((pair.1, pair.0), reversed@),
        ));
    }
    assert(input.take(input.len() as int) =~= input);
    directed
}

/// Relates a stored cell group to the model's lookup.
pub proof fn lemma_stored_cell_group(groups: Seq<CellGroup>, g: int)
    requires
        keys_unique(cell_group_entries(cell_group_models(groups))),
        0 <= g < groups.len(),
    ensures
        cell_group_lookup(cell_group_models(groups)).contains_key(groups[g].id),
        cell_group_lookup(cell_group_models(groups))[groups[g].id] == groups[g]@,
{
    lemma_keyed_map_unique(cell_group_entries(cell_group_models(groups)));
    assert(cell_group_entries(cell_group_models(groups))[g] == (groups[g].id, groups[g]@));
}

/// Every cell group of the model is stored.
pub proof fn lemma_cell_group_stored(groups: Seq<CellGroup>, id: u64)
    requires
        keys_unique(cell_group_entries(cell_group_models(groups))),
        cell_group_lookup(cell_group_models(groups)).contains_key(id),
    ensures
        exists|g: int| 0 <= g < groups.len() && groups[g].id == id,
{
    lemma_keyed_map_unique(cell_group_entries(cell_group_models(groups)));
    let g = choose|g: int|
        0 <= g < cell_group_entries(cell_group_models(groups)).len() && cell_group_entries(
            cell_group_models(groups),
        )[g].0 == id;
    assert(groups[g].id == id);
}

/// Relates a stored directed offset list to the model's lookup.
pub proof fn lemma_stored_offsets(directed: Seq<((u64, u64), Vec<(i32, i32)>)>, e: int)
    requires
        keys_unique(detection_offset_models(directed)),
        0 <= e < directed.len(),
    ensures
        keyed_map(detection_offset_models(directed)).contains_key(directed[e].0),
        keyed_map(detection_offset_models(directed))[directed[e].0] == directed[e].1@,
{
    lemma_keyed_map_unique(detection_offset_models(directed));
    assert(detection_offset_models(directed)[e] == (directed[e].0, directed[e].1@));
}

/// Every directed offset list of the model is stored.
pub proof fn lemma_offsets_stored(directed: Seq<((u64, u64), Vec<(i32, i32)>)>, key: (u64, u64))
    requires
        keys_unique(detection_offset_models(directed)),
        keyed_map(detection_offset_models(directed)).contains_key(key),
    ensures
        exists|e: int| 0 <= e < directed.len() && directed[e].0 == key,
{
    lemma_keyed_map_unique(detection_offset_models(directed));
    let e = choose|e: int| 0 <= e < detection_offset_models(directed).len() && detection_offset_models(directed)[e].0 == key;
    assert(directed[e].0 == key);
}

/// Relates a stored collection to the model's lookup.
pub proof fn lemma_stored_collection(collections: Seq<CellGroupLocationCollection>, c: int)
    requires
        keys_unique(collection_entries(collection_models(collections))),
        0 <= c < collections.len(),
    ensures
        collection_lookup(collection_models(collections)).contains_key(collections[c].id),
        collection_lookup(collection_models(collections))[collections[c].id]
            == collections[c].location_per_cell_group_id@,
{
    lemma_keyed_map_unique(collection_entries(collection_models(collections)));
    assert(collection_entries(collection_models(collections))[c] == (
        collections[c].id,
        collections[c].location_per_cell_group_id@,
    ));
}

/// Every collection of the model is stored.
pub proof fn lemma_collection_stored(collections: Seq<CellGroupLocationCollection>, id: u64)
    requires
        keys_unique(collection_entries(collection_models(collections))),
        collection_lookup(collection_models(collections)).contains_key(id),
    ensures
        exists|c: int| 0 <= c < collections.len() && collections[c].id == id,
{
    lemma_keyed_map_unique(collection_entries(collection_models(collections)));
    let c = choose|c: int|
        0 <= c < collection_entries(collection_models(collections)).len() && collection_entries(
            collection_models(collections),
        )[c].0 == id;
    assert(collections[c].id == id);
}

/// Whether `id` is in `v`.
pub fn contains_id(v: &Vec<u64>, id: u64) -> (found: bool)
    ensures
        found == v@.contains(id),
{
    let mut i: usize = 0;
    while i < v.len()
        invariant
            i <= v@.len(),
            forall|k: int| 0 <= k < i ==> v@[k] != id,
        decreases v@.len() - i,
    {
        if v[i] == id {
            return true;
        }
        i = i + 1;
    }
    false
}

pub open spec fn adjacency_has_key(v: Seq<(u64, Vec<u64>)>, x: u64) -> bool {
    exists|i: int| 0 <= i < v.len() && v[i].0 == x
}

pub open spec fn adjacency_has(v: Seq<(u64, Vec<u64>)>, x: u64, y: u64) -> bool {
    exists|i: int| 0 <= i < v.len() && v[i].0 == x && v[i].1@.contains(y)
}

pub open spec fn adjacency_wf(v: Seq<(u64, Vec<u64>)>) -> bool {
    &&& keys_unique(v)
    &&& forall|i: int| 0 <= i < v.len() ==> (#[trigger] v[i]).1@.no_duplicates()
}

/// The cell groups expected to be adjacent to each cell group, as stored.
pub open spec fn adjacency_view(v: Seq<(u64, Vec<u64>)>) -> Map<u64, Set<u64>> {
    Map::new(
        |x: u64| adjacency_has_key(v, x),
        |x: u64| Set::new(|y: u64| adjacency_has(v, x, y)),
    )
}

/// The position of the adjacent cell groups of `id` in `v`, if there is one.
pub fn find_adjacency(v: &Vec<(u64, Vec<u64>)>, id: u64) -> (found: Option<usize>)
    ensures
        match found {
            Some(j) => j < v@.len() && v@[j as int].0 == id,
            None => !adjacency_has_key(v@, id),
        },
{
    let mut i: usize = 0;
    while i < v.len()
        invariant
            i <= v@.len(),
            forall|k: int| 0 <= k < i ==> v@[k].0 != id,
        decreases v@.len() - i,
    {
        if v[i].0 == id {
            return Some(i);
        }
        i = i + 1;
    }
    None
}

/// Records that `to` is expected to be adjacent to `from`.
pub fn add_adjacent(v: &mut Vec<(u64, Vec<u64>)>, from: u64, to: u64)
    requires
        adjacency_wf(old(v)@),
    ensures
        adjacency_wf(final(v)@),
        forall|x: u64| #[trigger]
            adjacency_has_key(final(v)@, x) <==> (adjacency_has_key(old(v)@, x) || x == from),
        forall|x: u64, y: u64| #[trigger]
            adjacency_has(final(v)@, x, y) <==> (adjacency_has(old(v)@, x, y) || (x == from && y
                == to)),
{
    let ghost before = v@;
    match find_adjacency(v, from) {
        Some(i) => {
            if !contains_id(&v[i].1, to) {
                v[i].1.push(to);
                assert forall|k: int| 0 <= k < v@.len() implies (#[trigger] v@[k]).1@.no_duplicates() by {
                    if k != i {
                        assert(v@[k] == before[k]);
                    }
                }
                assert(keys_unique(v@)) by {
                    assert forall|a: int, b: int| 0 <= a < v@.len() && 0 <= b < v@.len() && a != b implies v@[a].0
                        != v@[b].0 by {
                        assert(v@[a].0 == before[a].0);
                        assert(v@[b].0 == before[b].0);
                    }
                }
                assert forall|x: u64| #[trigger]
                    adjacency_has_key(v@, x) <==> (adjacency_has_key(before, x) || x == from) by {
                    if adjacency_has_key(v@, x) {
                        let k = choose|k: int| 0 <= k < v@.len() && v@[k].0 == x;
                        assert(before[k].0 == x);
                    }
                    if adjacency_has_key(before, x) {
                        let k = choose|k: int| 0 <= k < before.len() && before[k].0 == x;
                        assert(v@[k].0 == x);
                    }
                    if x == from {
                        assert(v@[i as int].0 == x);
                    }
                }
                assert forall|x: u64, y: u64| #[trigger]
                    adjacency_has(v@, x, y) <==> (adjacency_has(before, x, y) || (x == from && y == to)) by {
                    if adjacency_has(v@, x, y) {
                        let k = choose|k: int| 0 <= k < v@.len() && v@[k].0 == x && v@[k].1@.contains(y);
                        if k != i {
                            assert(v@[k] == before[k]);
                        } else if y != to {
                            let q = choose|q: int| 0 <= q < v@[k].1@.len() && v@[k].1@[q] == y;
                            assert(before[k].1@[q] == y);
                        }
                    }
                    if adjacency_has(before, x, y) {
                        let k = choose|k: int| 0 <= k < before.len() && before[k].0 == x && before[k].1@.contains(y);
                        if k != i {
                            assert(v@[k] == before[k]);
                        } else {
                            let q = choose|q: int| 0 <= q < before[k].1@.len() && before[k].1@[q] == y;
                            assert(v@[k].1@[q] == y);
                        }
                    }
                    if x == from && y == to {
                        assert(v@[i as int].1@[v@[i as int].1@.len() - 1] == to);
                    }
                }
            } else {
                assert forall|x: u64, y: u64| #[trigger]
                    adjacency_has(v@, x, y) <==> (adjacency_has(before, x, y) || (x == from && y == to)) by {
                    if x == from && y == to {
                        assert(v@[i as int].0 == x && v@[i as int].1@.contains(y));
                    }
                }
                assert(adjacency_has_key(v@, from));
            }
        },
        None => {
            let mut adjacent: Vec<u64> = Vec::new();
            adjacent.push(to);
            v.push((from, adjacent));
            proof {
                lemma_keys_unique_push(before, (from, adjacent));
            }
            assert forall|k: int| 0 <= k < v@.len() implies (#[trigger] v@[k]).1@.no_duplicates() by {
                if k < before.len() {
                    assert(v@[k] == before[k]);
                }
            }
            assert forall|x: u64| #[trigger]
                adjacency_has_key(v@, x) <==> (adjacency_has_key(before, x) || x == from) by {
                if adjacency_has_key(v@, x) {
                    let k = choose|k: int| 0 <= k < v@.len() && v@[k].0 == x;
                    if k < before.len() {
                        assert(before[k].0 == x);
                    }
                }
                if adjacency_has_key(before, x) {
                    let k = choose|k: int| 0 <= k < before.len() && before[k].0 == x;
                    assert(v@[k].0 == x);
                }
                if x == from {
                    assert(v@[before.len() as int].0 == x);
                }
            }
            assert forall|x: u64, y: u64| #[trigger]
                adjacency_has(v@, x, y) <==> (adjacency_has(before, x, y) || (x == from && y == to)) by {
                if adjacency_has(v@, x, y) {
                    let k = choose|k: int| 0 <= k < v@.len() && v@[k].0 == x && v@[k].1@.contains(y);
                    if k < before.len() {
                        assert(v@[k] == before[k]);
                    } else {
                        let q = choose|q: int| 0 <= q < v@[k].1@.len() && v@[k].1@[q] == y;
                        assert(q == 0);
                    }
                }
                if adjacency_has(before, x, y) {
                    let k = choose|k: int| 0 <= k < before.len() && before[k].0 == x && before[k].1@.contains(y);
                    assert(v@[k] == before[k]);
                }
                if x == from && y == to {
                    assert(v@[before.len() as int].1@[0] == to);
                }
            }
        },
    }
}

/// The cell groups expected to be adjacent to each cell group, both ways round each pair.
pub fn build_adjacency(adjacent_cell_group_id_pairs: &Vec<(u64, u64)>) -> (adjacency: Vec<(u64, Vec<u64>)>)
    ensures
        adjacency_wf(adjacency@),
        adjacency_view(adjacency@) == adjacency_lookup(adjacent_cell_group_id_pairs@),
{
    let ghost pairs = adjacent_cell_group_id_pairs@;
    let mut adjacency: Vec<(u64, Vec<u64>)> = Vec::new();
    let mut k: usize = 0;
    while k < adjacent_cell_group_id_pairs.len()
        invariant
            k <= pairs.len(),
            pairs == adjacent_cell_group_id_pairs@,
            adjacency_wf(adjacency@),
            forall|x: u64| #[trigger] adjacency_has_key(adjacency@, x) <==> in_some_pair(pairs.take(k as int), x),
            forall|x: u64, y: u64| #[trigger] adjacency_has(adjacency@, x, y) <==> paired(pairs.take(k as int), x, y),
        decreases pairs.len() - k,
    {
        let pair = adjacent_cell_group_id_pairs[k];
        add_adjacent(&mut adjacency, pair.0, pair.1);
        add_adjacent(&mut adjacency, pair.1, pair.0);
        let ghost next = pairs.take(k + 1);
        let ghost prev = pairs.take(k as int);
        assert(next[k as int] == pair);
        assert forall|x: u64| #[trigger] adjacency_has_key(adjacency@, x) <==> in_some_pair(next, x) by {
            if in_some_pair(next, x) {
                let i = choose|i: int| 0 <= i < next.len() && (next[i].0 == x || next[i].1 == x);
                if i < k {
                    assert(prev[i] == next[i]);
                    assert(in_some_pair(prev, x));
                }
            }
            if in_some_pair(prev, x) {
                let i = choose|i: int| 0 <= i < prev.len() && (prev[i].0 == x || prev[i].1 == x);
                assert(prev[i] == next[i]);
            }
        }
        assert forall|x: u64, y: u64| #[trigger] adjacency_has(adjacency@, x, y) <==> paired(next, x, y) by {
            if paired(next, x, y) {
                let i = choose|i: int| 0 <= i < next.len() && (next[i] == (x, y) || next[i] == (y, x));
                if i < k {
                    assert(prev[i] == next[i]);
                    assert(paired(prev, x, y));
                }
            }
            if paired(prev, x, y) {
                let i = choose|i: int| 0 <= i < prev.len() && (prev[i] == (x, y) || prev[i] == (y, x));
                assert(prev[i] == next[i]);
            }
        }
        k = k + 1;
    }
    assert(pairs.take(pairs.len() as int) =~= pairs);
    let ghost l = adjacency_view(adjacency@);
    let ghost r = adjacency_lookup(pairs);
    assert forall|x: u64| l.contains_key(x) implies l[x] =~= r[x] by {}
    assert(l =~= r);
    adjacency
}

pub open spec fn dependency_group_models(v: Seq<(u64, Vec<CellGroupLocationDependency>)>) -> Seq<
    (u64, Seq<DependencyModel>),
> {
    v.map_values(|g: (u64, Vec<CellGroupLocationDependency>)| (g.0, dependency_models(g.1@)))
}

/// The position of the dependencies of cell group `id` in `v`, if there is one.
pub fn find_dependency_group(v: &Vec<(u64, Vec<CellGroupLocationDependency>)>, id: u64) -> (found: Option<
    usize,
>)
    ensures
        match found {
            Some(j) => j < v@.len() && v@[j as int].0 == id,
            None => forall|k: int| 0 <= k < v@.len() ==> v@[k].0 != id,
        },
{
    let mut i: usize = 0;
    while i < v.len()
        invariant
            i <= v@.len(),
            forall|k: int| 0 <= k < i ==> v@[k].0 != id,
        decreases v@.len() - i,
    {
        if v[i].0 == id {
            return Some(i);
        }
        i = i + 1;
    }
    None
}

/// The dependencies grouped by the cell group they are about, groups in order of first
/// appearance and dependencies in their given order.
pub fn collect_dependency_groups(dependencies: Vec<CellGroupLocationDependency>) -> (groups: Vec<
    (u64, Vec<CellGroupLocationDependency>),
>)
    ensures
        dependency_group_models(groups@) == dependency_grouping(dependency_models(dependencies@)),
{
    let ghost input = dependency_models(dependencies@);
    let mut groups: Vec<(u64, Vec<CellGroupLocationDependency>)> = Vec::new();
    for dependency in it: dependencies.into_iter()
        invariant
            it.seq() == dependencies@,
            input == dependency_models(dependencies@),
            dependency_group_models(groups@) == dependency_grouping(input.take(it.index() as int)),
    {
        let ghost k = it.index() as int;
        let ghost prev = input.take(k);
        let ghost next = input.take(k + 1);
        let ghost d = dependency@;
        let ghost before = groups@;
        assert(next.drop_last() =~= prev);
        assert(next.last() == d);
        proof {
            lemma_dependency_ids(prev);
        }
        let id = dependency.cell_group_id;
        match find_dependency_group(&groups, id) {
            Some(i) => {
                assert(dependency_group_models(before).len() == before.len());
                assert(dependency_group_models(before)[i as int] == dependency_grouping(prev)[i as int]);
                assert(dependency_ids(prev)[i as int] == id);
                assert(dependency_ids(prev).contains(id));
                groups[i].1.push(dependency);
                assert(dependency_ids(next) == dependency_ids(prev));
                assert forall|j: int| 0 <= j < groups@.len() implies #[trigger] dependency_group_models(
                    groups@,
                )[j] == dependency_grouping(next)[j] by {
                    assert(dependency_group_models(before)[j] == dependency_grouping(prev)[j]);
                    if j == i {
                        assert(dependency_models(groups@[j].1@) =~= dependency_models(before[j].1@).push(d));
                    } else {
                        assert(groups@[j] == before[j]);
                        assert(dependency_ids(prev)[j] != id);
                    }
                }
                assert(dependency_group_models(groups@) =~= dependency_grouping(next));
            },
            None => {
                assert(dependency_group_models(before).len() == before.len());
                assert(dependency_grouping(prev).len() == dependency_ids(prev).len());
                assert(forall|j: int| 0 <= j < before.len() ==> before[j].0 != id);
                let mut group: Vec<CellGroupLocationDependency> = Vec::new();
                group.push(dependency);
                groups.push((id, group));
                assert forall|j: int| 0 <= j < dependency_ids(prev).len() implies dependency_ids(prev)[j] != id by {
                    assert(dependency_group_models(before)[j] == dependency_grouping(prev)[j]);
                    assert(before[j].0 != id);
                }
                assert(!dependency_ids(prev).contains(id));
                assert(dependency_ids(next) == dependency_ids(prev).push(id));
                assert(dependencies_of(prev, id) =~= Seq::<DependencyModel>::empty()) by {
                    lemma_dependencies_of(prev, id);
                    if dependencies_of(prev, id).len() > 0 {
                        let q = choose|q: int| 0 <= q < prev.len() && prev[q] == dependencies_of(prev, id)[0];
                        assert(dependency_ids(prev).contains(id));
                    }
                }
                assert forall|j: int| 0 <= j < groups@.len() implies #[trigger] dependency_group_models(
                    groups@,
                )[j] == dependency_grouping(next)[j] by {
                    if j < before.len() {
                        assert(dependency_group_models(before)[j] == dependency_grouping(prev)[j]);
                        assert(groups@[j] == before[j]);
                    } else {
                        assert(dependency_models(groups@[j].1@) =~= seq![d]);
                        assert(dependencies_of(next, id) =~= seq![d]);
                    }
                }
                assert(dependency_group_models(groups@) =~= dependency_grouping(next));
            },
        }
    }
    assert(input.take(input.len() as int) =~= input);
    groups
}

/// Collects the identifiers of `cell_groups` in order.
pub fn cell_group_ids_of(cell_groups: &Vec<CellGroup>) -> (ids: Vec<u64>)
    ensures
        ids@.len() == cell_groups@.len(),
        forall|k: int| 0 <= k < ids@.len() ==> ids@[k] == (#[trigger] cell_groups@[k]).id,
{
    let mut ids: Vec<u64> = Vec::new();
    let mut i: usize = 0;
    while i < cell_groups.len()
        invariant
            i <= cell_groups@.len(),
            ids@.len() == i,
            forall|k: int| 0 <= k < i ==> ids@[k] == (#[trigger] cell_groups@[k]).id,
        decreases cell_groups@.len() - i,
    {
        ids.push(cell_groups[i].id);
        i = i + 1;
    }
    ids
}

} // verus!
