//! Caches that deciding which collections are possible needs: detection cells and locations,
//! covered locations, and the cells each collection places; and the decision itself.
use vstd::prelude::*;
use super::{
    CellGroup, CellGroupLocationCollection, CellGroupLocationDependency, cell_group_models,
    collection_models, dependency_models, detection_offset_models,
};
use super::laws::law_grouping_keeps_dependencies;
use super::lemmas::{
    lemma_dependency_at_witness, lemma_dependency_grouping, lemma_dependency_witness, reduced_from,
};
use super::lookups::{
    contains_id, dependency_group_models, find_cell_group, find_collection,
    lemma_cell_group_stored, lemma_collection_stored, lemma_offsets_stored,
    lemma_stored_cell_group, lemma_stored_collection, lemma_stored_offsets,
};
use super::model::{
    DependencyModel, ManagerModel, cell_group_entries, cell_group_lookup, collection_entries,
    collection_lookup, collection_possible, detection_cells_fit, detection_locations_fit, fits_sum,
    is_detection_cell, is_detection_location, is_orthogonal_neighbor, is_overlap_location,
    keyed_map, keys_unique, located_cells, lookups_constructible, placement_possible, shift,
    touches_overlap, dependency_at, dependency_meets_type, dependency_at_meets_type,
    dependency_grouping, expected_detection_cache, expected_located_cache, expected_overlap_cache,
    has_dependency,
};

verus! {

/// Whether `x` is in `v`.
pub fn contains_location(v: &Vec<(i32, i32)>, x: (i32, i32)) -> (found: bool)
    ensures
        found == v@.contains(x),
{
    let mut i: usize = 0;
    while i < v.len()
        invariant
            i <= v@.len(),
            forall|k: int| 0 <= k < i ==> v@[k] != x,
        decreases v@.len() - i,
    {
        let y = v[i];
        if y.0 == x.0 && y.1 == x.1 {
            assert(v@[i as int] == x);
            return true;
        }
        i = i + 1;
    }
    false
}

/// Adds `x` to `v` unless it is there already.
pub fn insert_location(v: &mut Vec<(i32, i32)>, x: (i32, i32))
    requires
        old(v)@.no_duplicates(),
    ensures
        final(v)@.no_duplicates(),
        forall|y: (i32, i32)| #[trigger] final(v)@.contains(y) <==> (old(v)@.contains(y) || y == x),
{
    if !contains_location(v, x) {
        let ghost before = v@;
        v.push(x);
        assert forall|y: (i32, i32)| #[trigger] v@.contains(y) <==> (before.contains(y) || y == x) by {
            if v@.contains(y) {
                let k = choose|k: int| 0 <= k < v@.len() && v@[k] == y;
                if k < before.len() {
                    assert(before[k] == y);
                }
            }
            if before.contains(y) {
                let k = choose|k: int| 0 <= k < before.len() && before[k] == y;
                assert(v@[k] == y);
            }
            if y == x {
                assert(v@[before.len() as int] == y);
            }
        }
    }
}

/// `a` moved by `b`.
pub fn add_locations(a: (i32, i32), b: (i32, i32)) -> (sum: (i32, i32))
    requires
        fits_sum(a, b),
    ensures
        sum == shift(a, b),
{
    (a.0 + b.0, a.1 + b.1)
}

/// Whether `x` is a detection cell counting cells `..i` fully and, of cell `i`, the cell and
/// its first `j` offsets.
pub open spec fn detection_cells_so_far(
    cells: Seq<(i32, i32)>,
    offsets: Seq<(i32, i32)>,
    i: int,
    j: int,
    x: (i32, i32),
) -> bool {
    ||| exists|k: int|
        0 <= k < i && (x == cells[k] || exists|jj: int|
            0 <= jj < offsets.len() && x == shift(cells[k], offsets[jj]))
    ||| (x == cells[i] || exists|jj: int| 0 <= jj < j && x == shift(cells[i], offsets[jj]))
}

/// The detection cells of a cell group with these cells and detection offsets, each once.
pub fn compute_detection_cells(cells: &Vec<(i32, i32)>, offsets: &Vec<(i32, i32)>) -> (detection_cells: Vec<
    (i32, i32),
>)
    requires
        detection_cells_fit(cells@, offsets@),
    ensures
        detection_cells@.no_duplicates(),
        forall|x: (i32, i32)|
            #[trigger] detection_cells@.contains(x) <==> is_detection_cell(cells@, offsets@, x),
{
    let mut detection_cells: Vec<(i32, i32)> = Vec::new();
    let mut i: usize = 0;
    while i < cells.len()
        invariant
            i <= cells@.len(),
            detection_cells_fit(cells@, offsets@),
            detection_cells@.no_duplicates(),
            forall|x: (i32, i32)|
                #[trigger] detection_cells@.contains(x) <==> exists|k: int|
                    0 <= k < i && (x == cells@[k] || exists|jj: int|
                        0 <= jj < offsets@.len() && x == shift(cells@[k], offsets@[jj])),
        decreases cells@.len() - i,
    {
        let cell = cells[i];
        insert_location(&mut detection_cells, cell);
        let mut j: usize = 0;
        while j < offsets.len()
            invariant
                i < cells@.len(),
                j <= offsets@.len(),
                cell == cells@[i as int],
                detection_cells_fit(cells@, offsets@),
                detection_cells@.no_duplicates(),
                forall|x: (i32, i32)|
                    #[trigger] detection_cells@.contains(x) <==> detection_cells_so_far(
                        cells@,
                        offsets@,
                        i as int,
                        j as int,
                        x,
                    ),
            decreases offsets@.len() - j,
        {
            let ghost before = detection_cells@;
            let shifted = add_locations(cell, offsets[j]);
            insert_location(&mut detection_cells, shifted);
            assert forall|x: (i32, i32)| #[trigger]
                detection_cells@.contains(x) <==> detection_cells_so_far(
                    cells@,
                    offsets@,
                    i as int,
                    j + 1,
                    x,
                ) by {
                if x == shifted {
                    assert(x == shift(cells@[i as int], offsets@[j as int]));
                }
                if detection_cells_so_far(cells@, offsets@, i as int, j + 1, x) && x != shifted {
                    if exists|jj: int| 0 <= jj < j + 1 && x == shift(cells@[i as int], offsets@[jj]) {
                        let jj = choose|jj: int| 0 <= jj < j + 1 && x == shift(cells@[i as int], offsets@[jj]);
                        assert(jj < j);
                    }
                    assert(detection_cells_so_far(cells@, offsets@, i as int, j as int, x));
                }
            }
            j = j + 1;
        }
        assert forall|x: (i32, i32)| #[trigger]
            detection_cells@.contains(x) <==> exists|k: int|
                0 <= k < i + 1 && (x == cells@[k] || exists|jj: int|
                    0 <= jj < offsets@.len() && x == shift(cells@[k], offsets@[jj])) by {
            if detection_cells@.contains(x) {
                assert(detection_cells_so_far(cells@, offsets@, i as int, offsets@.len() as int, x));
            }
        }
        i = i + 1;
    }
    detection_cells
}

/// The detection cells of one cell group towards one other cell group type.
pub struct DetectionCells {
    pub cell_group_id: u64,
    pub cell_group_type: u64,
    pub cells: Vec<(i32, i32)>,
}

pub open spec fn detection_cells_sound(m: ManagerModel, e: DetectionCells) -> bool {
    let t = m.cell_groups[e.cell_group_id].cell_group_type;
    &&& m.cell_groups.contains_key(e.cell_group_id)
    &&& m.detection_offsets.contains_key((t, e.cell_group_type))
    &&& forall|x: (i32, i32)|
        #[trigger] e.cells@.contains(x) <==> is_detection_cell(
            m.cell_groups[e.cell_group_id].cells,
            m.detection_offsets[(t, e.cell_group_type)],
            x,
        )
}

pub open spec fn has_detection_cells(v: Seq<DetectionCells>, id: u64, t: u64) -> bool {
    exists|i: int| 0 <= i < v.len() && v[i].cell_group_id == id && v[i].cell_group_type == t
}

/// The detection cells of every cell group towards every type it has detection offsets for.
pub fn build_detection_cells(
    groups: &Vec<CellGroup>,
    directed: &Vec<((u64, u64), Vec<(i32, i32)>)>,
    Ghost(m): Ghost<ManagerModel>,
) -> (detection_cells: Vec<DetectionCells>)
    requires
        keys_unique(cell_group_entries(cell_group_models(groups@))),
        m.cell_groups == cell_group_lookup(cell_group_models(groups@)),
        keys_unique(detection_offset_models(directed@)),
        m.detection_offsets == keyed_map(detection_offset_models(directed@)),
        forall|id: u64, t: u64|
            #![trigger m.cell_groups[id], m.detection_offsets[(m.cell_groups[id].cell_group_type, t)]]
            m.cell_groups.contains_key(id) && m.detection_offsets.contains_key(
                (m.cell_groups[id].cell_group_type, t),
            ) ==> detection_cells_fit(
                m.cell_groups[id].cells,
                m.detection_offsets[(m.cell_groups[id].cell_group_type, t)],
            ),
    ensures
        forall|i: int|
            0 <= i < detection_cells@.len() ==> detection_cells_sound(m, #[trigger] detection_cells@[i]),
        forall|id: u64, t: u64|
            m.cell_groups.contains_key(id) && m.detection_offsets.contains_key(
                (m.cell_groups[id].cell_group_type, t),
            ) ==> #[trigger] has_detection_cells(detection_cells@, id, t),
{
    let mut detection_cells: Vec<DetectionCells> = Vec::new();
    let mut g: usize = 0;
    while g < groups.len()
        invariant
            g <= groups@.len(),
            keys_unique(cell_group_entries(cell_group_models(groups@))),
            m.cell_groups == cell_group_lookup(cell_group_models(groups@)),
            keys_unique(detection_offset_models(directed@)),
            m.detection_offsets == keyed_map(detection_offset_models(directed@)),
            forall|id: u64, t: u64|
                #![trigger m.cell_groups[id], m.detection_offsets[(m.cell_groups[id].cell_group_type, t)]]
                m.cell_groups.contains_key(id) && m.detection_offsets.contains_key(
                    (m.cell_groups[id].cell_group_type, t),
                ) ==> detection_cells_fit(
                    m.cell_groups[id].cells,
                    m.detection_offsets[(m.cell_groups[id].cell_group_type, t)],
                ),
            forall|i: int|
                0 <= i < detection_cells@.len() ==> detection_cells_sound(m, #[trigger] detection_cells@[i]),
            forall|gg: int, t: u64|
                0 <= gg < g && m.detection_offsets.contains_key(
                    (groups@[gg].cell_group_type, t),
                ) ==> #[trigger] has_detection_cells(detection_cells@, groups@[gg].id, t),
        decreases groups@.len() - g,
    {
        let cell_group = &groups[g];
        proof {
            lemma_stored_cell_group(groups@, g as int);
        }
        let mut e: usize = 0;
        while e < directed.len()
            invariant
                g < groups@.len(),
                e <= directed@.len(),
                *cell_group == groups@[g as int],
                m.cell_groups.contains_key(cell_group.id),
                m.cell_groups[cell_group.id] == cell_group@,
                keys_unique(detection_offset_models(directed@)),
                m.detection_offsets == keyed_map(detection_offset_models(directed@)),
                forall|id: u64, t: u64|
                    #![trigger m.cell_groups[id], m.detection_offsets[(m.cell_groups[id].cell_group_type, t)]]
                    m.cell_groups.contains_key(id) && m.detection_offsets.contains_key(
                        (m.cell_groups[id].cell_group_type, t),
                    ) ==> detection_cells_fit(
                        m.cell_groups[id].cells,
                        m.detection_offsets[(m.cell_groups[id].cell_group_type, t)],
                    ),
                forall|i: int|
                    0 <= i < detection_cells@.len() ==> detection_cells_sound(
                        m,
                        #[trigger] detection_cells@[i],
                    ),
                forall|gg: int, t: u64|
                    0 <= gg < g && m.detection_offsets.contains_key(
                        (groups@[gg].cell_group_type, t),
                    ) ==> #[trigger] has_detection_cells(detection_cells@, groups@[gg].id, t),
                forall|ee: int|
                    0 <= ee < e && directed@[ee].0.0 == cell_group.cell_group_type ==> #[trigger] has_detection_cells(
                        detection_cells@,
                        cell_group.id,
                        directed@[ee].0.1,
                    ),
            decreases directed@.len() - e,
        {
            let entry = &directed[e];
            if entry.0.0 == cell_group.cell_group_type {
                proof {
                    lemma_stored_offsets(directed@, e as int);
                    assert(m.detection_offsets.contains_key((cell_group.cell_group_type, entry.0.1)));
                    assert(m.detection_offsets[(cell_group.cell_group_type, entry.0.1)] == entry.1@);
                    assert(detection_cells_fit(
                        m.cell_groups[cell_group.id].cells,
                        m.detection_offsets[(m.cell_groups[cell_group.id].cell_group_type, entry.0.1)],
                    ));
                }
                let cells = compute_detection_cells(&cell_group.cells, &entry.1);
                let ghost before = detection_cells@;
                detection_cells.push(
                    DetectionCells { cell_group_id: cell_group.id, cell_group_type: entry.0.1, cells },
                );
                assert forall|i: int|
                    0 <= i < detection_cells@.len() implies detection_cells_sound(
                    m,
                    #[trigger] detection_cells@[i],
                ) by {
                    if i < before.len() {
                        assert(detection_cells@[i] == before[i]);
                    }
                }
                assert forall|id: u64, t: u64|
                    has_detection_cells(before, id, t) implies #[trigger] has_detection_cells(
                    detection_cells@,
                    id,
                    t,
                ) by {
                    let i = choose|i: int|
                        0 <= i < before.len() && before[i].cell_group_id == id
                            && before[i].cell_group_type == t;
                    assert(detection_cells@[i] == before[i]);
                }
                assert(detection_cells@[before.len() as int].cell_group_id == cell_group.id);
                assert(has_detection_cells(detection_cells@, cell_group.id, entry.0.1));
            }
            e = e + 1;
        }
        assert forall|t: u64|
            m.detection_offsets.contains_key((cell_group.cell_group_type, t)) implies #[trigger] has_detection_cells(
            detection_cells@,
            cell_group.id,
            t,
        ) by {
            lemma_offsets_stored(directed@, (cell_group.cell_group_type, t));
            let ee = choose|ee: int| 0 <= ee < directed@.len() && directed@[ee].0 == (cell_group.cell_group_type, t);
            assert(has_detection_cells(detection_cells@, cell_group.id, directed@[ee].0.1));
        }
        g = g + 1;
    }
    assert forall|id: u64, t: u64|
        m.cell_groups.contains_key(id) && m.detection_offsets.contains_key(
            (m.cell_groups[id].cell_group_type, t),
        ) implies #[trigger] has_detection_cells(detection_cells@, id, t) by {
        lemma_cell_group_stored(groups@, id);
        let gg = choose|gg: int| 0 <= gg < groups@.len() && groups@[gg].id == id;
        lemma_stored_cell_group(groups@, gg);
        assert(has_detection_cells(detection_cells@, groups@[gg].id, t));
    }
    detection_cells
}

/// Every location of `cells` moved by `location`, each once.
pub fn compute_shifted_locations(location: (i32, i32), cells: &Vec<(i32, i32)>) -> (locations: Vec<(i32, i32)>)
    requires
        forall|k: int| 0 <= k < cells@.len() ==> fits_sum(location, #[trigger] cells@[k]),
    ensures
        locations@.no_duplicates(),
        forall|x: (i32, i32)|
            #[trigger] locations@.contains(x) <==> exists|k: int|
                0 <= k < cells@.len() && x == shift(location, cells@[k]),
{
    let mut locations: Vec<(i32, i32)> = Vec::new();
    let mut i: usize = 0;
    while i < cells.len()
        invariant
            i <= cells@.len(),
            forall|k: int| 0 <= k < cells@.len() ==> fits_sum(location, #[trigger] cells@[k]),
            locations@.no_duplicates(),
            forall|x: (i32, i32)|
                #[trigger] locations@.contains(x) <==> exists|k: int|
                    0 <= k < i && x == shift(location, cells@[k]),
        decreases cells@.len() - i,
    {
        let shifted = add_locations(location, cells[i]);
        insert_location(&mut locations, shifted);
        assert forall|x: (i32, i32)| #[trigger]
            locations@.contains(x) <==> exists|k: int| 0 <= k < i + 1 && x == shift(location, cells@[k]) by {
            if x == shifted {
                assert(x == shift(location, cells@[i as int]));
            }
        }
        i = i + 1;
    }
    locations
}

/// The locations at which one cell group, placed at one location, detects one cell group type.
pub struct DetectionLocations {
    pub cell_group_id: u64,
    pub location: (i32, i32),
    pub cell_group_type: u64,
    pub locations: Vec<(i32, i32)>,
}

pub open spec fn detection_locations_sound(m: ManagerModel, e: DetectionLocations) -> bool {
    forall|x: (i32, i32)|
        #[trigger] e.locations@.contains(x) <==> is_detection_location(
            m,
            e.cell_group_id,
            e.location,
            e.cell_group_type,
            x,
        )
}

pub open spec fn has_detection_locations(v: Seq<DetectionLocations>, id: u64, location: (i32, i32), t: u64) -> bool {
    exists|i: int|
        0 <= i < v.len() && v[i].cell_group_id == id && v[i].location == location
            && v[i].cell_group_type == t
}

/// The position of the detection cells of cell group `id` towards type `t`, if there are any.
pub fn find_detection_cells(v: &Vec<DetectionCells>, id: u64, t: u64) -> (found: Option<usize>)
    ensures
        match found {
            Some(i) => i < v@.len() && v@[i as int].cell_group_id == id && v@[i as int].cell_group_type == t,
            None => !has_detection_cells(v@, id, t),
        },
{
    let mut i: usize = 0;
    while i < v.len()
        invariant
            i <= v@.len(),
            forall|k: int| 0 <= k < i ==> !(v@[k].cell_group_id == id && v@[k].cell_group_type == t),
        decreases v@.len() - i,
    {
        if v[i].cell_group_id == id && v[i].cell_group_type == t {
            return Some(i);
        }
        i = i + 1;
    }
    None
}

/// The position of the detection locations of cell group `id` at `location` towards type `t`,
/// if there are any.
pub fn find_detection_locations(v: &Vec<DetectionLocations>, id: u64, location: (i32, i32), t: u64) -> (found:
    Option<usize>)
    ensures
        match found {
            Some(i) => i < v@.len() && v@[i as int].cell_group_id == id && v@[i as int].location
                == location && v@[i as int].cell_group_type == t,
            None => !has_detection_locations(v@, id, location, t),
        },
{
    let mut i: usize = 0;
    while i < v.len()
        invariant
            i <= v@.len(),
            forall|k: int|
                0 <= k < i ==> !(v@[k].cell_group_id == id && v@[k].location == location
                    && v@[k].cell_group_type == t),
        decreases v@.len() - i,
    {
        let e = &v[i];
        if e.cell_group_id == id && e.location.0 == location.0 && e.location.1 == location.1
            && e.cell_group_type == t {
            return Some(i);
        }
        i = i + 1;
    }
    None
}

/// The locations at which cell group `id`, placed at `location`, detects cell groups of type `t`.
pub fn detection_locations_for(
    detection_cells: &Vec<DetectionCells>,
    id: u64,
    location: (i32, i32),
    t: u64,
    Ghost(m): Ghost<ManagerModel>,
) -> (locations: Vec<(i32, i32)>)
    requires
        forall|i: int|
            0 <= i < detection_cells@.len() ==> detection_cells_sound(m, #[trigger] detection_cells@[i]),
        forall|id: u64, t: u64|
            m.cell_groups.contains_key(id) && m.detection_offsets.contains_key(
                (m.cell_groups[id].cell_group_type, t),
            ) ==> #[trigger] has_detection_cells(detection_cells@, id, t),
        m.cell_groups.contains_key(id) && m.detection_offsets.contains_key(
            (m.cell_groups[id].cell_group_type, t),
        ) ==> detection_locations_fit(
            location,
            m.cell_groups[id].cells,
            m.detection_offsets[(m.cell_groups[id].cell_group_type, t)],
        ),
    ensures
        locations@.no_duplicates(),
        forall|x: (i32, i32)|
            #[trigger] locations@.contains(x) <==> is_detection_location(m, id, location, t, x),
{
    match find_detection_cells(detection_cells, id, t) {
        Some(i) => {
            let entry = &detection_cells[i];
            assert(detection_cells_sound(m, detection_cells@[i as int]));
            let ghost cells = m.cell_groups[id].cells;
            let ghost offsets = m.detection_offsets[(m.cell_groups[id].cell_group_type, t)];
            assert forall|k: int| 0 <= k < entry.cells@.len() implies fits_sum(
                location,
                #[trigger] entry.cells@[k],
            ) by {
                let d = entry.cells@[k];
                assert(entry.cells@.contains(d));
                assert(is_detection_cell(cells, offsets, d));
                let kk = choose|kk: int|
                    0 <= kk < cells.len() && (d == cells[kk] || exists|j: int|
                        0 <= j < offsets.len() && d == shift(cells[kk], offsets[j]));
                if d != cells[kk] {
                    let j = choose|j: int| 0 <= j < offsets.len() && d == shift(cells[kk], offsets[j]);
                    assert(fits_sum(location, shift(cells[kk], offsets[j])));
                }
            }
            let locations = compute_shifted_locations(location, &entry.cells);
            assert forall|x: (i32, i32)| #[trigger]
                locations@.contains(x) <==> is_detection_location(m, id, location, t, x) by {
                if locations@.contains(x) {
                    let k = choose|k: int| 0 <= k < entry.cells@.len() && x == shift(location, entry.cells@[k]);
                    assert(entry.cells@.contains(entry.cells@[k]));
                    assert(is_detection_cell(cells, offsets, entry.cells@[k]));
                }
                if is_detection_location(m, id, location, t, x) {
                    let d = choose|d: (i32, i32)| is_detection_cell(cells, offsets, d) && x == shift(location, d);
                    assert(entry.cells@.contains(d));
                    let k = choose|k: int| 0 <= k < entry.cells@.len() && entry.cells@[k] == d;
                    assert(x == shift(location, entry.cells@[k]));
                }
            }
            locations
        },
        None => {
            let locations: Vec<(i32, i32)> = Vec::new();
            assert(!(m.cell_groups.contains_key(id) && m.detection_offsets.contains_key(
                (m.cell_groups[id].cell_group_type, t),
            )));
            assert forall|x: (i32, i32)| #[trigger]
                locations@.contains(x) <==> is_detection_location(m, id, location, t, x) by {}
            locations
        },
    }
}

/// Every key with detection locations in `a` has detection locations in `b`.
pub open spec fn detection_locations_grow(a: Seq<DetectionLocations>, b: Seq<DetectionLocations>) -> bool {
    forall|id: u64, location: (i32, i32), t: u64|
        has_detection_locations(a, id, location, t) ==> #[trigger] has_detection_locations(
            b,
            id,
            location,
            t,
        )
}

/// `v` has the detection locations that dependency `d` needs: for its cell group at its
/// location, towards the type of each cell group placed by each of its collections.
pub open spec fn detection_locations_complete_for(m: ManagerModel, v: Seq<DetectionLocations>, d: DependencyModel) -> bool {
    forall|j: int, p: int|
        #![trigger m.collections[d.collections[j]][p]]
        0 <= j < d.collections.len() && 0 <= p < m.collections[d.collections[j]].len()
            ==> has_detection_locations(
            v,
            d.cell_group_id,
            d.location,
            m.cell_groups[m.collections[d.collections[j]][p].0].cell_group_type,
        )
}

pub proof fn lemma_detection_locations_complete_grows(
    m: ManagerModel,
    a: Seq<DetectionLocations>,
    b: Seq<DetectionLocations>,
    d: DependencyModel,
)
    requires
        detection_locations_grow(a, b),
        detection_locations_complete_for(m, a, d),
    ensures
        detection_locations_complete_for(m, b, d),
{
    assert forall|j: int, p: int|
        #![trigger m.collections[d.collections[j]][p]]
        0 <= j < d.collections.len() && 0 <= p < m.collections[d.collections[j]].len()
            implies has_detection_locations(
            b,
            d.cell_group_id,
            d.location,
            m.cell_groups[m.collections[d.collections[j]][p].0].cell_group_type,
        ) by {
        assert(has_detection_locations(
            a,
            d.cell_group_id,
            d.location,
            m.cell_groups[m.collections[d.collections[j]][p].0].cell_group_type,
        ));
    }
}

/// Entry `e` is for the cell group and location of dependency `d` and a type that `d` meets.
pub open spec fn detection_entry_from(m: ManagerModel, e: DetectionLocations, d: DependencyModel) -> bool {
    &&& e.cell_group_id == d.cell_group_id
    &&& e.location == d.location
    &&& dependency_meets_type(m, d, e.cell_group_type)
}

/// Entry `e` is for the cell group and location of one of `ds` and a type that it meets.
pub open spec fn detection_entry_needed(m: ManagerModel, e: DetectionLocations, ds: Seq<DependencyModel>) -> bool {
    exists|ii: int| 0 <= ii < ds.len() && #[trigger] detection_entry_from(m, e, ds[ii])
}

/// The detection locations that every dependency needs, each computed once.
pub fn build_detection_locations(
    dependencies: &Vec<CellGroupLocationDependency>,
    collections: &Vec<CellGroupLocationCollection>,
    groups: &Vec<CellGroup>,
    detection_cells: &Vec<DetectionCells>,
    Ghost(m): Ghost<ManagerModel>,
) -> (detection_locations: Vec<DetectionLocations>)
    requires
        keys_unique(cell_group_entries(cell_group_models(groups@))),
        m.cell_groups == cell_group_lookup(cell_group_models(groups@)),
        keys_unique(collection_entries(collection_models(collections@))),
        m.collections == collection_lookup(collection_models(collections@)),
        forall|i: int|
            0 <= i < detection_cells@.len() ==> detection_cells_sound(m, #[trigger] detection_cells@[i]),
        forall|id: u64, t: u64|
            m.cell_groups.contains_key(id) && m.detection_offsets.contains_key(
                (m.cell_groups[id].cell_group_type, t),
            ) ==> #[trigger] has_detection_cells(detection_cells@, id, t),
        lookups_constructible(
            m.cell_groups,
            m.collections,
            m.detection_offsets,
            dependency_models(dependencies@),
        ),
    ensures
        forall|i: int|
            0 <= i < detection_locations@.len() ==> detection_locations_sound(
                m,
                #[trigger] detection_locations@[i],
            ),
        forall|i: int|
    0 <= i < detection_locations@.len() ==> detection_entry_needed(
        m,
        #[trigger] detection_locations@[i],
        dependency_models(dependencies@),
    ),
        forall|i: int|
            0 <= i < dependencies@.len() ==> detection_locations_complete_for(
                m,
                detection_locations@,
                #[trigger] dependencies@[i]@,
            ),
{
    let ghost ds = dependency_models(dependencies@);
    let mut detection_locations: Vec<DetectionLocations> = Vec::new();
    let mut i: usize = 0;
    while i < dependencies.len()
        invariant
            i <= dependencies@.len(),
            ds == dependency_models(dependencies@),
            keys_unique(cell_group_entries(cell_group_models(groups@))),
            m.cell_groups == cell_group_lookup(cell_group_models(groups@)),
            keys_unique(collection_entries(collection_models(collections@))),
            m.collections == collection_lookup(collection_models(collections@)),
            forall|k: int|
                0 <= k < detection_cells@.len() ==> detection_cells_sound(m, #[trigger] detection_cells@[k]),
            forall|id: u64, t: u64|
                m.cell_groups.contains_key(id) && m.detection_offsets.contains_key(
                    (m.cell_groups[id].cell_group_type, t),
                ) ==> #[trigger] has_detection_cells(detection_cells@, id, t),
            lookups_constructible(m.cell_groups, m.collections, m.detection_offsets, ds),
            forall|k: int|
                0 <= k < detection_locations@.len() ==> detection_locations_sound(
                    m,
                    #[trigger] detection_locations@[k],
                ),
            forall|k: int|
    0 <= k < detection_locations@.len() ==> detection_entry_needed(
        m,
        #[trigger] detection_locations@[k],
        dependency_models(dependencies@),
    ),
            forall|ii: int|
                0 <= ii < i ==> detection_locations_complete_for(
                    m,
                    detection_locations@,
                    #[trigger] dependencies@[ii]@,
                ),
        decreases dependencies@.len() - i,
    {
        let dependency = &dependencies[i];
        let ghost d = dependency@;
        let ghost v0 = detection_locations@;
        assert(ds[i as int] == d);
        let mut j: usize = 0;
        while j < dependency.cell_group_location_collections.len()
            invariant
                i < dependencies@.len(),
                *dependency == dependencies@[i as int],
                d == dependency@,
                ds == dependency_models(dependencies@),
                ds[i as int] == d,
                j <= d.collections.len(),
                keys_unique(cell_group_entries(cell_group_models(groups@))),
                m.cell_groups == cell_group_lookup(cell_group_models(groups@)),
                keys_unique(collection_entries(collection_models(collections@))),
                m.collections == collection_lookup(collection_models(collections@)),
                forall|k: int|
                    0 <= k < detection_cells@.len() ==> detection_cells_sound(m, #[trigger] detection_cells@[k]),
                forall|id: u64, t: u64|
                    m.cell_groups.contains_key(id) && m.detection_offsets.contains_key(
                        (m.cell_groups[id].cell_group_type, t),
                    ) ==> #[trigger] has_detection_cells(detection_cells@, id, t),
                lookups_constructible(m.cell_groups, m.collections, m.detection_offsets, ds),
                forall|k: int|
                    0 <= k < detection_locations@.len() ==> detection_locations_sound(
                        m,
                        #[trigger] detection_locations@[k],
                    ),
                forall|k: int|
    0 <= k < detection_locations@.len() ==> detection_entry_needed(
        m,
        #[trigger] detection_locations@[k],
        dependency_models(dependencies@),
    ),
                detection_locations_grow(v0, detection_locations@),
                forall|jj: int, p: int|
                    #![trigger m.collections[d.collections[jj]][p]]
                    0 <= jj < j && 0 <= p < m.collections[d.collections[jj]].len()
                        ==> has_detection_locations(
                        detection_locations@,
                        d.cell_group_id,
                        d.location,
                        m.cell_groups[m.collections[d.collections[jj]][p].0].cell_group_type,
                    ),
            decreases d.collections.len() - j,
        {
            let collection_id = dependency.cell_group_location_collections[j];
            assert(m.collections.contains_key(d.collections[j as int]));
            let ghost v1 = detection_locations@;
            match find_collection(collections, collection_id) {
                None => {
                    proof {
                        lemma_collection_stored(collections@, collection_id);
                    }
                },
                Some(ci) => {
                    let collection = &collections[ci];
                    proof {
                        lemma_stored_collection(collections@, ci as int);
                    }
                    let ghost placements = m.collections[collection_id];
                    assert(placements == collection.location_per_cell_group_id@);
                    let mut p: usize = 0;
                    while p < collection.location_per_cell_group_id.len()
                        invariant
                            i < dependencies@.len(),
                            *dependency == dependencies@[i as int],
                            d == dependency@,
                            ds == dependency_models(dependencies@),
                            ds[i as int] == d,
                            j < d.collections.len(),
                            collection_id == d.collections[j as int],
                            m.collections.contains_key(collection_id),
                            placements == m.collections[collection_id],
                            placements == collection.location_per_cell_group_id@,
                            p <= placements.len(),
                            keys_unique(cell_group_entries(cell_group_models(groups@))),
                            m.cell_groups == cell_group_lookup(cell_group_models(groups@)),
                            forall|k: int|
                                0 <= k < detection_cells@.len() ==> detection_cells_sound(
                                    m,
                                    #[trigger] detection_cells@[k],
                                ),
                            forall|id: u64, t: u64|
                                m.cell_groups.contains_key(id) && m.detection_offsets.contains_key(
                                    (m.cell_groups[id].cell_group_type, t),
                                ) ==> #[trigger] has_detection_cells(detection_cells@, id, t),
                            lookups_constructible(m.cell_groups, m.collections, m.detection_offsets, ds),
                            forall|k: int|
                                0 <= k < detection_locations@.len() ==> detection_locations_sound(
                                    m,
                                    #[trigger] detection_locations@[k],
                                ),
                            forall|k: int|
    0 <= k < detection_locations@.len() ==> detection_entry_needed(
        m,
        #[trigger] detection_locations@[k],
        dependency_models(dependencies@),
    ),
                            detection_locations_grow(v1, detection_locations@),
                            forall|pp: int|
                                0 <= pp < p ==> has_detection_locations(
                                    detection_locations@,
                                    d.cell_group_id,
                                    d.location,
                                    m.cell_groups[#[trigger] placements[pp].0].cell_group_type,
                                ),
                        decreases placements.len() - p,
                    {
                        let member = collection.location_per_cell_group_id[p].0;
                        assert(m.cell_groups.contains_key(placements[p as int].0));
                        match find_cell_group(groups, member) {
                            None => {
                                proof {
                                    lemma_cell_group_stored(groups@, member);
                                }
                            },
                            Some(gi) => {
                                proof {
                                    lemma_stored_cell_group(groups@, gi as int);
                                }
                                let t = groups[gi].cell_group_type;
                                let ghost before = detection_locations@;
                                match find_detection_locations(
                                    &detection_locations,
                                    dependency.cell_group_id,
                                    dependency.location,
                                    t,
                                ) {
                                    Some(_) => {},
                                    None => {
                                        assert(m.collections[d.collections[j as int]][p as int].0 == member);
                                        let locations = detection_locations_for(
                                            detection_cells,
                                            dependency.cell_group_id,
                                            dependency.location,
                                            t,
                                            Ghost(m),
                                        );
                                        detection_locations.push(
                                            DetectionLocations {
                                                cell_group_id: dependency.cell_group_id,
                                                location: dependency.location,
                                                cell_group_type: t,
                                                locations,
                                            },
                                        );
                                        assert(m.cell_groups[m.collections[d.collections[j as int]][p as int].0].cell_group_type == t);
                                        assert(dependency_meets_type(m, d, t));
                                        assert(dependencies@[i as int]@ == d);
                                        assert forall|k: int|
                                            0 <= k < detection_locations@.len() implies detection_locations_sound(
                                            m,
                                            #[trigger] detection_locations@[k],
                                        ) && detection_entry_needed(
                                            m,
                                            detection_locations@[k],
                                            dependency_models(dependencies@),
                                        ) by {
                                            if k < before.len() {
                                                assert(detection_locations@[k] == before[k]);
                                            } else {
                                                assert(dependency_models(dependencies@)[i as int] == d);
                                                assert(detection_entry_from(m, detection_locations@[k], d));
                                            }
                                        }
                                        assert forall|id: u64, location: (i32, i32), tt: u64|
                                            has_detection_locations(before, id, location, tt)
                                            implies #[trigger] has_detection_locations(
                                            detection_locations@,
                                            id,
                                            location,
                                            tt,
                                        ) by {
                                            let k = choose|k: int|
                                                0 <= k < before.len() && before[k].cell_group_id == id
                                                    && before[k].location == location
                                                    && before[k].cell_group_type == tt;
                                            assert(detection_locations@[k] == before[k]);
                                        }
                                        assert(detection_locations@[before.len() as int].cell_group_type == t);
                                    },
                                }
                                assert(has_detection_locations(
                                    detection_locations@,
                                    d.cell_group_id,
                                    d.location,
                                    t,
                                ));
                            },
                        }
                        p = p + 1;
                    }
                },
            }
            j = j + 1;
        }
        proof {
            assert(detection_locations_complete_for(m, detection_locations@, d));
            assert forall|ii: int|
                0 <= ii < i + 1 implies detection_locations_complete_for(
                m,
                detection_locations@,
                #[trigger] dependencies@[ii]@,
            ) by {
                if ii < i {
                    lemma_detection_locations_complete_grows(m, v0, detection_locations@, dependencies@[ii]@);
                }
            }
        }
        i = i + 1;
    }
    detection_locations
}

/// The locations covered by one cell group placed at one location.
pub struct OverlapLocations {
    pub cell_group_id: u64,
    pub location: (i32, i32),
    pub locations: Vec<(i32, i32)>,
}

pub open spec fn overlap_sound(m: ManagerModel, e: OverlapLocations) -> bool {
    &&& m.cell_groups.contains_key(e.cell_group_id)
    &&& forall|x: (i32, i32)|
        #[trigger] e.locations@.contains(x) <==> is_overlap_location(m, e.cell_group_id, e.location, x)
}

pub open spec fn has_overlap(v: Seq<OverlapLocations>, id: u64, location: (i32, i32)) -> bool {
    exists|i: int| 0 <= i < v.len() && v[i].cell_group_id == id && v[i].location == location
}

/// Every cell of every cell group, placed at each location a dependency gives it, can be computed.
pub open spec fn overlap_sums_fit(m: ManagerModel) -> bool {
    forall|j: int, k: int, c: int|
        #![trigger m.dependency_groups[j].1[k], m.cell_groups[m.dependency_groups[j].0].cells[c]]
        0 <= j < m.dependency_groups.len() && m.cell_groups.contains_key(m.dependency_groups[j].0) && 0
            <= k < m.dependency_groups[j].1.len() && 0 <= c < m.cell_groups[m.dependency_groups[j].0].cells.len()
            ==> fits_sum(m.dependency_groups[j].1[k].location, m.cell_groups[m.dependency_groups[j].0].cells[c])
}

/// The position of the locations covered by cell group `id` at `location`, if there is one.
pub fn find_overlap(v: &Vec<OverlapLocations>, id: u64, location: (i32, i32)) -> (found: Option<usize>)
    ensures
        match found {
            Some(i) => i < v@.len() && v@[i as int].cell_group_id == id && v@[i as int].location == location,
            None => !has_overlap(v@, id, location),
        },
{
    let mut i: usize = 0;
    while i < v.len()
        invariant
            i <= v@.len(),
            forall|k: int| 0 <= k < i ==> !(v@[k].cell_group_id == id && v@[k].location == location),
        decreases v@.len() - i,
    {
        let e = &v[i];
        if e.cell_group_id == id && e.location.0 == location.0 && e.location.1 == location.1 {
            return Some(i);
        }
        i = i + 1;
    }
    None
}

/// The locations covered by each cell group at each location its dependencies give it.
pub fn build_overlaps(
    dependency_groups: &Vec<(u64, Vec<CellGroupLocationDependency>)>,
    groups: &Vec<CellGroup>,
    Ghost(m): Ghost<ManagerModel>,
) -> (overlaps: Vec<OverlapLocations>)
    requires
        keys_unique(cell_group_entries(cell_group_models(groups@))),
        m.cell_groups == cell_group_lookup(cell_group_models(groups@)),
        m.dependency_groups == dependency_group_models(dependency_groups@),
        overlap_sums_fit(m),
    ensures
        forall|i: int| 0 <= i < overlaps@.len() ==> overlap_sound(m, #[trigger] overlaps@[i]),
        forall|i: int|
            0 <= i < overlaps@.len() ==> dependency_at(
                m.dependency_groups,
                (#[trigger] overlaps@[i]).cell_group_id,
                overlaps@[i].location,
            ),
        forall|j: int, k: int|
            0 <= j < m.dependency_groups.len() && m.cell_groups.contains_key(m.dependency_groups[j].0)
                && 0 <= k < m.dependency_groups[j].1.len() ==> #[trigger] has_overlap(
                overlaps@,
                m.dependency_groups[j].0,
                m.dependency_groups[j].1[k].location,
            ),
{
    let mut overlaps: Vec<OverlapLocations> = Vec::new();
    let mut j: usize = 0;
    while j < dependency_groups.len()
        invariant
            j <= dependency_groups@.len(),
            keys_unique(cell_group_entries(cell_group_models(groups@))),
            m.cell_groups == cell_group_lookup(cell_group_models(groups@)),
            m.dependency_groups == dependency_group_models(dependency_groups@),
            overlap_sums_fit(m),
            forall|i: int| 0 <= i < overlaps@.len() ==> overlap_sound(m, #[trigger] overlaps@[i]),
            forall|i: int|
                0 <= i < overlaps@.len() ==> dependency_at(
                    m.dependency_groups,
                    (#[trigger] overlaps@[i]).cell_group_id,
                    overlaps@[i].location,
                ),
            forall|jj: int, k: int|
                0 <= jj < j && m.cell_groups.contains_key(m.dependency_groups[jj].0) && 0 <= k
                    < m.dependency_groups[jj].1.len() ==> #[trigger] has_overlap(
                    overlaps@,
                    m.dependency_groups[jj].0,
                    m.dependency_groups[jj].1[k].location,
                ),
        decreases dependency_groups@.len() - j,
    {
        let id = dependency_groups[j].0;
        let dependencies = &dependency_groups[j].1;
        assert(m.dependency_groups[j as int].0 == id);
        assert(m.dependency_groups[j as int].1 == dependency_models(dependencies@));
        match find_cell_group(groups, id) {
            None => {
                proof {
                    if m.cell_groups.contains_key(id) {
                        lemma_cell_group_stored(groups@, id);
                    }
                }
            },
            Some(gi) => {
                let cell_group = &groups[gi];
                proof {
                    lemma_stored_cell_group(groups@, gi as int);
                }
                let ghost v0 = overlaps@;
                let mut k: usize = 0;
                while k < dependencies.len()
                    invariant
                        j < dependency_groups@.len(),
                        k <= dependencies@.len(),
                        *dependencies == dependency_groups@[j as int].1,
                        m.dependency_groups == dependency_group_models(dependency_groups@),
                        m.dependency_groups[j as int].0 == id,
                        m.dependency_groups[j as int].1 == dependency_models(dependencies@),
                        m.cell_groups.contains_key(id),
                        m.cell_groups[id] == cell_group@,
                        overlap_sums_fit(m),
                        forall|i: int| 0 <= i < overlaps@.len() ==> overlap_sound(m, #[trigger] overlaps@[i]),
                        forall|i: int|
                            0 <= i < overlaps@.len() ==> dependency_at(
                                m.dependency_groups,
                                (#[trigger] overlaps@[i]).cell_group_id,
                                overlaps@[i].location,
                            ),
                        forall|id2: u64, location: (i32, i32)|
                            has_overlap(v0, id2, location) ==> #[trigger] has_overlap(overlaps@, id2, location),
                        forall|kk: int|
                            0 <= kk < k ==> #[trigger] has_overlap(
                                overlaps@,
                                id,
                                m.dependency_groups[j as int].1[kk].location,
                            ),
                    decreases dependencies@.len() - k,
                {
                    let location = dependencies[k].location;
                    assert(m.dependency_groups[j as int].1[k as int].location == location);
                    let ghost before = overlaps@;
                    if find_overlap(&overlaps, id, location).is_none() {
                        assert forall|c: int| 0 <= c < cell_group.cells@.len() implies fits_sum(
                            location,
                            #[trigger] cell_group.cells@[c],
                        ) by {
                            assert(m.cell_groups[m.dependency_groups[j as int].0].cells[c] == cell_group.cells@[c]);
                            assert(fits_sum(
                                m.dependency_groups[j as int].1[k as int].location,
                                m.cell_groups[m.dependency_groups[j as int].0].cells[c],
                            ));
                        }
                        let locations = compute_shifted_locations(location, &cell_group.cells);
                        overlaps.push(OverlapLocations { cell_group_id: id, location, locations });
                        assert(m.dependency_groups[j as int].1[k as int].location == location);
                        assert forall|i: int| 0 <= i < overlaps@.len() implies overlap_sound(
                            m,
                            #[trigger] overlaps@[i],
                        ) && dependency_at(m.dependency_groups, overlaps@[i].cell_group_id, overlaps@[i].location) by {
                            if i < before.len() {
                                assert(overlaps@[i] == before[i]);
                            } else {
                                assert(m.dependency_groups[j as int].1[k as int].location == overlaps@[i].location);
                            }
                        }
                        assert forall|id2: u64, location2: (i32, i32)|
                            has_overlap(before, id2, location2) implies #[trigger] has_overlap(
                            overlaps@,
                            id2,
                            location2,
                        ) by {
                            let i = choose|i: int|
                                0 <= i < before.len() && before[i].cell_group_id == id2
                                    && before[i].location == location2;
                            assert(overlaps@[i] == before[i]);
                        }
                        assert(overlaps@[before.len() as int].location == location);
                    }
                    assert(has_overlap(overlaps@, id, location));
                    k = k + 1;
                }
            },
        }
        j = j + 1;
    }
    overlaps
}

/// The cells of one cell group placed by one collection.
pub struct LocatedCells {
    pub cell_group_id: u64,
    pub cell_group_type: u64,
    pub location: (i32, i32),
    pub cells: Vec<(i32, i32)>,
}

/// `located` holds, for each placement of `placements` in order, the placed cell group's
/// cells at its location.
pub open spec fn located_sound(m: ManagerModel, placements: Seq<(u64, (i32, i32))>, located: Seq<LocatedCells>) -> bool {
    &&& located.len() == placements.len()
    &&& forall|p: int|
        0 <= p < located.len() ==> {
            &&& (#[trigger] located[p]).cell_group_id == placements[p].0
            &&& located[p].location == placements[p].1
            &&& m.cell_groups.contains_key(located[p].cell_group_id)
            &&& located[p].cell_group_type == m.cell_groups[located[p].cell_group_id].cell_group_type
            &&& located[p].cells@ == located_cells(m, located[p].cell_group_id, located[p].location)
        }
}

/// The cells of `cells` moved by `location`, in order.
pub fn place_cells(location: (i32, i32), cells: &Vec<(i32, i32)>) -> (placed: Vec<(i32, i32)>)
    requires
        forall|k: int| 0 <= k < cells@.len() ==> fits_sum(location, #[trigger] cells@[k]),
    ensures
        placed@ == cells@.map_values(|c: (i32, i32)| shift(location, c)),
{
    let mut placed: Vec<(i32, i32)> = Vec::new();
    let mut i: usize = 0;
    while i < cells.len()
        invariant
            i <= cells@.len(),
            forall|k: int| 0 <= k < cells@.len() ==> fits_sum(location, #[trigger] cells@[k]),
            placed@ == cells@.take(i as int).map_values(|c: (i32, i32)| shift(location, c)),
        decreases cells@.len() - i,
    {
        let shifted = add_locations(location, cells[i]);
        placed.push(shifted);
        i = i + 1;
        assert(placed@ =~= cells@.take(i as int).map_values(|c: (i32, i32)| shift(location, c)));
    }
    assert(cells@.take(cells@.len() as int) =~= cells@);
    placed
}

/// For each collection, in order, the cells of each cell group it places.
pub fn build_located_cells(
    collections: &Vec<CellGroupLocationCollection>,
    groups: &Vec<CellGroup>,
    Ghost(m): Ghost<ManagerModel>,
    Ghost(ds): Ghost<Seq<DependencyModel>>,
) -> (located: Vec<Vec<LocatedCells>>)
    requires
        keys_unique(cell_group_entries(cell_group_models(groups@))),
        m.cell_groups == cell_group_lookup(cell_group_models(groups@)),
        keys_unique(collection_entries(collection_models(collections@))),
        m.collections == collection_lookup(collection_models(collections@)),
        lookups_constructible(m.cell_groups, m.collections, m.detection_offsets, ds),
    ensures
        located@.len() == collections@.len(),
        forall|c: int|
            0 <= c < collections@.len() ==> located_sound(
                m,
                collections@[c].location_per_cell_group_id@,
                #[trigger] located@[c]@,
            ),
{
    let mut located: Vec<Vec<LocatedCells>> = Vec::new();
    let mut c: usize = 0;
    while c < collections.len()
        invariant
            c <= collections@.len(),
            located@.len() == c,
            keys_unique(cell_group_entries(cell_group_models(groups@))),
            m.cell_groups == cell_group_lookup(cell_group_models(groups@)),
            keys_unique(collection_entries(collection_models(collections@))),
            m.collections == collection_lookup(collection_models(collections@)),
            lookups_constructible(m.cell_groups, m.collections, m.detection_offsets, ds),
            forall|cc: int|
                0 <= cc < c ==> located_sound(
                    m,
                    collections@[cc].location_per_cell_group_id@,
                    #[trigger] located@[cc]@,
                ),
        decreases collections@.len() - c,
    {
        let collection = &collections[c];
        proof {
            lemma_stored_collection(collections@, c as int);
        }
        let ghost placements = collection.location_per_cell_group_id@;
        assert(m.collections[collection.id] == placements);
        let mut cells_per_placement: Vec<LocatedCells> = Vec::new();
        let mut p: usize = 0;
        while p < collection.location_per_cell_group_id.len()
            invariant
                c < collections@.len(),
                *collection == collections@[c as int],
                placements == collection.location_per_cell_group_id@,
                m.collections.contains_key(collection.id),
                m.collections[collection.id] == placements,
                p <= placements.len(),
                cells_per_placement@.len() == p,
                keys_unique(cell_group_entries(cell_group_models(groups@))),
                m.cell_groups == cell_group_lookup(cell_group_models(groups@)),
                lookups_constructible(m.cell_groups, m.collections, m.detection_offsets, ds),
                forall|pp: int|
                    0 <= pp < p ==> {
                        &&& (#[trigger] cells_per_placement@[pp]).cell_group_id == placements[pp].0
                        &&& cells_per_placement@[pp].location == placements[pp].1
                        &&& m.cell_groups.contains_key(cells_per_placement@[pp].cell_group_id)
                        &&& cells_per_placement@[pp].cell_group_type
                            == m.cell_groups[cells_per_placement@[pp].cell_group_id].cell_group_type
                        &&& cells_per_placement@[pp].cells@ == located_cells(
                            m,
                            cells_per_placement@[pp].cell_group_id,
                            cells_per_placement@[pp].location,
                        )
                    },
            decreases placements.len() - p,
        {
            let placement = collection.location_per_cell_group_id[p];
            assert(m.collections[collection.id][p as int] == placement);
            assert(m.cell_groups.contains_key(placement.0));
            match find_cell_group(groups, placement.0) {
                None => {
                    proof {
                        lemma_cell_group_stored(groups@, placement.0);
                    }
                },
                Some(gi) => {
                    let cell_group = &groups[gi];
                    proof {
                        lemma_stored_cell_group(groups@, gi as int);
                    }
                    assert forall|k: int| 0 <= k < cell_group.cells@.len() implies fits_sum(
                        placement.1,
                        #[trigger] cell_group.cells@[k],
                    ) by {
                        assert(m.cell_groups[m.collections[collection.id][p as int].0].cells[k]
                            == cell_group.cells@[k]);
                    }
                    let cells = place_cells(placement.1, &cell_group.cells);
                    let ghost before = cells_per_placement@;
                    cells_per_placement.push(
                        LocatedCells {
                            cell_group_id: placement.0,
                            cell_group_type: cell_group.cell_group_type,
                            location: placement.1,
                            cells,
                        },
                    );
                    assert forall|pp: int| 0 <= pp < p + 1 implies {
                        &&& (#[trigger] cells_per_placement@[pp]).cell_group_id == placements[pp].0
                        &&& cells_per_placement@[pp].location == placements[pp].1
                        &&& m.cell_groups.contains_key(cells_per_placement@[pp].cell_group_id)
                        &&& cells_per_placement@[pp].cell_group_type
                            == m.cell_groups[cells_per_placement@[pp].cell_group_id].cell_group_type
                        &&& cells_per_placement@[pp].cells@ == located_cells(
                            m,
                            cells_per_placement@[pp].cell_group_id,
                            cells_per_placement@[pp].location,
                        )
                    } by {
                        if pp < p {
                            assert(cells_per_placement@[pp] == before[pp]);
                        } else {
                            assert(located_cells(m, placement.0, placement.1) =~= cell_group.cells@.map_values(
                                |c: (i32, i32)| shift(placement.1, c),
                            ));
                        }
                    }
                },
            }
            p = p + 1;
        }
        let ghost before = located@;
        located.push(cells_per_placement);
        assert forall|cc: int| 0 <= cc < c + 1 implies located_sound(
            m,
            collections@[cc].location_per_cell_group_id@,
            #[trigger] located@[cc]@,
        ) by {
            if cc < c {
                assert(located@[cc] == before[cc]);
            }
        }
        c = c + 1;
    }
    located
}

/// Whether a cell at `x` touches, along one axis, one of the locations of `overlap`.
pub fn touches_location(overlap: &Vec<(i32, i32)>, x: (i32, i32)) -> (touches: bool)
    ensures
        touches == exists|y: (i32, i32)| overlap@.contains(y) && is_orthogonal_neighbor(x, y),
{
    let touches = (x.0 > i32::MIN && contains_location(overlap, (x.0 - 1, x.1))) || (x.0 < i32::MAX
        && contains_location(overlap, (x.0 + 1, x.1))) || (x.1 > i32::MIN && contains_location(
        overlap,
        (x.0, x.1 - 1),
    )) || (x.1 < i32::MAX && contains_location(overlap, (x.0, x.1 + 1)));
    proof {
        if touches {
            if x.0 > i32::MIN && overlap@.contains(((x.0 - 1) as i32, x.1)) {
                assert(is_orthogonal_neighbor(x, ((x.0 - 1) as i32, x.1)));
            } else if x.0 < i32::MAX && overlap@.contains(((x.0 + 1) as i32, x.1)) {
                assert(is_orthogonal_neighbor(x, ((x.0 + 1) as i32, x.1)));
            } else if x.1 > i32::MIN && overlap@.contains((x.0, (x.1 - 1) as i32)) {
                assert(is_orthogonal_neighbor(x, (x.0, (x.1 - 1) as i32)));
            } else {
                assert(is_orthogonal_neighbor(x, (x.0, (x.1 + 1) as i32)));
            }
        } else {
            assert forall|y: (i32, i32)| overlap@.contains(y) implies !is_orthogonal_neighbor(x, y) by {
                if is_orthogonal_neighbor(x, y) {
                    if y.1 == x.1 && y.0 == x.0 - 1 {
                        assert(y == ((x.0 - 1) as i32, x.1));
                    } else if y.1 == x.1 && y.0 == x.0 + 1 {
                        assert(y == ((x.0 + 1) as i32, x.1));
                    } else if y.0 == x.0 && y.1 == x.1 - 1 {
                        assert(y == (x.0, (x.1 - 1) as i32));
                    } else {
                        assert(y == (x.0, (x.1 + 1) as i32));
                    }
                }
            }
        }
    }
    touches
}

/// Whether, with cell group `id` at `location`, the cell group placed as `placed` can be there.
pub fn placement_possible_exec(
    detection_locations: &Vec<DetectionLocations>,
    id: u64,
    location: (i32, i32),
    overlap: &Vec<(i32, i32)>,
    adjacent: &Vec<u64>,
    placed: &LocatedCells,
    Ghost(m): Ghost<ManagerModel>,
) -> (possible: bool)
    requires
        forall|i: int|
            0 <= i < detection_locations@.len() ==> detection_locations_sound(
                m,
                #[trigger] detection_locations@[i],
            ),
        has_detection_locations(detection_locations@, id, location, placed.cell_group_type),
        forall|x: (i32, i32)| #[trigger] overlap@.contains(x) <==> is_overlap_location(m, id, location, x),
        m.adjacency.contains_key(id),
        forall|y: u64| #[trigger] adjacent@.contains(y) <==> m.adjacency[id].contains(y),
        m.cell_groups.contains_key(placed.cell_group_id),
        placed.cell_group_type == m.cell_groups[placed.cell_group_id].cell_group_type,
        placed.cells@ == located_cells(m, placed.cell_group_id, placed.location),
    ensures
        possible == placement_possible(m, id, location, placed.cell_group_id, placed.location),
{
    let ghost cells = placed.cells@;
    let di = match find_detection_locations(detection_locations, id, location, placed.cell_group_type) {
        Some(di) => di,
        None => {
            return false;
        },
    };
    let detection = &detection_locations[di].locations;
    assert(detection_locations_sound(m, detection_locations@[di as int]));
    let is_adjacency_expected = contains_id(adjacent, placed.cell_group_id);
    let mut is_adjacent = false;
    let mut is_valid_cell_group = true;

    // check that the placed cells lie neither on the cell group nor where it detects their type
    let mut k: usize = 0;
    while k < placed.cells.len()
        invariant_except_break
            is_valid_cell_group,
            forall|kk: int|
                0 <= kk < k ==> !overlap@.contains(#[trigger] cells[kk]) && !detection@.contains(cells[kk]),
        invariant
            k <= cells.len(),
            cells == placed.cells@,
            is_adjacent == (is_adjacency_expected && exists|kk: int|
                0 <= kk < k && touches_overlap(m, id, location, #[trigger] cells[kk])),
            forall|x: (i32, i32)| #[trigger] overlap@.contains(x) <==> is_overlap_location(m, id, location, x),
        ensures
            is_valid_cell_group ==> forall|kk: int|
                0 <= kk < cells.len() ==> !overlap@.contains(#[trigger] cells[kk]) && !detection@.contains(
                    cells[kk],
                ),
            is_valid_cell_group ==> is_adjacent == (is_adjacency_expected && exists|kk: int|
                0 <= kk < cells.len() && touches_overlap(m, id, location, #[trigger] cells[kk])),
            !is_valid_cell_group ==> exists|kk: int|
                0 <= kk < cells.len() && (overlap@.contains(#[trigger] cells[kk]) || detection@.contains(
                    cells[kk],
                )),
        decreases cells.len() - k,
    {
        let located_cell = placed.cells[k];
        if contains_location(overlap, located_cell) || contains_location(detection, located_cell) {
            is_valid_cell_group = false;
            assert(cells[k as int] == located_cell);
            break;
        }
        if is_adjacency_expected {
            if touches_location(overlap, located_cell) {
                is_adjacent = true;
            }
        }
        proof {
            let b = exists|y: (i32, i32)| overlap@.contains(y) && is_orthogonal_neighbor(located_cell, y);
            assert(b == touches_overlap(m, id, location, located_cell));
            assert(cells[k as int] == located_cell);
            if is_adjacency_expected && !b {
                assert forall|kk: int| 0 <= kk < k + 1 && touches_overlap(m, id, location, #[trigger] cells[kk])
                    implies kk < k by {}
            }
        }
        k = k + 1;
    }
    if is_adjacency_expected && !is_adjacent {
        is_valid_cell_group = false;
    }
    proof {
        let t = m.cell_groups[placed.cell_group_id].cell_group_type;
        assert(detection_locations@[di as int].cell_group_type == t);
        if !is_valid_cell_group && !(is_adjacency_expected && !is_adjacent) {
            let kk = choose|kk: int|
                0 <= kk < cells.len() && (overlap@.contains(#[trigger] cells[kk]) || detection@.contains(
                    cells[kk],
                ));
            assert(is_overlap_location(m, id, location, cells[kk]) || is_detection_location(m, id, location, t, cells[kk]));
        }
    }
    is_valid_cell_group
}

/// Whether, with cell group `id` at `location`, every placement of a collection is possible.
pub fn collection_possible_exec(
    detection_locations: &Vec<DetectionLocations>,
    id: u64,
    location: (i32, i32),
    overlap: &Vec<(i32, i32)>,
    adjacent: &Vec<u64>,
    located: &Vec<LocatedCells>,
    Ghost(m): Ghost<ManagerModel>,
    Ghost(c): Ghost<u64>,
) -> (possible: bool)
    requires
        forall|i: int|
            0 <= i < detection_locations@.len() ==> detection_locations_sound(
                m,
                #[trigger] detection_locations@[i],
            ),
        forall|x: (i32, i32)| #[trigger] overlap@.contains(x) <==> is_overlap_location(m, id, location, x),
        m.adjacency.contains_key(id),
        forall|y: u64| #[trigger] adjacent@.contains(y) <==> m.adjacency[id].contains(y),
        m.collections.contains_key(c),
        located_sound(m, m.collections[c], located@),
        forall|p: int|
            0 <= p < m.collections[c].len() ==> has_detection_locations(
                detection_locations@,
                id,
                location,
                m.cell_groups[(#[trigger] m.collections[c][p]).0].cell_group_type,
            ),
    ensures
        possible == collection_possible(m, id, location, c),
{
    let mut is_valid_cell_group_location_collection = true;
    let mut p: usize = 0;
    while p < located.len()
        invariant
            p <= located@.len(),
            forall|i: int|
                0 <= i < detection_locations@.len() ==> detection_locations_sound(
                    m,
                    #[trigger] detection_locations@[i],
                ),
            forall|x: (i32, i32)| #[trigger] overlap@.contains(x) <==> is_overlap_location(m, id, location, x),
            m.adjacency.contains_key(id),
            forall|y: u64| #[trigger] adjacent@.contains(y) <==> m.adjacency[id].contains(y),
            m.collections.contains_key(c),
            forall|pp: int|
                0 <= pp < m.collections[c].len() ==> has_detection_locations(
                    detection_locations@,
                    id,
                    location,
                    m.cell_groups[(#[trigger] m.collections[c][pp]).0].cell_group_type,
                ),
            located_sound(m, m.collections[c], located@),
            is_valid_cell_group_location_collection == forall|pp: int|
                0 <= pp < p ==> placement_possible(
                    m,
                    id,
                    location,
                    m.collections[c][pp].0,
                    #[trigger] m.collections[c][pp].1,
                ),
        decreases located@.len() - p,
    {
        let placed = &located[p];
        assert(m.collections[c][p as int] == (placed.cell_group_id, placed.location));
        let possible = placement_possible_exec(
            detection_locations,
            id,
            location,
            overlap,
            adjacent,
            placed,
            Ghost(m),
        );
        if !possible {
            is_valid_cell_group_location_collection = false;
        }
        p = p + 1;
    }
    is_valid_cell_group_location_collection
}

/// A dependency reduced from one whose detection locations are all there has its detection
/// locations there too.
pub proof fn lemma_detection_complete_for_reduced(
    m: ManagerModel,
    id: u64,
    v: Seq<DetectionLocations>,
    r: DependencyModel,
    d: DependencyModel,
)
    requires
        reduced_from(m, id, r, d),
        detection_locations_complete_for(m, v, d),
    ensures
        detection_locations_complete_for(m, v, r),
{
    assert forall|j: int, p: int|
        #![trigger m.collections[r.collections[j]][p]]
        0 <= j < r.collections.len() && 0 <= p < m.collections[r.collections[j]].len()
            implies has_detection_locations(
            v,
            r.cell_group_id,
            r.location,
            m.cell_groups[m.collections[r.collections[j]][p].0].cell_group_type,
        ) by {
        assert(collection_possible(m, id, r.location, r.collections[j]));
        let jj = choose|jj: int| 0 <= jj < d.collections.len() && d.collections[jj] == r.collections[j];
        assert(m.collections[d.collections[jj]][p] == m.collections[r.collections[j]][p]);
    }
}


/// The position of an entry of `v` for cell group `id` at `location` (meaningful where
/// `has_overlap` holds).
pub open spec fn overlap_index(v: Seq<OverlapLocations>, id: u64, location: (i32, i32)) -> int {
    choose|i: int| 0 <= i < v.len() && v[i].cell_group_id == id && v[i].location == location
}

/// The covered locations as a map: by cell group, then by location.
pub open spec fn overlap_view(v: Seq<OverlapLocations>) -> Map<u64, Map<(i32, i32), Set<(i32, i32)>>> {
    Map::new(
        |id: u64| exists|i: int| 0 <= i < v.len() && v[i].cell_group_id == id,
        |id: u64|
            Map::new(
                |location: (i32, i32)| has_overlap(v, id, location),
                |location: (i32, i32)| v[overlap_index(v, id, location)].locations@.to_set(),
            ),
    )
}

/// The position of an entry of `v` for cell group `id` at `location` towards type `t`
/// (meaningful where `has_detection_locations` holds).
pub open spec fn detection_index(v: Seq<DetectionLocations>, id: u64, location: (i32, i32), t: u64) -> int {
    choose|i: int|
        0 <= i < v.len() && v[i].cell_group_id == id && v[i].location == location
            && v[i].cell_group_type == t
}

/// The detection locations as a map: by cell group, then by location (one for each of `keys`),
/// then by the type detected.
pub open spec fn detection_view(v: Seq<DetectionLocations>, keys: Seq<(u64, (i32, i32))>) -> Map<
    u64,
    Map<(i32, i32), Map<u64, Set<(i32, i32)>>>,
> {
    Map::new(
        |id: u64| exists|i: int| 0 <= i < keys.len() && keys[i].0 == id,
        |id: u64|
            Map::new(
                |location: (i32, i32)| keys.contains((id, location)),
                |location: (i32, i32)|
                    Map::new(
                        |t: u64| has_detection_locations(v, id, location, t),
                        |t: u64| v[detection_index(v, id, location, t)].locations@.to_set(),
                    ),
            ),
    )
}

/// The position of collection `c` in `collections` (meaningful where it is there).
pub open spec fn collection_index(collections: Seq<CellGroupLocationCollection>, c: u64) -> int {
    choose|i: int| 0 <= i < collections.len() && collections[i].id == c
}

/// `e` places cell group `key.0` of type `key.1` at `key.2`.
pub open spec fn places(e: LocatedCells, key: (u64, u64, (i32, i32))) -> bool {
    e.cell_group_id == key.0 && e.cell_group_type == key.1 && e.location == key.2
}

/// The position of the placement `key` in `located` (meaningful where there is one).
pub open spec fn placement_index(located: Seq<LocatedCells>, key: (u64, u64, (i32, i32))) -> int {
    choose|p: int| 0 <= p < located.len() && places(located[p], key)
}

/// The cells placed by one collection as a map, keyed by the placed cell group, its type and
/// its location.
pub open spec fn placements_view(located: Seq<LocatedCells>) -> Map<(u64, u64, (i32, i32)), Seq<(i32, i32)>> {
    Map::new(
        |key: (u64, u64, (i32, i32))| exists|p: int| 0 <= p < located.len() && places(located[p], key),
        |key: (u64, u64, (i32, i32))| located[placement_index(located, key)].cells@,
    )
}

/// The placed cells as a map: by collection, then by the placed cell group, its type and its
/// location.
pub open spec fn located_view(
    collections: Seq<CellGroupLocationCollection>,
    located: Seq<Vec<LocatedCells>>,
) -> Map<u64, Map<(u64, u64, (i32, i32)), Seq<(i32, i32)>>> {
    Map::new(
        |c: u64| exists|i: int| 0 <= i < collections.len() && collections[i].id == c,
        |c: u64| placements_view(located[collection_index(collections, c)]@),
    )
}

/// The cell group and location of every dependency of `dependency_groups`.
pub fn detection_keys_of(dependency_groups: &Vec<(u64, Vec<CellGroupLocationDependency>)>) -> (keys: Vec<
    (u64, (i32, i32)),
>)
    ensures
        forall|id: u64, location: (i32, i32)|
            #[trigger] keys@.contains((id, location)) <==> dependency_at(
                dependency_group_models(dependency_groups@),
                id,
                location,
            ),
        forall|i: int| 0 <= i < keys@.len() ==> keys@.contains(#[trigger] keys@[i]),
{
    let ghost g = dependency_group_models(dependency_groups@);
    let mut keys: Vec<(u64, (i32, i32))> = Vec::new();
    let mut j: usize = 0;
    while j < dependency_groups.len()
        invariant
            j <= dependency_groups@.len(),
            g == dependency_group_models(dependency_groups@),
            forall|id: u64, location: (i32, i32)|
                #[trigger] keys@.contains((id, location)) <==> exists|jj: int, k: int|
                    #![trigger g[jj].1[k]]
                    0 <= jj < j && 0 <= k < g[jj].1.len() && g[jj].0 == id && g[jj].1[k].location == location,
        decreases dependency_groups@.len() - j,
    {
        let id = dependency_groups[j].0;
        let dependencies = &dependency_groups[j].1;
        assert(g[j as int].0 == id);
        assert(g[j as int].1 == dependency_models(dependencies@));
        let mut k: usize = 0;
        while k < dependencies.len()
            invariant
                j < dependency_groups@.len(),
                k <= dependencies@.len(),
                g == dependency_group_models(dependency_groups@),
                g[j as int].0 == id,
                g[j as int].1 == dependency_models(dependencies@),
                forall|id2: u64, location: (i32, i32)|
                    #[trigger] keys@.contains((id2, location)) <==> (exists|jj: int, kk: int|
                        #![trigger g[jj].1[kk]]
                        0 <= jj < j && 0 <= kk < g[jj].1.len() && g[jj].0 == id2 && g[jj].1[kk].location
                            == location) || (id2 == id && exists|kk: int|
                        0 <= kk < k && (#[trigger] g[j as int].1[kk]).location == location),
            decreases dependencies@.len() - k,
        {
            let location = dependencies[k].location;
            assert(g[j as int].1[k as int].location == location);
            let ghost before = keys@;
            keys.push((id, location));
            assert forall|id2: u64, location2: (i32, i32)|
                #[trigger] keys@.contains((id2, location2)) <==> (before.contains((id2, location2)) || (id2
                    == id && location2 == location)) by {
                if keys@.contains((id2, location2)) {
                    let q = choose|q: int| 0 <= q < keys@.len() && keys@[q] == (id2, location2);
                    if q < before.len() {
                        assert(before[q] == (id2, location2));
                    }
                }
                if before.contains((id2, location2)) {
                    let q = choose|q: int| 0 <= q < before.len() && before[q] == (id2, location2);
                    assert(keys@[q] == before[q]);
                }
                if id2 == id && location2 == location {
                    assert(keys@[before.len() as int] == (id2, location2));
                }
            }
            k = k + 1;
        }
        assert forall|id2: u64, location: (i32, i32)|
            #[trigger] keys@.contains((id2, location)) <==> exists|jj: int, kk: int|
                #![trigger g[jj].1[kk]]
                0 <= jj < j + 1 && 0 <= kk < g[jj].1.len() && g[jj].0 == id2 && g[jj].1[kk].location == location by {
            if exists|jj: int, kk: int|
                #![trigger g[jj].1[kk]]
                0 <= jj < j + 1 && 0 <= kk < g[jj].1.len() && g[jj].0 == id2 && g[jj].1[kk].location == location {
                let (jj, kk) = choose|jj: int, kk: int|
                    #![trigger g[jj].1[kk]]
                    0 <= jj < j + 1 && 0 <= kk < g[jj].1.len() && g[jj].0 == id2 && g[jj].1[kk].location == location;
                if jj == j {
                    assert(g[j as int].1[kk].location == location);
                }
            }
        }
        j = j + 1;
    }
    assert forall|i: int| 0 <= i < keys@.len() implies keys@.contains(#[trigger] keys@[i]) by {}
    keys
}

/// Covered locations kept for exactly the dependencies' cell groups and locations are those the
/// model expects.
pub proof fn lemma_overlap_view_exact(m: ManagerModel, v: Seq<OverlapLocations>)
    requires
        forall|i: int| 0 <= i < v.len() ==> overlap_sound(m, #[trigger] v[i]),
        forall|i: int|
            0 <= i < v.len() ==> dependency_at(m.dependency_groups, (#[trigger] v[i]).cell_group_id, v[i].location),
        forall|j: int, k: int|
            0 <= j < m.dependency_groups.len() && m.cell_groups.contains_key(m.dependency_groups[j].0)
                && 0 <= k < m.dependency_groups[j].1.len() ==> #[trigger] has_overlap(
                v,
                m.dependency_groups[j].0,
                m.dependency_groups[j].1[k].location,
            ),
        forall|id: u64| #[trigger] m.cell_groups.contains_key(id) ==> has_dependency(m.dependency_groups, id),
    ensures
        overlap_view(v) == expected_overlap_cache(m),
{
    let e = expected_overlap_cache(m);
    let w = overlap_view(v);
    let groups = m.dependency_groups;
    assert forall|id: u64| #[trigger] w.contains_key(id) <==> e.contains_key(id) by {
        if w.contains_key(id) {
            let i = choose|i: int| 0 <= i < v.len() && v[i].cell_group_id == id;
            assert(overlap_sound(m, v[i]));
        }
        if e.contains_key(id) {
            assert(has_dependency(groups, id));
            let (j, k) = lemma_dependency_witness(groups, id);
            assert(m.cell_groups.contains_key(groups[j].0));
            assert(has_overlap(v, groups[j].0, groups[j].1[k].location));
            let i = overlap_index(v, id, groups[j].1[k].location);
            assert(0 <= i < v.len() && v[i].cell_group_id == id);
        }
    }
    assert forall|id: u64| e.contains_key(id) implies #[trigger] w[id] == e[id] by {
        assert(w.contains_key(id));
        assert forall|location: (i32, i32)| #[trigger] w[id].contains_key(location) <==> e[id].contains_key(location) by {
            if has_overlap(v, id, location) {
                let i = overlap_index(v, id, location);
                assert(dependency_at(groups, v[i].cell_group_id, v[i].location));
            }
            if dependency_at(groups, id, location) {
                let (j, k) = lemma_dependency_at_witness(groups, id, location);
                assert(has_overlap(v, groups[j].0, groups[j].1[k].location));
            }
        }
        assert forall|location: (i32, i32)| e[id].contains_key(location) implies #[trigger] w[id][location]
            == e[id][location] by {
            assert(w[id].contains_key(location));
            let i = overlap_index(v, id, location);
            assert(overlap_sound(m, v[i]));
            assert(v[i].locations@.to_set() =~= Set::new(|x: (i32, i32)| is_overlap_location(m, id, location, x)));
        }
        assert(w[id] =~= e[id]);
    }
    assert(w =~= e);
}

/// Detection locations kept for exactly the dependencies' cell groups, locations and met types
/// are those the model expects.
pub proof fn lemma_detection_view_exact(
    m: ManagerModel,
    din: Seq<DependencyModel>,
    v: Seq<DetectionLocations>,
    keys: Seq<(u64, (i32, i32))>,
)
    requires
        m.dependency_groups == dependency_grouping(din),
        forall|i: int| 0 <= i < v.len() ==> detection_locations_sound(m, #[trigger] v[i]),
        forall|i: int| 0 <= i < v.len() ==> detection_entry_needed(m, #[trigger] v[i], din),
        forall|i: int| 0 <= i < din.len() ==> detection_locations_complete_for(m, v, #[trigger] din[i]),
        forall|id: u64, location: (i32, i32)|
            #[trigger] keys.contains((id, location)) <==> dependency_at(m.dependency_groups, id, location),
    ensures
        detection_view(v, keys) == expected_detection_cache(m),
{
    let e = expected_detection_cache(m);
    let w = detection_view(v, keys);
    let groups = m.dependency_groups;
    lemma_dependency_grouping(din);
    assert forall|id: u64| #[trigger] w.contains_key(id) <==> e.contains_key(id) by {
        if w.contains_key(id) {
            let i = choose|i: int| 0 <= i < keys.len() && keys[i].0 == id;
            assert(keys.contains((id, keys[i].1)));
            let (j, k) = lemma_dependency_at_witness(groups, id, keys[i].1);
            assert(has_dependency(groups, id));
        }
        if e.contains_key(id) {
            assert(has_dependency(groups, id));
            let (j, k) = lemma_dependency_witness(groups, id);
            assert(dependency_at(groups, id, groups[j].1[k].location));
            assert(keys.contains((id, groups[j].1[k].location)));
            let i = choose|i: int| 0 <= i < keys.len() && keys[i] == (id, groups[j].1[k].location);
            assert(keys[i].0 == id);
        }
    }
    assert forall|id: u64| e.contains_key(id) implies #[trigger] w[id] == e[id] by {
        assert(w.contains_key(id));
        assert forall|location: (i32, i32)| #[trigger] w[id].contains_key(location) <==> e[id].contains_key(location) by {
            assert(keys.contains((id, location)) <==> dependency_at(groups, id, location));
        }
        assert forall|location: (i32, i32)| e[id].contains_key(location) implies #[trigger] w[id][location]
            == e[id][location] by {
            let wl = w[id][location];
            let el = e[id][location];
            assert forall|t: u64| #[trigger] wl.contains_key(t) <==> el.contains_key(t) by {
                if has_detection_locations(v, id, location, t) {
                    let i = detection_index(v, id, location, t);
                    assert(detection_entry_needed(m, v[i], din));
                    let ii = choose|ii: int| 0 <= ii < din.len() && #[trigger] detection_entry_from(m, v[i], din[ii]);
                    law_grouping_keeps_dependencies(din, ii);
                    let j = choose|j: int|
                        0 <= j < groups.len() && groups[j].0 == din[ii].cell_group_id
                            && (#[trigger] groups[j]).1.contains(din[ii]);
                    let k = choose|k: int| 0 <= k < groups[j].1.len() && groups[j].1[k] == din[ii];
                    assert(dependency_meets_type(m, groups[j].1[k], t));
                    assert(dependency_at_meets_type(m, groups, id, location, t));
                }
                if dependency_at_meets_type(m, groups, id, location, t) {
                    let (j, k) = choose|j: int, k: int|
                        #![trigger groups[j].1[k]]
                        0 <= j < groups.len() && 0 <= k < groups[j].1.len() && groups[j].0 == id
                            && groups[j].1[k].location == location && dependency_meets_type(m, groups[j].1[k], t);
                    let d = groups[j].1[k];
                    assert(d.cell_group_id == id);
                    let i = choose|i: int| 0 <= i < din.len() && din[i] == d;
                    assert(detection_locations_complete_for(m, v, din[i]));
                    let (c, p) = choose|c: int, p: int|
                        #![trigger m.collections[d.collections[c]][p]]
                        0 <= c < d.collections.len() && 0 <= p < m.collections[d.collections[c]].len()
                            && m.cell_groups[m.collections[d.collections[c]][p].0].cell_group_type == t;
                    assert(has_detection_locations(
                        v,
                        d.cell_group_id,
                        d.location,
                        m.cell_groups[m.collections[d.collections[c]][p].0].cell_group_type,
                    ));
                }
            }
            assert forall|t: u64| el.contains_key(t) implies #[trigger] wl[t] == el[t] by {
                assert(wl.contains_key(t));
                let i = detection_index(v, id, location, t);
                assert(detection_locations_sound(m, v[i]));
                assert(v[i].locations@.to_set() =~= Set::new(
                    |x: (i32, i32)| is_detection_location(m, id, location, t, x),
                ));
            }
            assert(wl =~= el);
        }
        assert(w[id] =~= e[id]);
    }
    assert(w =~= e);
}

/// The cells placed by every collection, one list per placement, are those the model expects.
pub proof fn lemma_located_view_exact(
    m: ManagerModel,
    collections: Seq<CellGroupLocationCollection>,
    located: Seq<Vec<LocatedCells>>,
)
    requires
        keys_unique(collection_entries(collection_models(collections))),
        m.collections == collection_lookup(collection_models(collections)),
        located.len() == collections.len(),
        forall|c: int|
            0 <= c < collections.len() ==> located_sound(
                m,
                collections[c].location_per_cell_group_id@,
                #[trigger] located[c]@,
            ),
    ensures
        located_view(collections, located) == expected_located_cache(m),
{
    let e = expected_located_cache(m);
    let w = located_view(collections, located);
    assert forall|c: u64| #[trigger] w.contains_key(c) <==> e.contains_key(c) by {
        if w.contains_key(c) {
            let i = collection_index(collections, c);
            lemma_stored_collection(collections, i);
        }
        if e.contains_key(c) {
            lemma_collection_stored(collections, c);
        }
    }
    assert forall|c: u64| e.contains_key(c) implies #[trigger] w[c] == e[c] by {
        lemma_collection_stored(collections, c);
        let i = collection_index(collections, c);
        lemma_stored_collection(collections, i);
        let placements = collections[i].location_per_cell_group_id@;
        let l = located[i]@;
        assert(located_sound(m, placements, l));
        assert(m.collections[c] == placements);
        assert forall|key: (u64, u64, (i32, i32))| #[trigger] w[c].contains_key(key) <==> e[c].contains_key(key) by {
            if w[c].contains_key(key) {
                let p = placement_index(l, key);
                assert(places(l[p], key));
                assert(m.collections[c][p] == (key.0, key.2));
            }
            if e[c].contains_key(key) {
                let p = choose|p: int|
                    0 <= p < m.collections[c].len() && m.collections[c][p] == (key.0, key.2)
                        && m.cell_groups[key.0].cell_group_type == key.1;
                assert(places(l[p], key));
            }
        }
        assert forall|key: (u64, u64, (i32, i32))| e[c].contains_key(key) implies #[trigger] w[c][key] == e[c][key] by {
            assert(w[c].contains_key(key));
            let p = placement_index(l, key);
            assert(places(l[p], key));
        }
        assert(w[c] =~= e[c]);
    }
    assert(w =~= e);
}
} // verus!
