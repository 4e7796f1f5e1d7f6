//! The mathematical model of cell groups, their placements and the dependencies between
//! them, and the rule that decides which placements are possible.
use vstd::prelude::*;

verus! {

// ---------------------------------------------------------------------------------------
// Locations
// ---------------------------------------------------------------------------------------

/// Whether `a + b` can be computed on both axes without leaving the `i32` range.
pub open spec fn fits_sum(a: (i32, i32), b: (i32, i32)) -> bool {
    &&& i32::MIN <= a.0 + b.0 <= i32::MAX
    &&& i32::MIN <= a.1 + b.1 <= i32::MAX
}

/// `a` moved by `b` (exact wherever `fits_sum(a, b)` holds).
pub open spec fn shift(a: (i32, i32), b: (i32, i32)) -> (i32, i32) {
    ((a.0 + b.0) as i32, (a.1 + b.1) as i32)
}

/// `y` is one step away from `x` along one axis.
pub open spec fn is_orthogonal_neighbor(x: (i32, i32), y: (i32, i32)) -> bool {
    ||| y.1 == x.1 && (y.0 == x.0 - 1 || y.0 == x.0 + 1)
    ||| y.0 == x.0 && (y.1 == x.1 - 1 || y.1 == x.1 + 1)
}

// ---------------------------------------------------------------------------------------
// The parts a manager is made of
// ---------------------------------------------------------------------------------------

/// A cell group: an identifier, the cells it covers relative to its own location, and its type.
pub struct CellGroupModel {
    pub id: u64,
    pub cells: Seq<(i32, i32)>,
    pub cell_group_type: u64,
}

/// A specific arrangement of cell groups: one location per listed cell group.
pub struct CollectionModel {
    pub id: u64,
    pub placements: Seq<(u64, (i32, i32))>,
}

/// "This" cell group at "this" location depends on one of "these" collections being possible.
pub struct DependencyModel {
    pub cell_group_id: u64,
    pub location: (i32, i32),
    pub collections: Seq<u64>,
}

/// What a manager holds: the lookups built from its inputs and the dependencies, grouped by
/// the cell group that they are about (in order of first appearance).
pub struct ManagerModel {
    pub cell_groups: Map<u64, CellGroupModel>,
    pub collections: Map<u64, Seq<(u64, (i32, i32))>>,
    pub detection_offsets: Map<(u64, u64), Seq<(i32, i32)>>,
    pub adjacency: Map<u64, Set<u64>>,
    pub dependency_groups: Seq<(u64, Seq<DependencyModel>)>,
}

// ---------------------------------------------------------------------------------------
// Lookups built from lists (a later entry replaces an earlier one with the same key)
// ---------------------------------------------------------------------------------------

/// The map in which each key is bound to the value of its last entry in `s`.
pub open spec fn keyed_map<K, V>(s: Seq<(K, V)>) -> Map<K, V>
    decreases s.len(),
{
    if s.len() == 0 {
        Map::empty()
    } else {
        keyed_map(s.drop_last()).insert(s.last().0, s.last().1)
    }
}

/// No key occurs twice in `s`.
pub open spec fn keys_unique<K, V>(s: Seq<(K, V)>) -> bool {
    forall|i: int, j: int| 0 <= i < s.len() && 0 <= j < s.len() && i != j ==> s[i].0 != s[j].0
}

pub open spec fn cell_group_entries(s: Seq<CellGroupModel>) -> Seq<(u64, CellGroupModel)> {
    s.map_values(|g: CellGroupModel| (g.id, g))
}

pub open spec fn collection_entries(s: Seq<CollectionModel>) -> Seq<(u64, Seq<(u64, (i32, i32))>)> {
    s.map_values(|c: CollectionModel| (c.id, c.placements))
}

/// The cell groups by identifier.
pub open spec fn cell_group_lookup(s: Seq<CellGroupModel>) -> Map<u64, CellGroupModel> {
    keyed_map(cell_group_entries(s))
}

/// The collections by identifier.
pub open spec fn collection_lookup(s: Seq<CollectionModel>) -> Map<u64, Seq<(u64, (i32, i32))>> {
    keyed_map(collection_entries(s))
}

/// Each offset list under both orders of its pair of cell group types.
pub open spec fn directed_offset_entries(s: Seq<((u64, u64), Seq<(i32, i32)>)>) -> Seq<
    ((u64, u64), Seq<(i32, i32)>),
>
    decreases s.len(),
{
    if s.len() == 0 {
        Seq::empty()
    } else {
        let e = s.last();
        directed_offset_entries(s.drop_last()).push(e).push(((e.0.1, e.0.0), e.1))
    }
}

/// The detection offsets from one cell group type towards another.
pub open spec fn detection_offset_lookup(s: Seq<((u64, u64), Seq<(i32, i32)>)>) -> Map<
    (u64, u64),
    Seq<(i32, i32)>,
> {
    keyed_map(directed_offset_entries(s))
}

/// No pair of types is given twice, in either order, and no type is paired with itself.
pub open spec fn offset_pairs_distinct(s: Seq<((u64, u64), Seq<(i32, i32)>)>) -> bool {
    &&& forall|i: int| 0 <= i < s.len() ==> s[i].0.0 != s[i].0.1
    &&& forall|i: int, j: int|
        0 <= i < j < s.len() ==> s[i].0 != s[j].0 && s[i].0 != (s[j].0.1, s[j].0.0)
}

/// `x` and `y` are listed together in one of `pairs`, in either order.
pub open spec fn paired(pairs: Seq<(u64, u64)>, x: u64, y: u64) -> bool {
    exists|i: int| 0 <= i < pairs.len() && (pairs[i] == (x, y) || pairs[i] == (y, x))
}

/// `x` occurs in one of `pairs`.
pub open spec fn in_some_pair(pairs: Seq<(u64, u64)>, x: u64) -> bool {
    exists|i: int| 0 <= i < pairs.len() && (pairs[i].0 == x || pairs[i].1 == x)
}

/// The cell groups expected to be adjacent to each cell group.
pub open spec fn adjacency_lookup(pairs: Seq<(u64, u64)>) -> Map<u64, Set<u64>> {
    Map::new(|x: u64| in_some_pair(pairs, x), |x: u64| Set::new(|y: u64| paired(pairs, x, y)))
}

/// The identifiers of the cell groups that dependencies are about, in order of first appearance.
pub open spec fn dependency_ids(s: Seq<DependencyModel>) -> Seq<u64>
    decreases s.len(),
{
    if s.len() == 0 {
        Seq::empty()
    } else {
        let ids = dependency_ids(s.drop_last());
        if ids.contains(s.last().cell_group_id) {
            ids
        } else {
            ids.push(s.last().cell_group_id)
        }
    }
}

/// The dependencies about cell group `id`, in their order in `s`.
pub open spec fn dependencies_of(s: Seq<DependencyModel>, id: u64) -> Seq<DependencyModel>
    decreases s.len(),
{
    if s.len() == 0 {
        Seq::empty()
    } else {
        let rest = dependencies_of(s.drop_last(), id);
        if s.last().cell_group_id == id {
            rest.push(s.last())
        } else {
            rest
        }
    }
}

/// The dependencies grouped by the cell group they are about.
pub open spec fn dependency_grouping(s: Seq<DependencyModel>) -> Seq<(u64, Seq<DependencyModel>)> {
    dependency_ids(s).map_values(|id: u64| (id, dependencies_of(s, id)))
}

/// All dependencies of `groups`, group after group.
pub open spec fn all_dependencies(groups: Seq<(u64, Seq<DependencyModel>)>) -> Seq<DependencyModel>
    decreases groups.len(),
{
    if groups.len() == 0 {
        Seq::empty()
    } else {
        all_dependencies(groups.drop_last()) + groups.last().1
    }
}

/// The model of a manager built from these inputs.
pub open spec fn manager_model(
    cell_groups: Seq<CellGroupModel>,
    collections: Seq<CollectionModel>,
    detection_offsets: Seq<((u64, u64), Seq<(i32, i32)>)>,
    adjacent_pairs: Seq<(u64, u64)>,
    dependencies: Seq<DependencyModel>,
) -> ManagerModel {
    ManagerModel {
        cell_groups: cell_group_lookup(cell_groups),
        collections: collection_lookup(collections),
        detection_offsets: detection_offset_lookup(detection_offsets),
        adjacency: adjacency_lookup(adjacent_pairs),
        dependency_groups: dependency_grouping(dependencies),
    }
}

// ---------------------------------------------------------------------------------------
// Detection cells and locations
// ---------------------------------------------------------------------------------------

/// `x` is a detection cell of a cell group with these cells and these detection offsets:
/// one of its cells, or one of its cells moved by one of the offsets.
pub open spec fn is_detection_cell(cells: Seq<(i32, i32)>, offsets: Seq<(i32, i32)>, x: (i32, i32)) -> bool {
    exists|k: int|
        0 <= k < cells.len() && (x == cells[k] || exists|j: int|
            0 <= j < offsets.len() && x == shift(cells[k], offsets[j]))
}

/// All sums needed for the detection cells can be computed.
pub open spec fn detection_cells_fit(cells: Seq<(i32, i32)>, offsets: Seq<(i32, i32)>) -> bool {
    forall|k: int, j: int|
        0 <= k < cells.len() && 0 <= j < offsets.len() ==> fits_sum(cells[k], offsets[j])
}

/// All sums needed for the detection cells placed at `location` can be computed.
pub open spec fn detection_locations_fit(
    location: (i32, i32),
    cells: Seq<(i32, i32)>,
    offsets: Seq<(i32, i32)>,
) -> bool {
    &&& forall|k: int| 0 <= k < cells.len() ==> fits_sum(location, cells[k])
    &&& forall|k: int, j: int|
        0 <= k < cells.len() && 0 <= j < offsets.len() ==> fits_sum(
            location,
            shift(cells[k], offsets[j]),
        )
}

/// `x` is a location that cell group `id`, placed at `location`, detects cell groups of type
/// `t` at.
pub open spec fn is_detection_location(
    m: ManagerModel,
    id: u64,
    location: (i32, i32),
    t: u64,
    x: (i32, i32),
) -> bool {
    &&& m.cell_groups.contains_key(id)
    &&& m.detection_offsets.contains_key((m.cell_groups[id].cell_group_type, t))
    &&& exists|d: (i32, i32)|
        is_detection_cell(
            m.cell_groups[id].cells,
            m.detection_offsets[(m.cell_groups[id].cell_group_type, t)],
            d,
        ) && x == shift(location, d)
}

/// `x` is covered by cell group `id` placed at `location`.
pub open spec fn is_overlap_location(m: ManagerModel, id: u64, location: (i32, i32), x: (i32, i32)) -> bool {
    exists|k: int|
        0 <= k < m.cell_groups[id].cells.len() && x == shift(location, m.cell_groups[id].cells[k])
}

/// The cells of cell group `member` placed at `at`.
pub open spec fn located_cells(m: ManagerModel, member: u64, at: (i32, i32)) -> Seq<(i32, i32)> {
    m.cell_groups[member].cells.map_values(|c: (i32, i32)| shift(at, c))
}

/// `x` touches, along one axis, a cell of cell group `id` placed at `location`.
pub open spec fn touches_overlap(m: ManagerModel, id: u64, location: (i32, i32), x: (i32, i32)) -> bool {
    exists|y: (i32, i32)| is_overlap_location(m, id, location, y) && is_orthogonal_neighbor(x, y)
}

// ---------------------------------------------------------------------------------------
// Which placements are possible
// ---------------------------------------------------------------------------------------

/// With cell group `id` at `location`, cell group `member` can be at `at`: none of its cells
/// lies on a cell of `id` or on a location at which `id` detects its type, and, where the two
/// are expected to be adjacent, one of its cells touches a cell of `id`.
pub open spec fn placement_possible(
    m: ManagerModel,
    id: u64,
    location: (i32, i32),
    member: u64,
    at: (i32, i32),
) -> bool {
    let cells = located_cells(m, member, at);
    let t = m.cell_groups[member].cell_group_type;
    &&& forall|k: int|
        0 <= k < cells.len() ==> !is_overlap_location(m, id, location, cells[k])
            && !is_detection_location(m, id, location, t, cells[k])
    &&& m.adjacency[id].contains(member) ==> exists|k: int|
        0 <= k < cells.len() && touches_overlap(m, id, location, cells[k])
}

/// With cell group `id` at `location`, every placement of collection `c` is possible.
pub open spec fn collection_possible(m: ManagerModel, id: u64, location: (i32, i32), c: u64) -> bool {
    forall|i: int|
        0 <= i < m.collections[c].len() ==> placement_possible(
            m,
            id,
            location,
            m.collections[c][i].0,
            m.collections[c][i].1,
        )
}

/// The collections of `cs` that are possible with cell group `id` at `location`, in order.
pub open spec fn possible_collections(m: ManagerModel, id: u64, location: (i32, i32), cs: Seq<u64>) -> Seq<
    u64,
>
    decreases cs.len(),
{
    if cs.len() == 0 {
        Seq::empty()
    } else {
        let rest = possible_collections(m, id, location, cs.drop_last());
        if collection_possible(m, id, location, cs.last()) {
            rest.push(cs.last())
        } else {
            rest
        }
    }
}

/// The dependencies of cell group `id` once the impossible collections are removed from each,
/// and each dependency that listed collections of which none is possible is removed.
pub open spec fn reduced_dependencies(m: ManagerModel, id: u64, ds: Seq<DependencyModel>) -> Seq<
    DependencyModel,
>
    decreases ds.len(),
{
    if ds.len() == 0 {
        Seq::empty()
    } else {
        let rest = reduced_dependencies(m, id, ds.drop_last());
        let d = ds.last();
        let kept = possible_collections(m, id, d.location, d.collections);
        if d.collections.len() > 0 && kept.len() == 0 {
            rest
        } else {
            rest.push(DependencyModel { cell_group_id: d.cell_group_id, location: d.location, collections: kept })
        }
    }
}

/// Some dependency of cell group `id` in `ds` lists a collection that is not possible.
pub open spec fn reducible(m: ManagerModel, id: u64, ds: Seq<DependencyModel>) -> bool {
    exists|i: int, j: int|
        0 <= i < ds.len() && 0 <= j < ds[i].collections.len() && !collection_possible(
            m,
            id,
            ds[i].location,
            ds[i].collections[j],
        )
}

/// The dependencies about cell group `id` in `groups` (none where it has no group).
pub open spec fn group_dependencies(groups: Seq<(u64, Seq<DependencyModel>)>, id: u64) -> Seq<
    DependencyModel,
>
    decreases groups.len(),
{
    if groups.len() == 0 {
        Seq::empty()
    } else if groups.last().0 == id {
        groups.last().1
    } else {
        group_dependencies(groups.drop_last(), id)
    }
}

/// `m` once the dependencies of cell group `id` are reduced.
pub open spec fn reduce_group(m: ManagerModel, id: u64) -> ManagerModel {
    ManagerModel {
        dependency_groups: m.dependency_groups.map_values(
            |g: (u64, Seq<DependencyModel>)|
                if g.0 == id {
                    (g.0, reduced_dependencies(m, id, g.1))
                } else {
                    g
                },
        ),
        ..m
    }
}

/// `m` once the dependencies of every cell group are reduced.
pub open spec fn validated_model(m: ManagerModel) -> ManagerModel {
    ManagerModel {
        dependency_groups: m.dependency_groups.map_values(
            |g: (u64, Seq<DependencyModel>)|
                if m.cell_groups.contains_key(g.0) {
                    (g.0, reduced_dependencies(m, g.0, g.1))
                } else {
                    g
                },
        ),
        ..m
    }
}

/// The number of dependencies plus the number of collections they list.
pub open spec fn dependency_size(ds: Seq<DependencyModel>) -> nat
    decreases ds.len(),
{
    if ds.len() == 0 {
        0
    } else {
        dependency_size(ds.drop_last()) + 1 + ds.last().collections.len()
    }
}

/// `dependency_size` summed over all groups.
pub open spec fn groups_size(groups: Seq<(u64, Seq<DependencyModel>)>) -> nat
    decreases groups.len(),
{
    if groups.len() == 0 {
        0
    } else {
        groups_size(groups.drop_last()) + dependency_size(groups.last().1)
    }
}

// ---------------------------------------------------------------------------------------
// What the caches hold once a manager is built
// ---------------------------------------------------------------------------------------

/// Some dependency in `groups` is about cell group `id` at `location`.
pub open spec fn dependency_at(groups: Seq<(u64, Seq<DependencyModel>)>, id: u64, location: (i32, i32)) -> bool {
    exists|j: int, k: int|
        #![trigger groups[j].1[k]]
        0 <= j < groups.len() && 0 <= k < groups[j].1.len() && groups[j].0 == id && groups[j].1[k].location
            == location
}

/// Some dependency in `groups` is about cell group `id`.
pub open spec fn has_dependency(groups: Seq<(u64, Seq<DependencyModel>)>, id: u64) -> bool {
    exists|j: int| 0 <= j < groups.len() && (#[trigger] groups[j]).0 == id && groups[j].1.len() > 0
}

/// One of the collections that `d` lists places a cell group of type `t`.
pub open spec fn dependency_meets_type(m: ManagerModel, d: DependencyModel, t: u64) -> bool {
    exists|c: int, p: int|
        #![trigger m.collections[d.collections[c]][p]]
        0 <= c < d.collections.len() && 0 <= p < m.collections[d.collections[c]].len()
            && m.cell_groups[m.collections[d.collections[c]][p].0].cell_group_type == t
}

/// Some dependency in `groups` about cell group `id` at `location` meets type `t`.
pub open spec fn dependency_at_meets_type(
    m: ManagerModel,
    groups: Seq<(u64, Seq<DependencyModel>)>,
    id: u64,
    location: (i32, i32),
    t: u64,
) -> bool {
    exists|j: int, k: int|
        #![trigger groups[j].1[k]]
        0 <= j < groups.len() && 0 <= k < groups[j].1.len() && groups[j].0 == id && groups[j].1[k].location
            == location && dependency_meets_type(m, groups[j].1[k], t)
}

/// The locations covered by each cell group at each location its dependencies give it.
pub open spec fn expected_overlap_cache(m: ManagerModel) -> Map<u64, Map<(i32, i32), Set<(i32, i32)>>> {
    Map::new(
        |id: u64| m.cell_groups.contains_key(id),
        |id: u64|
            Map::new(
                |location: (i32, i32)| dependency_at(m.dependency_groups, id, location),
                |location: (i32, i32)| Set::new(|x: (i32, i32)| is_overlap_location(m, id, location, x)),
            ),
    )
}

/// For the cell group and location of each dependency, the locations at which it detects each
/// type that the dependency's collections place.
pub open spec fn expected_detection_cache(m: ManagerModel) -> Map<
    u64,
    Map<(i32, i32), Map<u64, Set<(i32, i32)>>>,
> {
    Map::new(
        |id: u64| has_dependency(m.dependency_groups, id),
        |id: u64|
            Map::new(
                |location: (i32, i32)| dependency_at(m.dependency_groups, id, location),
                |location: (i32, i32)|
                    Map::new(
                        |t: u64| dependency_at_meets_type(m, m.dependency_groups, id, location, t),
                        |t: u64| Set::new(|x: (i32, i32)| is_detection_location(m, id, location, t, x)),
                    ),
            ),
    )
}

/// For each collection, the cells of each cell group it places, keyed by the cell group, its
/// type and its location.
pub open spec fn expected_located_cache(m: ManagerModel) -> Map<u64, Map<(u64, u64, (i32, i32)), Seq<(i32, i32)>>> {
    Map::new(
        |c: u64| m.collections.contains_key(c),
        |c: u64|
            Map::new(
                |key: (u64, u64, (i32, i32))|
                    exists|p: int|
                        0 <= p < m.collections[c].len() && m.collections[c][p] == (key.0, key.2)
                            && m.cell_groups[key.0].cell_group_type == key.1,
                |key: (u64, u64, (i32, i32))| located_cells(m, key.0, key.2),
            ),
    )
}

// ---------------------------------------------------------------------------------------
// When construction succeeds
// ---------------------------------------------------------------------------------------

/// The inputs describe a manager that can be built: no collection places a cell group twice,
/// no pair of types is given twice, and the lookups built from them are complete
/// (`lookups_constructible`).
pub open spec fn constructible(
    cell_groups: Seq<CellGroupModel>,
    collections: Seq<CollectionModel>,
    detection_offsets: Seq<((u64, u64), Seq<(i32, i32)>)>,
    dependencies: Seq<DependencyModel>,
) -> bool {
    &&& forall|i: int| 0 <= i < collections.len() ==> keys_unique(#[trigger] collections[i].placements)
    &&& offset_pairs_distinct(detection_offsets)
    &&& lookups_constructible(
        cell_group_lookup(cell_groups),
        collection_lookup(collections),
        detection_offset_lookup(detection_offsets),
        dependencies,
    )
}

/// Every cell group type has detection offsets, every cell group has dependencies, every
/// collection and cell group named exists, and every sum of coordinates can be computed.
pub open spec fn lookups_constructible(
    gm: Map<u64, CellGroupModel>,
    cm: Map<u64, Seq<(u64, (i32, i32))>>,
    om: Map<(u64, u64), Seq<(i32, i32)>>,
    dependencies: Seq<DependencyModel>,
) -> bool {
    &&& forall|id: u64| #[trigger]
        gm.contains_key(id) ==> exists|t: u64| om.contains_key((gm[id].cell_group_type, t))
    &&& forall|id: u64, t: u64|
        #![trigger gm[id], om[(gm[id].cell_group_type, t)]]
        gm.contains_key(id) && om.contains_key((gm[id].cell_group_type, t)) ==> detection_cells_fit(
            gm[id].cells,
            om[(gm[id].cell_group_type, t)],
        )
    &&& forall|id: u64| #[trigger]
        gm.contains_key(id) ==> exists|i: int|
            0 <= i < dependencies.len() && dependencies[i].cell_group_id == id
    &&& forall|i: int, j: int|
        #![trigger dependencies[i].collections[j]]
        0 <= i < dependencies.len() && 0 <= j < dependencies[i].collections.len() ==> {
            let d = dependencies[i];
            &&& cm.contains_key(d.collections[j])
            &&& forall|p: int|
                #![trigger cm[d.collections[j]][p]]
                0 <= p < cm[d.collections[j]].len() ==> {
                    let member = cm[d.collections[j]][p].0;
                    gm.contains_key(d.cell_group_id) && gm.contains_key(member) && om.contains_key(
                        (gm[d.cell_group_id].cell_group_type, gm[member].cell_group_type),
                    ) ==> detection_locations_fit(
                        d.location,
                        gm[d.cell_group_id].cells,
                        om[(gm[d.cell_group_id].cell_group_type, gm[member].cell_group_type)],
                    )
                }
        }
    &&& forall|i: int, k: int|
        #![trigger dependencies[i], gm[dependencies[i].cell_group_id].cells[k]]
        0 <= i < dependencies.len() && gm.contains_key(dependencies[i].cell_group_id) && 0 <= k
            < gm[dependencies[i].cell_group_id].cells.len() ==> fits_sum(
            dependencies[i].location,
            gm[dependencies[i].cell_group_id].cells[k],
        )
    &&& forall|c: u64, p: int|
        #![trigger cm[c][p]]
        cm.contains_key(c) && 0 <= p < cm[c].len() ==> {
            &&& gm.contains_key(cm[c][p].0)
            &&& forall|k: int|
                0 <= k < gm[cm[c][p].0].cells.len() ==> fits_sum(cm[c][p].1, #[trigger] gm[cm[c][p].0].cells[k])
        }
}

} // verus!
