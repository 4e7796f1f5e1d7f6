//! Laws of cell group managers: what building a manager and validating its dependencies
//! promise for all inputs.
use vstd::prelude::*;
use super::lemmas::{
    lemma_directed_offset_entries, lemma_directed_offset_keys_unique, lemma_keyed_map_unique,
    lemma_possible_collections, lemma_reduced_dependencies, lemma_reduction_congruence,
    lemma_reduction_steps, reduced_from, lemma_dependency_grouping,
};
use super::model::{
    adjacency_lookup, all_dependencies, collection_possible, dependency_size,
    detection_offset_lookup, directed_offset_entries, is_detection_cell, is_detection_location,
    is_overlap_location, is_orthogonal_neighbor, located_cells, placement_possible, shift,
    touches_overlap, offset_pairs_distinct, keyed_map, in_some_pair, paired, possible_collections, reduced_dependencies,
    reducible, validated_model, dependency_grouping, dependencies_of, dependency_ids, DependencyModel,
    ManagerModel,
};
use super::manager::dependencies_consistent;

verus! {

/// Adjacency goes both ways: if `y` is expected to be adjacent to `x`, then `x` is expected to
/// be adjacent to `y`.
pub proof fn law_adjacency_symmetric(pairs: Seq<(u64, u64)>, x: u64, y: u64)
    ensures
        adjacency_lookup(pairs).contains_key(x) && adjacency_lookup(pairs)[x].contains(y)
            ==> adjacency_lookup(pairs).contains_key(y) && adjacency_lookup(pairs)[y].contains(x),
{
    if adjacency_lookup(pairs).contains_key(x) && adjacency_lookup(pairs)[x].contains(y) {
        assert(paired(pairs, x, y));
        let i = choose|i: int| 0 <= i < pairs.len() && (pairs[i] == (x, y) || pairs[i] == (y, x));
        assert(paired(pairs, y, x));
        assert(pairs[i].0 == y || pairs[i].1 == y);
    }
}

/// Detection offsets go both ways: the offsets from type `a` towards type `b` are those from
/// `b` towards `a`.
pub proof fn law_detection_offsets_symmetric(s: Seq<((u64, u64), Seq<(i32, i32)>)>, a: u64, b: u64)
    requires
        offset_pairs_distinct(s),
    ensures
        detection_offset_lookup(s).contains_key((a, b)) ==> detection_offset_lookup(s).contains_key((b, a))
            && detection_offset_lookup(s)[(b, a)] == detection_offset_lookup(s)[(a, b)],
{
    let d = directed_offset_entries(s);
    lemma_directed_offset_entries(s);
    lemma_directed_offset_keys_unique(s);
    lemma_keyed_map_unique(d);
    if detection_offset_lookup(s).contains_key((a, b)) {
        let e = choose|e: int| 0 <= e < d.len() && d[e].0 == (a, b);
        let i = e / 2;
        assert(d[2 * i] == s[i]);
        if e == 2 * i {
            assert(d[2 * i + 1].0 == (b, a));
            assert(d[2 * i + 1].1 == d[e].1);
        } else {
            assert(e == 2 * i + 1);
            assert(d[2 * i].0 == (b, a));
            assert(d[2 * i].1 == d[e].1);
        }
    }
}

/// Every location a cell group covers is also a location at which it detects every type it
/// has detection offsets towards.
pub proof fn law_detection_covers_cells(m: ManagerModel, id: u64, location: (i32, i32), t: u64, x: (i32, i32))
    requires
        m.cell_groups.contains_key(id),
        m.detection_offsets.contains_key((m.cell_groups[id].cell_group_type, t)),
        is_overlap_location(m, id, location, x),
    ensures
        is_detection_location(m, id, location, t, x),
{
    let cells = m.cell_groups[id].cells;
    let k = choose|k: int| 0 <= k < cells.len() && x == super::model::shift(location, cells[k]);
    assert(is_detection_cell(cells, m.detection_offsets[(m.cell_groups[id].cell_group_type, t)], cells[k]));
}

/// Reducing keeps only collections that are possible.
pub proof fn law_reduction_keeps_only_possible(m: ManagerModel, id: u64, ds: Seq<DependencyModel>, k: int, c: int)
    requires
        0 <= k < reduced_dependencies(m, id, ds).len(),
        0 <= c < reduced_dependencies(m, id, ds)[k].collections.len(),
    ensures
        collection_possible(
            m,
            id,
            reduced_dependencies(m, id, ds)[k].location,
            reduced_dependencies(m, id, ds)[k].collections[c],
        ),
{
    lemma_reduced_dependencies(m, id, ds);
    let i = choose|i: int| 0 <= i < ds.len() && reduced_from(m, id, reduced_dependencies(m, id, ds)[k], ds[i]);
}

/// Reducing removes no possible collection: each possible collection of a dependency is still
/// listed by a dependency with the same cell group and location.
pub proof fn law_reduction_keeps_possible(m: ManagerModel, id: u64, ds: Seq<DependencyModel>, i: int, j: int)
    requires
        0 <= i < ds.len(),
        0 <= j < ds[i].collections.len(),
        collection_possible(m, id, ds[i].location, ds[i].collections[j]),
    ensures
        exists|k: int|
            0 <= k < reduced_dependencies(m, id, ds).len() && reduced_dependencies(m, id, ds)[k].cell_group_id
                == ds[i].cell_group_id && reduced_dependencies(m, id, ds)[k].location == ds[i].location
                && reduced_dependencies(m, id, ds)[k].collections.contains(ds[i].collections[j]),
    decreases ds.len(),
{
    let p = ds.drop_last();
    let r = reduced_dependencies(m, id, ds);
    let rp = reduced_dependencies(m, id, p);
    if i < ds.len() - 1 {
        assert(p[i] == ds[i]);
        law_reduction_keeps_possible(m, id, p, i, j);
        let k = choose|k: int|
            0 <= k < rp.len() && rp[k].cell_group_id == p[i].cell_group_id && rp[k].location == p[i].location
                && rp[k].collections.contains(p[i].collections[j]);
        assert(r[k] == rp[k]);
    } else {
        let d = ds.last();
        lemma_possible_collections_contains(m, id, d.location, d.collections, j);
        let kept = possible_collections(m, id, d.location, d.collections);
        assert(kept.len() > 0);
        assert(r[rp.len() as int].collections == kept);
    }
}

/// A collection that is possible and listed by `cs` is among the possible collections of `cs`.
proof fn lemma_possible_collections_contains(m: ManagerModel, id: u64, location: (i32, i32), cs: Seq<u64>, j: int)
    requires
        0 <= j < cs.len(),
        collection_possible(m, id, location, cs[j]),
    ensures
        possible_collections(m, id, location, cs).contains(cs[j]),
    decreases cs.len(),
{
    let p = cs.drop_last();
    let r = possible_collections(m, id, location, cs);
    if j < cs.len() - 1 {
        assert(p[j] == cs[j]);
        lemma_possible_collections_contains(m, id, location, p, j);
        let rp = possible_collections(m, id, location, p);
        let q = choose|q: int| 0 <= q < rp.len() && rp[q] == p[j];
        assert(r[q] == rp[q]);
    } else {
        assert(r[r.len() - 1] == cs[j]);
    }
}

/// A dependency that lists no collections is kept as it is.
pub proof fn law_reduction_keeps_unconditional(m: ManagerModel, id: u64, ds: Seq<DependencyModel>, i: int)
    requires
        0 <= i < ds.len(),
        ds[i].collections.len() == 0,
    ensures
        reduced_dependencies(m, id, ds).contains(ds[i]),
    decreases ds.len(),
{
    let p = ds.drop_last();
    let r = reduced_dependencies(m, id, ds);
    let rp = reduced_dependencies(m, id, p);
    if i < ds.len() - 1 {
        assert(p[i] == ds[i]);
        law_reduction_keeps_unconditional(m, id, p, i);
        let k = choose|k: int| 0 <= k < rp.len() && rp[k] == p[i];
        assert(r[k] == rp[k]);
    } else {
        let d = ds.last();
        assert(possible_collections(m, id, d.location, d.collections) =~= d.collections);
        assert(r[rp.len() as int] == d);
    }
}

/// A dependency that lists collections of which none is possible is removed: every reduced
/// dependency that lists no collections is a dependency that listed none to begin with.
pub proof fn law_reduction_removes_impossible(m: ManagerModel, id: u64, ds: Seq<DependencyModel>, k: int)
    requires
        0 <= k < reduced_dependencies(m, id, ds).len(),
        reduced_dependencies(m, id, ds)[k].collections.len() == 0,
    ensures
        ds.contains(reduced_dependencies(m, id, ds)[k]),
    decreases ds.len(),
{
    let p = ds.drop_last();
    let r = reduced_dependencies(m, id, ds);
    let rp = reduced_dependencies(m, id, p);
    if k < rp.len() {
        assert(r[k] == rp[k]);
        law_reduction_removes_impossible(m, id, p, k);
        let i = choose|i: int| 0 <= i < p.len() && p[i] == rp[k];
        assert(ds[i] == p[i]);
    } else {
        let d = ds.last();
        lemma_possible_collections(m, id, d.location, d.collections);
        assert(d.collections.len() == 0);
        assert(possible_collections(m, id, d.location, d.collections) =~= d.collections);
        assert(r[k] == d);
        assert(ds[ds.len() - 1] == d);
    }
}

/// Reducing reports a change exactly when it removes something: the dependencies change if and
/// only if one of them lists an impossible collection, and then they become strictly smaller.
pub proof fn law_reduction_reports_change(m: ManagerModel, id: u64, ds: Seq<DependencyModel>)
    ensures
        reducible(m, id, ds) <==> reduced_dependencies(m, id, ds) != ds,
        reducible(m, id, ds) ==> dependency_size(reduced_dependencies(m, id, ds)) < dependency_size(ds),
        dependency_size(reduced_dependencies(m, id, ds)) <= dependency_size(ds),
{
    lemma_reduction_steps(m, id, ds);
}

/// Reducing twice is reducing once.
pub proof fn law_reduction_idempotent(m: ManagerModel, id: u64, ds: Seq<DependencyModel>)
    ensures
        reduced_dependencies(m, id, reduced_dependencies(m, id, ds)) == reduced_dependencies(m, id, ds),
{
    lemma_reduction_steps(m, id, ds);
    lemma_reduction_steps(m, id, reduced_dependencies(m, id, ds));
}

/// Validating validated dependencies changes nothing, so a second call of
/// `get_validated_cell_group_location_dependencies` returns what the first returned.
pub proof fn law_validation_idempotent(m: ManagerModel)
    ensures
        validated_model(validated_model(m)) == validated_model(m),
{
    let v = validated_model(m);
    let vv = validated_model(v);
    assert forall|j: int| 0 <= j < v.dependency_groups.len() implies #[trigger] vv.dependency_groups[j]
        == v.dependency_groups[j] by {
        let g = m.dependency_groups[j];
        if m.cell_groups.contains_key(g.0) {
            lemma_reduction_congruence(v, m, g.0, v.dependency_groups[j].1);
            law_reduction_idempotent(m, g.0, g.1);
        }
    }
    assert(vv.dependency_groups =~= v.dependency_groups);
}

/// `d` is a dependency of one of `groups`.
spec fn in_some_group(groups: Seq<(u64, Seq<DependencyModel>)>, d: DependencyModel) -> bool {
    exists|j: int, i: int|
        #![trigger groups[j].1[i]]
        0 <= j < groups.len() && 0 <= i < groups[j].1.len() && d == groups[j].1[i]
}

/// Each dependency in all the dependencies of `groups` is a dependency of one group, and each
/// dependency of each group is among them.
proof fn lemma_all_dependencies(groups: Seq<(u64, Seq<DependencyModel>)>)
    ensures
        forall|k: int|
            0 <= k < all_dependencies(groups).len() ==> in_some_group(groups, #[trigger] all_dependencies(groups)[k]),
        forall|j: int, i: int|
            0 <= j < groups.len() && 0 <= i < groups[j].1.len() ==> all_dependencies(groups).contains(
                #[trigger] groups[j].1[i],
            ),
    decreases groups.len(),
{
    if groups.len() > 0 {
        let p = groups.drop_last();
        lemma_all_dependencies(p);
        let a = all_dependencies(groups);
        let ap = all_dependencies(p);
        let last = groups.last().1;
        assert(a == ap + last);
        assert forall|k: int| 0 <= k < a.len() implies in_some_group(groups, #[trigger] a[k]) by {
            if k < ap.len() {
                assert(in_some_group(p, ap[k]));
                let (j, i) = choose|j: int, i: int|
                    #![trigger p[j].1[i]]
                    0 <= j < p.len() && 0 <= i < p[j].1.len() && ap[k] == p[j].1[i];
                assert(groups[j] == p[j]);
                assert(a[k] == groups[j].1[i]);
            } else {
                let j = groups.len() - 1;
                let i = k - ap.len();
                assert(a[k] == groups[j].1[i]);
            }
        }
        assert forall|j: int, i: int| 0 <= j < groups.len() && 0 <= i < groups[j].1.len() implies a.contains(
            #[trigger] groups[j].1[i],
        ) by {
            if j < p.len() {
                assert(groups[j] == p[j]);
                assert(ap.contains(p[j].1[i]));
                let k = choose|k: int| 0 <= k < ap.len() && ap[k] == p[j].1[i];
                assert(a[k] == ap[k]);
            } else {
                assert(a[ap.len() + i] == last[i]);
            }
        }
    } else {
        assert(all_dependencies(groups) =~= Seq::<DependencyModel>::empty());
    }
}

/// The validated dependencies list only possible collections: every collection listed by a
/// returned dependency about a cell group is possible with that cell group at that location.
pub proof fn law_validated_only_possible(m: ManagerModel, k: int, c: int)
    requires
        dependencies_consistent(m),
        0 <= k < all_dependencies(validated_model(m).dependency_groups).len(),
        m.cell_groups.contains_key(all_dependencies(validated_model(m).dependency_groups)[k].cell_group_id),
        0 <= c < all_dependencies(validated_model(m).dependency_groups)[k].collections.len(),
    ensures
        ({
            let d = all_dependencies(validated_model(m).dependency_groups)[k];
            collection_possible(m, d.cell_group_id, d.location, d.collections[c])
        }),
{
    let v = validated_model(m);
    lemma_all_dependencies(v.dependency_groups);
    let d = all_dependencies(v.dependency_groups)[k];
    assert(in_some_group(v.dependency_groups, d));
    let (j, i) = choose|j: int, i: int|
        #![trigger v.dependency_groups[j].1[i]]
        0 <= j < v.dependency_groups.len() && 0 <= i < v.dependency_groups[j].1.len() && d
            == v.dependency_groups[j].1[i];
    let g = m.dependency_groups[j];
    if m.cell_groups.contains_key(g.0) {
        lemma_reduced_dependencies(m, g.0, g.1);
        let q = choose|q: int| 0 <= q < g.1.len() && reduced_from(m, g.0, v.dependency_groups[j].1[i], g.1[q]);
        assert(g.1[q].cell_group_id == g.0);
    } else {
        assert(v.dependency_groups[j] == g);
        assert(d.cell_group_id == g.0);
    }
}

/// The validated dependencies keep every possible collection: each collection that a
/// dependency about a cell group lists, and that is possible with that cell group at that
/// location, is listed by a returned dependency with the same cell group and location.
pub proof fn law_validated_keeps_possible(m: ManagerModel, j: int, i: int, c: int)
    requires
        dependencies_consistent(m),
        0 <= j < m.dependency_groups.len(),
        0 <= i < m.dependency_groups[j].1.len(),
        0 <= c < m.dependency_groups[j].1[i].collections.len(),
        m.cell_groups.contains_key(m.dependency_groups[j].0),
        collection_possible(
            m,
            m.dependency_groups[j].0,
            m.dependency_groups[j].1[i].location,
            m.dependency_groups[j].1[i].collections[c],
        ),
    ensures
        ({
            let d = m.dependency_groups[j].1[i];
            exists|k: int|
                0 <= k < all_dependencies(validated_model(m).dependency_groups).len() && {
                    let out = #[trigger] all_dependencies(validated_model(m).dependency_groups)[k];
                    &&& out.cell_group_id == d.cell_group_id
                    &&& out.location == d.location
                    &&& out.collections.contains(d.collections[c])
                }
        }),
{
    let v = validated_model(m);
    let g = m.dependency_groups[j];
    let d = g.1[i];
    law_reduction_keeps_possible(m, g.0, g.1, i, c);
    let r = reduced_dependencies(m, g.0, g.1);
    let q = choose|q: int|
        0 <= q < r.len() && r[q].cell_group_id == d.cell_group_id && r[q].location == d.location
            && r[q].collections.contains(d.collections[c]);
    assert(v.dependency_groups[j].1 == r);
    lemma_all_dependencies(v.dependency_groups);
    assert(all_dependencies(v.dependency_groups).contains(v.dependency_groups[j].1[q]));
    let k = choose|k: int|
        0 <= k < all_dependencies(v.dependency_groups).len() && all_dependencies(v.dependency_groups)[k]
            == v.dependency_groups[j].1[q];
    assert(all_dependencies(v.dependency_groups)[k] == r[q]);
}


/// The dependencies about cell group `x` include each dependency of `s` about `x`.
proof fn lemma_dependencies_of_contains(s: Seq<DependencyModel>, x: u64, i: int)
    requires
        0 <= i < s.len(),
        s[i].cell_group_id == x,
    ensures
        dependencies_of(s, x).contains(s[i]),
    decreases s.len(),
{
    let p = s.drop_last();
    if i < s.len() - 1 {
        assert(p[i] == s[i]);
        lemma_dependencies_of_contains(p, x, i);
        let q = choose|q: int| 0 <= q < dependencies_of(p, x).len() && dependencies_of(p, x)[q] == p[i];
        assert(dependencies_of(s, x)[q] == dependencies_of(p, x)[q]);
    } else {
        assert(dependencies_of(s, x).last() == s[i]);
    }
}

/// Grouping loses no dependency and invents none: each dependency is in the group of its cell
/// group, and each grouped dependency is one of the given dependencies about that group's cell
/// group.
pub proof fn law_grouping_keeps_dependencies(s: Seq<DependencyModel>, i: int)
    requires
        0 <= i < s.len(),
    ensures
        exists|j: int|
            0 <= j < dependency_grouping(s).len() && dependency_grouping(s)[j].0 == s[i].cell_group_id
                && (#[trigger] dependency_grouping(s)[j]).1.contains(s[i]),
        forall|j: int, k: int|
            0 <= j < dependency_grouping(s).len() && 0 <= k < dependency_grouping(s)[j].1.len() ==> {
                &&& (#[trigger] dependency_grouping(s)[j].1[k]).cell_group_id == dependency_grouping(s)[j].0
                &&& s.contains(dependency_grouping(s)[j].1[k])
            },
{
    lemma_dependency_grouping(s);
    let g = dependency_grouping(s);
    let j = choose|j: int| 0 <= j < g.len() && g[j].0 == s[i].cell_group_id;
    lemma_dependencies_of_contains(s, s[i].cell_group_id, i);
    assert(g[j].1 == dependencies_of(s, dependency_ids(s)[j]));
    assert forall|j: int, k: int| 0 <= j < g.len() && 0 <= k < g[j].1.len() implies {
        &&& (#[trigger] g[j].1[k]).cell_group_id == g[j].0
        &&& s.contains(g[j].1[k])
    } by {
        let q = choose|q: int| 0 <= q < s.len() && s[q] == g[j].1[k];
    }
}

/// Two cells are orthogonal neighbours exactly when they are one step apart along one axis and
/// level on the other, on any of the four sides; the relation is symmetric.
pub proof fn law_orthogonal_neighbors(x: (i32, i32), y: (i32, i32))
    ensures
        is_orthogonal_neighbor(x, y) <==> is_orthogonal_neighbor(y, x),
        is_orthogonal_neighbor(x, y) <==> ((x.1 == y.1 && (y.0 == x.0 - 1 || y.0 == x.0 + 1)) || (x.0
            == y.0 && (y.1 == x.1 - 1 || y.1 == x.1 + 1))),
        x.1 == y.1 && y.0 == x.0 - 1 ==> is_orthogonal_neighbor(x, y),
        x.1 == y.1 && y.0 == x.0 + 1 ==> is_orthogonal_neighbor(x, y),
        x.0 == y.0 && y.1 == x.1 - 1 ==> is_orthogonal_neighbor(x, y),
        x.0 == y.0 && y.1 == x.1 + 1 ==> is_orthogonal_neighbor(x, y),
        is_orthogonal_neighbor(x, y) ==> x != y,
{
}

/// A cell group placed at a location covers each of its cells moved by that location, and
/// nothing else.
pub proof fn law_cell_group_covers_its_cells(m: ManagerModel, id: u64, location: (i32, i32), k: int, x: (i32, i32))
    ensures
        0 <= k < m.cell_groups[id].cells.len() ==> is_overlap_location(
            m,
            id,
            location,
            shift(location, m.cell_groups[id].cells[k]),
        ),
        is_overlap_location(m, id, location, x) ==> exists|q: int|
            0 <= q < m.cell_groups[id].cells.len() && x == shift(location, m.cell_groups[id].cells[q]),
{
}

/// The cells a placement puts down are the placed cell group's cells moved by its location,
/// in the same order.
pub proof fn law_placed_cells(m: ManagerModel, member: u64, at: (i32, i32), k: int)
    ensures
        located_cells(m, member, at).len() == m.cell_groups[member].cells.len(),
        0 <= k < m.cell_groups[member].cells.len() ==> located_cells(m, member, at)[k] == shift(
            at,
            m.cell_groups[member].cells[k],
        ),
{
}

/// A placement that puts any cell on a cell of the cell group is never possible, whatever the
/// types of the two cell groups.
pub proof fn law_placement_on_cell_group_impossible(
    m: ManagerModel,
    id: u64,
    location: (i32, i32),
    member: u64,
    at: (i32, i32),
    k: int,
    q: int,
)
    requires
        0 <= k < m.cell_groups[member].cells.len(),
        0 <= q < m.cell_groups[id].cells.len(),
        shift(at, m.cell_groups[member].cells[k]) == shift(location, m.cell_groups[id].cells[q]),
    ensures
        !placement_possible(m, id, location, member, at),
{
    let cells = located_cells(m, member, at);
    assert(cells[k] == shift(at, m.cell_groups[member].cells[k]));
    assert(is_overlap_location(m, id, location, cells[k]));
}

/// A placement that puts any cell on a location where the cell group detects the placed type
/// is never possible.
pub proof fn law_placement_on_detection_impossible(
    m: ManagerModel,
    id: u64,
    location: (i32, i32),
    member: u64,
    at: (i32, i32),
    k: int,
)
    requires
        0 <= k < m.cell_groups[member].cells.len(),
        is_detection_location(
            m,
            id,
            location,
            m.cell_groups[member].cell_group_type,
            shift(at, m.cell_groups[member].cells[k]),
        ),
    ensures
        !placement_possible(m, id, location, member, at),
{
    let cells = located_cells(m, member, at);
    assert(cells[k] == shift(at, m.cell_groups[member].cells[k]));
}

/// Where the two cell groups are expected to be adjacent, a placement clear of the cell
/// group's cells and detection locations is possible as soon as any one of its cells is one
/// step, on any side, from any cell of the cell group.
pub proof fn law_adjacent_touching_placement_possible(
    m: ManagerModel,
    id: u64,
    location: (i32, i32),
    member: u64,
    at: (i32, i32),
    k: int,
    q: int,
)
    requires
        0 <= k < m.cell_groups[member].cells.len(),
        0 <= q < m.cell_groups[id].cells.len(),
        ({
            let x = shift(at, m.cell_groups[member].cells[k]);
            let y = shift(location, m.cell_groups[id].cells[q]);
            (x.1 == y.1 && (x.0 == y.0 + 1 || x.0 == y.0 - 1)) || (x.0 == y.0 && (x.1 == y.1 + 1 || x.1 == y.1
                - 1))
        }),
        forall|kk: int, qq: int|
            0 <= kk < m.cell_groups[member].cells.len() && 0 <= qq < m.cell_groups[id].cells.len() ==> shift(
                at,
                #[trigger] m.cell_groups[member].cells[kk],
            ) != shift(location, #[trigger] m.cell_groups[id].cells[qq]),
        forall|kk: int|
            0 <= kk < m.cell_groups[member].cells.len() ==> !is_detection_location(
                m,
                id,
                location,
                m.cell_groups[member].cell_group_type,
                shift(at, #[trigger] m.cell_groups[member].cells[kk]),
            ),
    ensures
        placement_possible(m, id, location, member, at),
{
    let cells = located_cells(m, member, at);
    let y = shift(location, m.cell_groups[id].cells[q]);
    assert(cells[k] == shift(at, m.cell_groups[member].cells[k]));
    assert(is_overlap_location(m, id, location, y));
    assert(is_orthogonal_neighbor(cells[k], y));
    assert(touches_overlap(m, id, location, cells[k]));
    assert forall|kk: int| 0 <= kk < cells.len() implies !is_overlap_location(m, id, location, #[trigger] cells[kk])
        && !is_detection_location(m, id, location, m.cell_groups[member].cell_group_type, cells[kk]) by {
        assert(cells[kk] == shift(at, m.cell_groups[member].cells[kk]));
        if is_overlap_location(m, id, location, cells[kk]) {
            let qq = choose|qq: int|
                0 <= qq < m.cell_groups[id].cells.len() && cells[kk] == shift(location, m.cell_groups[id].cells[qq]);
            assert(shift(at, m.cell_groups[member].cells[kk]) != shift(location, m.cell_groups[id].cells[qq]));
        }
    }
}

/// Where the two cell groups are expected to be adjacent, a placement none of whose cells is
/// one step from a cell of the cell group is never possible.
pub proof fn law_adjacent_apart_placement_impossible(
    m: ManagerModel,
    id: u64,
    location: (i32, i32),
    member: u64,
    at: (i32, i32),
)
    requires
        m.adjacency[id].contains(member),
        forall|kk: int, qq: int|
            0 <= kk < m.cell_groups[member].cells.len() && 0 <= qq < m.cell_groups[id].cells.len() ==> {
                let x = shift(at, #[trigger] m.cell_groups[member].cells[kk]);
                let y = shift(location, #[trigger] m.cell_groups[id].cells[qq]);
                !((x.1 == y.1 && (x.0 == y.0 + 1 || x.0 == y.0 - 1)) || (x.0 == y.0 && (x.1 == y.1 + 1 || x.1
                    == y.1 - 1)))
            },
    ensures
        !placement_possible(m, id, location, member, at),
{
    let cells = located_cells(m, member, at);
    if placement_possible(m, id, location, member, at) {
        let kk = choose|kk: int| 0 <= kk < cells.len() && touches_overlap(m, id, location, cells[kk]);
        let y = choose|y: (i32, i32)| is_overlap_location(m, id, location, y) && is_orthogonal_neighbor(cells[kk], y);
        let qq = choose|qq: int|
            0 <= qq < m.cell_groups[id].cells.len() && y == shift(location, m.cell_groups[id].cells[qq]);
        assert(cells[kk] == shift(at, m.cell_groups[member].cells[kk]));
        assert(m.cell_groups[member].cells[kk] == m.cell_groups[member].cells[kk]);
        assert(m.cell_groups[id].cells[qq] == m.cell_groups[id].cells[qq]);
    }
}

/// A collection is possible only if every one of its placements is possible, wherever that
/// placement stands in the collection; and one whose placements are all possible is possible.
pub proof fn law_collection_needs_every_placement(m: ManagerModel, id: u64, location: (i32, i32), c: u64, i: int)
    ensures
        0 <= i < m.collections[c].len() && !placement_possible(
            m,
            id,
            location,
            m.collections[c][i].0,
            m.collections[c][i].1,
        ) ==> !collection_possible(m, id, location, c),
        (forall|p: int|
            0 <= p < m.collections[c].len() ==> placement_possible(
                m,
                id,
                location,
                (#[trigger] m.collections[c][p]).0,
                m.collections[c][p].1,
            )) ==> collection_possible(m, id, location, c),
{
}

/// Cell group `id` placed at `location` detects type `t` on each of its own cells and on each
/// of its cells moved by each detection offset towards `t`, and nowhere else.
pub proof fn law_detection_locations(
    m: ManagerModel,
    id: u64,
    location: (i32, i32),
    t: u64,
    k: int,
    j: int,
    x: (i32, i32),
)
    requires
        m.cell_groups.contains_key(id),
        m.detection_offsets.contains_key((m.cell_groups[id].cell_group_type, t)),
    ensures
        0 <= k < m.cell_groups[id].cells.len() ==> is_detection_location(
            m,
            id,
            location,
            t,
            shift(location, m.cell_groups[id].cells[k]),
        ),
        0 <= k < m.cell_groups[id].cells.len() && 0 <= j < m.detection_offsets[(
            m.cell_groups[id].cell_group_type,
            t,
        )].len() ==> is_detection_location(
            m,
            id,
            location,
            t,
            shift(
                location,
                shift(
                    m.cell_groups[id].cells[k],
                    m.detection_offsets[(m.cell_groups[id].cell_group_type, t)][j],
                ),
            ),
        ),
        is_detection_location(m, id, location, t, x) ==> exists|q: int|
            0 <= q < m.cell_groups[id].cells.len() && (x == shift(location, m.cell_groups[id].cells[q])
                || exists|p: int|
                0 <= p < m.detection_offsets[(m.cell_groups[id].cell_group_type, t)].len() && x == shift(
                    location,
                    shift(
                        m.cell_groups[id].cells[q],
                        m.detection_offsets[(m.cell_groups[id].cell_group_type, t)][p],
                    ),
                )),
{
    let cells = m.cell_groups[id].cells;
    let offsets = m.detection_offsets[(m.cell_groups[id].cell_group_type, t)];
    if 0 <= k < cells.len() {
        assert(is_detection_cell(cells, offsets, cells[k]));
        if 0 <= j < offsets.len() {
            assert(is_detection_cell(cells, offsets, shift(cells[k], offsets[j])));
        }
    }
    if is_detection_location(m, id, location, t, x) {
        let d = choose|d: (i32, i32)| is_detection_cell(cells, offsets, d) && x == shift(location, d);
        let q = choose|q: int|
            0 <= q < cells.len() && (d == cells[q] || exists|p: int| 0 <= p < offsets.len() && d == shift(cells[q], offsets[p]));
        if d != cells[q] {
            let p = choose|p: int| 0 <= p < offsets.len() && d == shift(cells[q], offsets[p]);
            assert(x == shift(location, shift(cells[q], offsets[p])));
        }
    }
}

/// Each given pair of cell groups is expected adjacent both ways round, and a cell group has
/// expected neighbours only if it is in some pair.
pub proof fn law_adjacency_holds_pairs(pairs: Seq<(u64, u64)>, i: int, x: u64)
    ensures
        0 <= i < pairs.len() ==> adjacency_lookup(pairs).contains_key(pairs[i].0) && adjacency_lookup(
            pairs,
        )[pairs[i].0].contains(pairs[i].1) && adjacency_lookup(pairs).contains_key(pairs[i].1)
            && adjacency_lookup(pairs)[pairs[i].1].contains(pairs[i].0),
        adjacency_lookup(pairs).contains_key(x) ==> exists|q: int|
            0 <= q < pairs.len() && (pairs[q].0 == x || pairs[q].1 == x),
{
    if 0 <= i < pairs.len() {
        assert(in_some_pair(pairs, pairs[i].0));
        assert(in_some_pair(pairs, pairs[i].1));
        assert(paired(pairs, pairs[i].0, pairs[i].1));
        assert(paired(pairs, pairs[i].1, pairs[i].0));
    }
}

/// In a lookup built from a list, a key is bound to the value of its last entry, and only keys
/// of the list are bound.
pub proof fn law_lookup_last_entry_wins<K, V>(s: Seq<(K, V)>, i: int, key: K)
    ensures
        0 <= i < s.len() && (forall|j: int| i < j < s.len() ==> s[j].0 != s[i].0) ==> keyed_map(s).contains_key(
            s[i].0,
        ) && keyed_map(s)[s[i].0] == s[i].1,
        keyed_map(s).contains_key(key) ==> exists|q: int| 0 <= q < s.len() && s[q].0 == key,
    decreases s.len(),
{
    if s.len() > 0 {
        let p = s.drop_last();
        law_lookup_last_entry_wins(p, i, key);
        if 0 <= i < s.len() - 1 && (forall|j: int| i < j < s.len() ==> s[j].0 != s[i].0) {
            assert(s[s.len() - 1].0 != s[i].0);
            assert(p[i] == s[i]);
            assert forall|j: int| i < j < p.len() implies p[j].0 != p[i].0 by {
                assert(p[j] == s[j]);
            }
        }
        if keyed_map(s).contains_key(key) && key != s.last().0 {
            let q = choose|q: int| 0 <= q < p.len() && p[q].0 == key;
            assert(s[q] == p[q]);
        }
    }
}
} // verus!
