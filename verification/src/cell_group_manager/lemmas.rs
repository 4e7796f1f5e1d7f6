//! Facts about the model's lookups and about reducing dependencies.
use vstd::prelude::*;
use super::model::{
    dependencies_of, dependency_ids, directed_offset_entries, keyed_map, keys_unique,
    offset_pairs_distinct, dependency_grouping, collection_possible, possible_collections,
    reduced_dependencies, reducible, dependency_size, group_dependencies, groups_size, DependencyModel,
    ManagerModel, is_overlap_location, touches_overlap, is_orthogonal_neighbor, is_detection_location,
    located_cells, placement_possible, dependency_at, has_dependency,
};

verus! {

/// In a list without repeated keys, each key is bound to the value of its one entry.
pub proof fn lemma_keyed_map_unique<K, V>(s: Seq<(K, V)>)
    requires
        keys_unique(s),
    ensures
        forall|k: K|
            #![trigger keyed_map(s).contains_key(k)]
            keyed_map(s).contains_key(k) <==> exists|i: int| 0 <= i < s.len() && s[i].0 == k,
        forall|i: int| 0 <= i < s.len() ==> #[trigger] keyed_map(s)[s[i].0] == s[i].1,
    decreases s.len(),
{
    if s.len() > 0 {
        let p = s.drop_last();
        assert(keys_unique(p));
        lemma_keyed_map_unique(p);
        assert(keyed_map(s) == keyed_map(p).insert(s.last().0, s.last().1));
        assert forall|k: K|
            #![trigger keyed_map(s).contains_key(k)]
            keyed_map(s).contains_key(k) <==> exists|i: int| 0 <= i < s.len() && s[i].0 == k by {
            if keyed_map(s).contains_key(k) && k != s.last().0 {
                assert(keyed_map(p).contains_key(k));
                let i = choose|i: int| 0 <= i < p.len() && p[i].0 == k;
                assert(s[i] == p[i]);
            }
            if keyed_map(s).contains_key(k) && k == s.last().0 {
                assert(s[s.len() - 1].0 == k);
            }
            if exists|i: int| 0 <= i < s.len() && s[i].0 == k {
                let i = choose|i: int| 0 <= i < s.len() && s[i].0 == k;
                if i < s.len() - 1 {
                    assert(p[i].0 == k);
                }
            }
        }
        assert forall|i: int| 0 <= i < s.len() implies #[trigger] keyed_map(s)[s[i].0] == s[i].1 by {
            if i < s.len() - 1 {
                assert(p[i] == s[i]);
                assert(s[i].0 != s.last().0);
            }
        }
    }
}

/// Replacing the value of an existing key of a list without repeated keys.
pub proof fn lemma_keyed_map_update<K, V>(s: Seq<(K, V)>, j: int, e: (K, V))
    requires
        keys_unique(s),
        0 <= j < s.len(),
        s[j].0 == e.0,
    ensures
        keys_unique(s.update(j, e)),
        keyed_map(s.update(j, e)) == keyed_map(s).insert(e.0, e.1),
{
    let t = s.update(j, e);
    assert(keys_unique(t)) by {
        assert forall|a: int, b: int| 0 <= a < t.len() && 0 <= b < t.len() && a != b implies t[a].0
            != t[b].0 by {
            assert(t[a].0 == s[a].0);
            assert(t[b].0 == s[b].0);
        }
    }
    lemma_keyed_map_unique(s);
    lemma_keyed_map_unique(t);
    let l = keyed_map(t);
    let r = keyed_map(s).insert(e.0, e.1);
    assert forall|k: K| l.contains_key(k) <==> r.contains_key(k) by {
        if keyed_map(t).contains_key(k) {
            let i = choose|i: int| 0 <= i < t.len() && t[i].0 == k;
            if i != j {
                assert(s[i].0 == k);
            }
            assert(keyed_map(s).contains_key(s[j].0));
        }
        if r.contains_key(k) {
            if k != e.0 {
                assert(keyed_map(s).contains_key(k));
                let i = choose|i: int| 0 <= i < s.len() && s[i].0 == k;
                assert(t[i].0 == k);
            } else {
                assert(t[j].0 == k);
            }
        }
    }
    assert forall|k: K| l.contains_key(k) implies l[k] == r[k] by {
        let i = choose|i: int| 0 <= i < t.len() && t[i].0 == k;
        assert(l[t[i].0] == t[i].1);
        if i != j {
            assert(t[i] == s[i]);
            assert(keyed_map(s)[s[i].0] == s[i].1);
        }
    }
    assert(l =~= r);
}

/// Appending an entry with a new key to a list without repeated keys.
pub proof fn lemma_keys_unique_push<K, V>(s: Seq<(K, V)>, e: (K, V))
    requires
        keys_unique(s),
        forall|i: int| 0 <= i < s.len() ==> s[i].0 != e.0,
    ensures
        keys_unique(s.push(e)),
{
    let t = s.push(e);
    assert forall|a: int, b: int| 0 <= a < t.len() && 0 <= b < t.len() && a != b implies t[a].0
        != t[b].0 by {
        if a < s.len() {
            assert(t[a] == s[a]);
        }
        if b < s.len() {
            assert(t[b] == s[b]);
        }
    }
}

/// The directed offset entries: two per input entry, in both orders of its pair.
pub proof fn lemma_directed_offset_entries(s: Seq<((u64, u64), Seq<(i32, i32)>)>)
    ensures
        directed_offset_entries(s).len() == 2 * s.len(),
        forall|i: int|
            0 <= i < s.len() ==> #[trigger] directed_offset_entries(s)[2 * i] == s[i]
                && directed_offset_entries(s)[2 * i + 1] == ((s[i].0.1, s[i].0.0), s[i].1),
    decreases s.len(),
{
    if s.len() > 0 {
        let p = s.drop_last();
        lemma_directed_offset_entries(p);
        assert forall|i: int| 0 <= i < s.len() implies #[trigger] directed_offset_entries(s)[2 * i]
            == s[i] && directed_offset_entries(s)[2 * i + 1] == ((s[i].0.1, s[i].0.0), s[i].1) by {
            if i < p.len() {
                assert(directed_offset_entries(p)[2 * i] == p[i]);
            }
        }
    }
}

/// Distinct pairs of types give a directed offset list without repeated keys.
pub proof fn lemma_directed_offset_keys_unique(s: Seq<((u64, u64), Seq<(i32, i32)>)>)
    requires
        offset_pairs_distinct(s),
    ensures
        keys_unique(directed_offset_entries(s)),
{
    lemma_directed_offset_entries(s);
    let d = directed_offset_entries(s);
    assert forall|a: int, b: int| 0 <= a < d.len() && 0 <= b < d.len() && a != b implies d[a].0
        != d[b].0 by {
        let ia = a / 2;
        let ib = b / 2;
        assert(d[2 * ia] == s[ia]);
        assert(d[2 * ib] == s[ib]);
        if ia < ib {
            assert(s[ia].0 != s[ib].0 && s[ia].0 != (s[ib].0.1, s[ib].0.0));
        } else if ib < ia {
            assert(s[ib].0 != s[ia].0 && s[ib].0 != (s[ia].0.1, s[ia].0.0));
        } else {
            assert(s[ia].0.0 != s[ia].0.1);
        }
    }
}


/// The identifiers of the dependencies occur once each, and are exactly those in `s`.
pub proof fn lemma_dependency_ids(s: Seq<DependencyModel>)
    ensures
        dependency_ids(s).no_duplicates(),
        forall|x: u64|
            #![trigger dependency_ids(s).contains(x)]
            dependency_ids(s).contains(x) <==> exists|i: int|
                0 <= i < s.len() && s[i].cell_group_id == x,
    decreases s.len(),
{
    if s.len() > 0 {
        let p = s.drop_last();
        lemma_dependency_ids(p);
        let ip = dependency_ids(p);
        let y = s.last().cell_group_id;
        assert(dependency_ids(s) == if ip.contains(y) { ip } else { ip.push(y) });
        assert forall|x: u64| dependency_ids(s).contains(x) <==> (ip.contains(x) || x == y) by {
            if !ip.contains(y) {
                if ip.push(y).contains(x) {
                    let q = choose|q: int| 0 <= q < ip.push(y).len() && ip.push(y)[q] == x;
                    if q < ip.len() {
                        assert(ip[q] == x);
                    }
                }
                if ip.contains(x) {
                    let q = choose|q: int| 0 <= q < ip.len() && ip[q] == x;
                    assert(ip.push(y)[q] == x);
                }
                assert(ip.push(y)[ip.len() as int] == y);
            }
        }
        assert forall|x: u64|
            #![trigger dependency_ids(s).contains(x)]
            dependency_ids(s).contains(x) <==> exists|i: int| 0 <= i < s.len() && s[i].cell_group_id == x by {
            if dependency_ids(s).contains(x) {
                if dependency_ids(p).contains(x) {
                    let i = choose|i: int| 0 <= i < p.len() && p[i].cell_group_id == x;
                    assert(s[i] == p[i]);
                } else {
                    assert(s[s.len() - 1].cell_group_id == x);
                }
            }
            if exists|i: int| 0 <= i < s.len() && s[i].cell_group_id == x {
                let i = choose|i: int| 0 <= i < s.len() && s[i].cell_group_id == x;
                if i < s.len() - 1 {
                    assert(p[i] == s[i]);
                    assert(dependency_ids(p).contains(x));
                }
            }
        }
    }
}

/// The dependencies of `x` are dependencies in `s` that are about `x`.
pub proof fn lemma_dependencies_of(s: Seq<DependencyModel>, x: u64)
    ensures
        forall|k: int|
            0 <= k < dependencies_of(s, x).len() ==> (#[trigger] dependencies_of(s, x)[k]).cell_group_id == x
                && exists|i: int| 0 <= i < s.len() && s[i] == dependencies_of(s, x)[k],
    decreases s.len(),
{
    if s.len() > 0 {
        let p = s.drop_last();
        lemma_dependencies_of(p, x);
        assert forall|k: int| 0 <= k < dependencies_of(s, x).len() implies (#[trigger] dependencies_of(s, x)[k]).cell_group_id
            == x && exists|i: int| 0 <= i < s.len() && s[i] == dependencies_of(s, x)[k] by {
            if k < dependencies_of(p, x).len() {
                assert(dependencies_of(s, x)[k] == dependencies_of(p, x)[k]);
                let i = choose|i: int| 0 <= i < p.len() && p[i] == dependencies_of(p, x)[k];
                assert(s[i] == p[i]);
            } else {
                assert(s[s.len() - 1] == dependencies_of(s, x)[k]);
            }
        }
    }
}

/// The groups of a grouping have distinct keys, hold dependencies about their key taken from
/// `s`, and cover every cell group that `s` is about.
pub proof fn lemma_dependency_grouping(s: Seq<DependencyModel>)
    ensures
        keys_unique(dependency_grouping(s)),
        forall|j: int, k: int|
            0 <= j < dependency_grouping(s).len() && 0 <= k < dependency_grouping(s)[j].1.len() ==> {
                &&& (#[trigger] dependency_grouping(s)[j].1[k]).cell_group_id == dependency_grouping(s)[j].0
                &&& exists|i: int| 0 <= i < s.len() && s[i] == dependency_grouping(s)[j].1[k]
            },
        forall|i: int|
            0 <= i < s.len() ==> exists|j: int|
                0 <= j < dependency_grouping(s).len() && dependency_grouping(s)[j].0
                    == (#[trigger] s[i]).cell_group_id,
{
    let g = dependency_grouping(s);
    let ids = dependency_ids(s);
    lemma_dependency_ids(s);
    assert forall|a: int, b: int| 0 <= a < g.len() && 0 <= b < g.len() && a != b implies g[a].0 != g[b].0 by {
        assert(g[a].0 == ids[a]);
        assert(g[b].0 == ids[b]);
    }
    assert forall|j: int, k: int| 0 <= j < g.len() && 0 <= k < g[j].1.len() implies {
        &&& (#[trigger] g[j].1[k]).cell_group_id == g[j].0
        &&& exists|i: int| 0 <= i < s.len() && s[i] == g[j].1[k]
    } by {
        lemma_dependencies_of(s, ids[j]);
        assert(g[j].1 == dependencies_of(s, ids[j]));
        assert(dependencies_of(s, ids[j])[k] == g[j].1[k]);
    }
    assert forall|i: int| 0 <= i < s.len() implies exists|j: int|
        0 <= j < g.len() && g[j].0 == (#[trigger] s[i]).cell_group_id by {
        assert(ids.contains(s[i].cell_group_id));
        let j = choose|j: int| 0 <= j < ids.len() && ids[j] == s[i].cell_group_id;
        assert(g[j].0 == ids[j]);
    }
}

/// The possible collections are collections of `cs` that are possible.
pub proof fn lemma_possible_collections(m: ManagerModel, id: u64, location: (i32, i32), cs: Seq<u64>)
    ensures
        possible_collections(m, id, location, cs).len() <= cs.len(),
        forall|k: int|
            0 <= k < possible_collections(m, id, location, cs).len() ==> {
                &&& collection_possible(m, id, location, #[trigger] possible_collections(m, id, location, cs)[k])
                &&& exists|j: int| 0 <= j < cs.len() && cs[j] == possible_collections(m, id, location, cs)[k]
            },
        (forall|j: int| 0 <= j < cs.len() ==> collection_possible(m, id, location, #[trigger] cs[j]))
            ==> possible_collections(m, id, location, cs) == cs,
        (exists|j: int| 0 <= j < cs.len() && !collection_possible(m, id, location, #[trigger] cs[j]))
            ==> possible_collections(m, id, location, cs).len() < cs.len(),
    decreases cs.len(),
{
    if cs.len() > 0 {
        let p = cs.drop_last();
        lemma_possible_collections(m, id, location, p);
        let r = possible_collections(m, id, location, cs);
        let rp = possible_collections(m, id, location, p);
        assert forall|k: int| 0 <= k < r.len() implies {
            &&& collection_possible(m, id, location, #[trigger] r[k])
            &&& exists|j: int| 0 <= j < cs.len() && cs[j] == r[k]
        } by {
            if k < rp.len() {
                assert(r[k] == rp[k]);
                let j = choose|j: int| 0 <= j < p.len() && p[j] == rp[k];
                assert(cs[j] == p[j]);
            } else {
                assert(r[k] == cs[cs.len() - 1]);
            }
        }
        if forall|j: int| 0 <= j < cs.len() ==> collection_possible(m, id, location, #[trigger] cs[j]) {
            assert forall|j: int| 0 <= j < p.len() implies collection_possible(m, id, location, #[trigger] p[j]) by {
                assert(cs[j] == p[j]);
            }
            assert(collection_possible(m, id, location, cs[cs.len() - 1]));
            assert(rp == p);
            assert(p.push(cs.last()) =~= cs);
        }
        if exists|j: int| 0 <= j < cs.len() && !collection_possible(m, id, location, #[trigger] cs[j]) {
            let j = choose|j: int| 0 <= j < cs.len() && !collection_possible(m, id, location, #[trigger] cs[j]);
            if j < p.len() {
                assert(p[j] == cs[j]);
            }
        }
    }
}

/// `r` keeps the cell group and location of `d` and lists only possible collections that `d`
/// lists.
pub open spec fn reduced_from(m: ManagerModel, id: u64, r: DependencyModel, d: DependencyModel) -> bool {
    &&& r.cell_group_id == d.cell_group_id
    &&& r.location == d.location
    &&& forall|c: int|
        0 <= c < r.collections.len() ==> collection_possible(m, id, r.location, #[trigger] r.collections[c])
            && exists|j: int| 0 <= j < d.collections.len() && d.collections[j] == r.collections[c]
}

/// Each reduced dependency is reduced from a dependency of `ds`.
pub proof fn lemma_reduced_dependencies(m: ManagerModel, id: u64, ds: Seq<DependencyModel>)
    ensures
        forall|k: int|
            0 <= k < reduced_dependencies(m, id, ds).len() ==> exists|i: int|
                0 <= i < ds.len() && reduced_from(m, id, #[trigger] reduced_dependencies(m, id, ds)[k], ds[i]),
    decreases ds.len(),
{
    if ds.len() > 0 {
        let p = ds.drop_last();
        lemma_reduced_dependencies(m, id, p);
        let d = ds.last();
        lemma_possible_collections(m, id, d.location, d.collections);
        let r = reduced_dependencies(m, id, ds);
        let rp = reduced_dependencies(m, id, p);
        assert forall|k: int| 0 <= k < r.len() implies exists|i: int|
            0 <= i < ds.len() && reduced_from(m, id, #[trigger] r[k], ds[i]) by {
            if k < rp.len() {
                assert(r[k] == rp[k]);
                let i = choose|i: int| 0 <= i < p.len() && reduced_from(m, id, rp[k], p[i]);
                assert(ds[i] == p[i]);
                assert(reduced_from(m, id, r[k], ds[i]));
            } else {
                let i = ds.len() - 1;
                assert(ds[i] == d);
                let rk = r[k];
                assert forall|c: int| 0 <= c < rk.collections.len() implies collection_possible(
                    m,
                    id,
                    rk.location,
                    #[trigger] rk.collections[c],
                ) && exists|j: int| 0 <= j < d.collections.len() && d.collections[j] == rk.collections[c] by {
                    assert(rk.collections[c] == possible_collections(m, id, d.location, d.collections)[c]);
                }
                assert(reduced_from(m, id, r[k], ds[i]));
            }
        }
    }
}

/// Reducing twice is reducing once, reducing changes nothing exactly when no dependency lists
/// an impossible collection, and otherwise makes the dependencies strictly smaller.
pub proof fn lemma_reduction_steps(m: ManagerModel, id: u64, ds: Seq<DependencyModel>)
    ensures
        !reducible(m, id, reduced_dependencies(m, id, ds)),
        !reducible(m, id, ds) ==> reduced_dependencies(m, id, ds) == ds,
        reducible(m, id, ds) ==> dependency_size(reduced_dependencies(m, id, ds)) < dependency_size(ds),
        dependency_size(reduced_dependencies(m, id, ds)) <= dependency_size(ds),
    decreases ds.len(),
{
    lemma_reduced_dependencies(m, id, ds);
    let r = reduced_dependencies(m, id, ds);
    assert forall|i: int, j: int| 0 <= i < r.len() && 0 <= j < r[i].collections.len() implies collection_possible(
        m,
        id,
        r[i].location,
        r[i].collections[j],
    ) by {
        let ii = choose|ii: int| 0 <= ii < ds.len() && reduced_from(m, id, r[i], ds[ii]);
        assert(collection_possible(m, id, r[i].location, r[i].collections[j]));
    }
    if ds.len() > 0 {
        let p = ds.drop_last();
        lemma_reduction_steps(m, id, p);
        let d = ds.last();
        lemma_possible_collections(m, id, d.location, d.collections);
        let kept = possible_collections(m, id, d.location, d.collections);
        if !reducible(m, id, ds) {
            assert(!reducible(m, id, p)) by {
                if reducible(m, id, p) {
                    let (i, j) = choose|i: int, j: int|
                        0 <= i < p.len() && 0 <= j < p[i].collections.len() && !collection_possible(
                            m,
                            id,
                            p[i].location,
                            p[i].collections[j],
                        );
                    assert(ds[i] == p[i]);
                }
            }
            assert forall|j: int| 0 <= j < d.collections.len() implies collection_possible(
                m,
                id,
                d.location,
                #[trigger] d.collections[j],
            ) by {
                assert(ds[ds.len() - 1] == d);
            }
            assert(kept == d.collections);
            assert(ds =~= p.push(DependencyModel { cell_group_id: d.cell_group_id, location: d.location, collections: kept }));
        }
        assert(dependency_size(ds) == dependency_size(p) + 1 + d.collections.len());
        let rp = reduced_dependencies(m, id, p);
        let r = reduced_dependencies(m, id, ds);
        if !(d.collections.len() > 0 && kept.len() == 0) {
            let nd = DependencyModel { cell_group_id: d.cell_group_id, location: d.location, collections: kept };
            assert(r == rp.push(nd));
            assert(r.drop_last() =~= rp);
            assert(dependency_size(r) == dependency_size(rp) + 1 + kept.len());
        }
        if reducible(m, id, ds) {
            if !reducible(m, id, p) {
                let (i, j) = choose|i: int, j: int|
                    0 <= i < ds.len() && 0 <= j < ds[i].collections.len() && !collection_possible(
                        m,
                        id,
                        ds[i].location,
                        ds[i].collections[j],
                    );
                if i < p.len() {
                    assert(p[i] == ds[i]);
                    assert(false);
                }
                assert(!collection_possible(m, id, d.location, d.collections[j]));
                assert(kept.len() < d.collections.len());
            }
        }
    }
}

/// With keys not repeated, the dependencies of a key are those of its group.
pub proof fn lemma_group_dependencies(groups: Seq<(u64, Seq<DependencyModel>)>, j: int)
    requires
        keys_unique(groups),
        0 <= j < groups.len(),
    ensures
        group_dependencies(groups, groups[j].0) == groups[j].1,
    decreases groups.len(),
{
    if j < groups.len() - 1 {
        let p = groups.drop_last();
        assert(keys_unique(p));
        assert(p[j] == groups[j]);
        assert(groups[groups.len() - 1].0 != groups[j].0);
        lemma_group_dependencies(p, j);
    }
}

/// Whether collections are possible depends only on the lookups, not on the dependencies.
pub proof fn lemma_reduction_congruence(m1: ManagerModel, m2: ManagerModel, id: u64, ds: Seq<DependencyModel>)
    requires
        m1.cell_groups == m2.cell_groups,
        m1.collections == m2.collections,
        m1.detection_offsets == m2.detection_offsets,
        m1.adjacency == m2.adjacency,
    ensures
        reduced_dependencies(m1, id, ds) == reduced_dependencies(m2, id, ds),
        reducible(m1, id, ds) == reducible(m2, id, ds),
    decreases ds.len(),
{
    assert forall|location: (i32, i32), x: (i32, i32)| #[trigger] is_overlap_location(m1, id, location, x)
        == is_overlap_location(m2, id, location, x) by {}
    assert forall|location: (i32, i32), x: (i32, i32)| #[trigger] touches_overlap(m1, id, location, x)
        == touches_overlap(m2, id, location, x) by {
        if touches_overlap(m1, id, location, x) {
            let y = choose|y: (i32, i32)| is_overlap_location(m1, id, location, y) && is_orthogonal_neighbor(x, y);
            assert(is_overlap_location(m2, id, location, y));
        }
        if touches_overlap(m2, id, location, x) {
            let y = choose|y: (i32, i32)| is_overlap_location(m2, id, location, y) && is_orthogonal_neighbor(x, y);
            assert(is_overlap_location(m1, id, location, y));
        }
    }
    assert forall|location: (i32, i32), t: u64, x: (i32, i32)| #[trigger] is_detection_location(m1, id, location, t, x)
        == is_detection_location(m2, id, location, t, x) by {}
    assert forall|member: u64, at: (i32, i32)| #[trigger] located_cells(m1, member, at) == located_cells(m2, member, at) by {}
    assert forall|location: (i32, i32), member: u64, at: (i32, i32)| #[trigger] placement_possible(m1, id, location, member, at)
        == placement_possible(m2, id, location, member, at) by {
        let cells = located_cells(m1, member, at);
        assert(cells == located_cells(m2, member, at));
        let t = m1.cell_groups[member].cell_group_type;
        assert forall|k: int| 0 <= k < cells.len() implies (!is_overlap_location(m1, id, location, #[trigger] cells[k])
            && !is_detection_location(m1, id, location, t, cells[k])) == (!is_overlap_location(m2, id, location, cells[k])
            && !is_detection_location(m2, id, location, t, cells[k])) by {}
        assert forall|k: int| 0 <= k < cells.len() implies touches_overlap(m1, id, location, #[trigger] cells[k])
            == touches_overlap(m2, id, location, cells[k]) by {}
    }
    assert forall|location: (i32, i32), c: u64| #[trigger] collection_possible(m1, id, location, c)
        == collection_possible(m2, id, location, c) by {
        assert(m1.collections[c] == m2.collections[c]);
        assert forall|i: int| 0 <= i < m1.collections[c].len() implies #[trigger] placement_possible(
            m1, id, location, m1.collections[c][i].0, m1.collections[c][i].1,
        ) == placement_possible(m2, id, location, m2.collections[c][i].0, m2.collections[c][i].1) by {}
    }
    assert forall|location: (i32, i32), cs: Seq<u64>| #[trigger] possible_collections(m1, id, location, cs)
        == possible_collections(m2, id, location, cs) by {
        lemma_possible_collections_congruence(m1, m2, id, location, cs);
    }
    if ds.len() > 0 {
        lemma_reduction_congruence(m1, m2, id, ds.drop_last());
    }
}

proof fn lemma_possible_collections_congruence(
    m1: ManagerModel,
    m2: ManagerModel,
    id: u64,
    location: (i32, i32),
    cs: Seq<u64>,
)
    requires
        forall|location: (i32, i32), c: u64| #[trigger] collection_possible(m1, id, location, c)
            == collection_possible(m2, id, location, c),
    ensures
        possible_collections(m1, id, location, cs) == possible_collections(m2, id, location, cs),
    decreases cs.len(),
{
    if cs.len() > 0 {
        lemma_possible_collections_congruence(m1, m2, id, location, cs.drop_last());
        assert(collection_possible(m1, id, location, cs.last()) == collection_possible(m2, id, location, cs.last()));
    }
}

/// Replacing the dependencies of one group changes the total size by the difference.
pub proof fn lemma_groups_size_update(groups: Seq<(u64, Seq<DependencyModel>)>, j: int, g: (u64, Seq<DependencyModel>))
    requires
        0 <= j < groups.len(),
    ensures
        groups_size(groups.update(j, g)) + dependency_size(groups[j].1) == groups_size(groups) + dependency_size(g.1),
    decreases groups.len(),
{
    let u = groups.update(j, g);
    if j < groups.len() - 1 {
        lemma_groups_size_update(groups.drop_last(), j, g);
        assert(u.drop_last() =~= groups.drop_last().update(j, g));
    } else {
        assert(u.drop_last() =~= groups.drop_last());
    }
}

/// A dependency of `groups` about cell group `id`.
pub proof fn lemma_dependency_witness(groups: Seq<(u64, Seq<DependencyModel>)>, id: u64) -> (jk: (int, int))
    requires
        has_dependency(groups, id),
    ensures
        0 <= jk.0 < groups.len(),
        0 <= jk.1 < groups[jk.0].1.len(),
        groups[jk.0].0 == id,
{
    let j = choose|j: int| 0 <= j < groups.len() && (#[trigger] groups[j]).0 == id && groups[j].1.len() > 0;
    (j, 0)
}

/// A dependency of `groups` about cell group `id` at `location`.
pub proof fn lemma_dependency_at_witness(groups: Seq<(u64, Seq<DependencyModel>)>, id: u64, location: (i32, i32)) -> (jk: (
    int,
    int,
))
    requires
        dependency_at(groups, id, location),
    ensures
        0 <= jk.0 < groups.len(),
        0 <= jk.1 < groups[jk.0].1.len(),
        groups[jk.0].0 == id,
        groups[jk.0].1[jk.1].location == location,
{
    choose|j: int, k: int|
        #![trigger groups[j].1[k]]
        0 <= j < groups.len() && 0 <= k < groups[j].1.len() && groups[j].0 == id && groups[j].1[k].location
            == location
}
} // verus!
