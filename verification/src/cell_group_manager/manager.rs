//! The manager: lookups and caches built once from its inputs, and the reduction of the
//! dependencies to those that can still be satisfied.
use vstd::prelude::*;
use super::{
    CellGroup, CellGroupLocationCollection, CellGroupLocationDependency, cell_group_models,
    collection_models, dependency_models, detection_offset_models,
};
use super::caches::{
    DetectionLocations, LocatedCells, OverlapLocations, build_detection_cells,
    build_detection_locations, build_located_cells, build_overlaps, collection_possible_exec,
    detection_keys_of, detection_locations_complete_for, detection_locations_sound,
    detection_view, find_overlap, has_detection_locations, has_overlap,
    lemma_detection_complete_for_reduced, lemma_detection_view_exact, lemma_located_view_exact,
    lemma_overlap_view_exact, located_sound, located_view, overlap_sound, overlap_sums_fit,
    overlap_view,
};
use super::laws::law_grouping_keeps_dependencies;
use super::lemmas::{
    lemma_dependency_grouping, lemma_directed_offset_keys_unique, lemma_group_dependencies,
    lemma_groups_size_update, lemma_reduced_dependencies, lemma_reduction_congruence,
    lemma_reduction_steps, reduced_from,
};
use super::lookups::{
    adjacency_has, adjacency_view, adjacency_wf, build_adjacency, cell_group_ids_of,
    collect_dependency_groups, dependency_group_models, direct_detection_offsets, find_adjacency,
    find_collection, find_dependency_group, index_cell_groups, index_collections,
    lemma_cell_group_stored, lemma_collection_stored, lemma_stored_cell_group,
    lemma_stored_collection,
};
use super::model::{
    DependencyModel, ManagerModel, all_dependencies, cell_group_entries, cell_group_lookup,
    collection_entries, collection_lookup, collection_possible, constructible, dependency_grouping,
    expected_detection_cache, expected_located_cache, expected_overlap_cache, fits_sum,
    group_dependencies, groups_size, has_dependency, is_overlap_location, keys_unique,
    lookups_constructible, manager_model, possible_collections, reduce_group, reduced_dependencies,
    reducible, validated_model,
};

verus! {

/// Keeps cell groups, the collections that arrange them, and the dependencies of cell group
/// locations on those collections, together with the caches that deciding which collections
/// remain possible needs.
pub struct CellGroupManager {
    cell_groups: Vec<CellGroup>,
    collections: Vec<CellGroupLocationCollection>,
    dependency_groups: Vec<(u64, Vec<CellGroupLocationDependency>)>,
    detection_locations: Vec<DetectionLocations>,
    detection_keys: Vec<(u64, (i32, i32))>,
    adjacency: Vec<(u64, Vec<u64>)>,
    overlaps: Vec<OverlapLocations>,
    located: Vec<Vec<LocatedCells>>,
    detection_offsets: Ghost<Map<(u64, u64), Seq<(i32, i32)>>>,
}

impl View for CellGroupManager {
    type V = ManagerModel;

    closed spec fn view(&self) -> ManagerModel {
        ManagerModel {
            cell_groups: cell_group_lookup(cell_group_models(self.cell_groups@)),
            collections: collection_lookup(collection_models(self.collections@)),
            detection_offsets: self.detection_offsets@,
            adjacency: adjacency_view(self.adjacency@),
            dependency_groups: dependency_group_models(self.dependency_groups@),
        }
    }
}

/// The dependency groups have distinct keys and hold dependencies about their key; every cell
/// group has a group; every collection named by a dependency exists; and every cell group
/// placed by a collection exists.
pub open spec fn dependencies_consistent(m: ManagerModel) -> bool {
    &&& keys_unique(m.dependency_groups)
    &&& forall|j: int, k: int|
        0 <= j < m.dependency_groups.len() && 0 <= k < m.dependency_groups[j].1.len()
            ==> (#[trigger] m.dependency_groups[j].1[k]).cell_group_id == m.dependency_groups[j].0
    &&& forall|id: u64| #[trigger]
        m.cell_groups.contains_key(id) ==> exists|j: int|
            0 <= j < m.dependency_groups.len() && m.dependency_groups[j].0 == id
    &&& forall|j: int, k: int, c: int|
        0 <= j < m.dependency_groups.len() && 0 <= k < m.dependency_groups[j].1.len() && 0 <= c
            < m.dependency_groups[j].1[k].collections.len() ==> m.collections.contains_key(
            #[trigger] m.dependency_groups[j].1[k].collections[c],
        )
    &&& forall|c: u64, p: int|
        #![trigger m.collections[c][p]]
        m.collections.contains_key(c) && 0 <= p < m.collections[c].len() ==> m.cell_groups.contains_key(
            m.collections[c][p].0,
        )
}

impl CellGroupManager {
    /// The locations covered by each cell group at each location its dependencies gave it when
    /// the manager was built.
    pub closed spec fn overlap_cache(&self) -> Map<u64, Map<(i32, i32), Set<(i32, i32)>>> {
        overlap_view(self.overlaps@)
    }

    /// For the cell group and location of each dependency the manager was built with, the
    /// locations at which the cell group detects each type that the dependency's collections
    /// place.
    pub closed spec fn detection_cache(&self) -> Map<u64, Map<(i32, i32), Map<u64, Set<(i32, i32)>>>> {
        detection_view(self.detection_locations@, self.detection_keys@)
    }

    /// For each collection, the cells of each cell group it places, keyed by the cell group,
    /// its type and its location.
    pub closed spec fn located_cache(&self) -> Map<u64, Map<(u64, u64, (i32, i32)), Seq<(i32, i32)>>> {
        located_view(self.collections@, self.located@)
    }

    /// The lookups are stored without repeated keys, the model's dependencies are consistent,
    /// and each cache holds exactly what the model says and everything that reducing the
    /// dependencies of a cell group asks of it.
    pub closed spec fn wf(&self) -> bool {
        let m = self@;
        &&& keys_unique(cell_group_entries(cell_group_models(self.cell_groups@)))
        &&& keys_unique(collection_entries(collection_models(self.collections@)))
        &&& adjacency_wf(self.adjacency@)
        &&& dependencies_consistent(m)
        &&& self.located@.len() == self.collections@.len()
        &&& forall|c: int|
            0 <= c < self.collections@.len() ==> located_sound(
                m,
                self.collections@[c].location_per_cell_group_id@,
                #[trigger] self.located@[c]@,
            )
        &&& forall|i: int| 0 <= i < self.overlaps@.len() ==> overlap_sound(m, #[trigger] self.overlaps@[i])
        &&& forall|j: int, k: int|
            0 <= j < m.dependency_groups.len() && m.cell_groups.contains_key(m.dependency_groups[j].0)
                && 0 <= k < m.dependency_groups[j].1.len() ==> #[trigger] has_overlap(
                self.overlaps@,
                m.dependency_groups[j].0,
                m.dependency_groups[j].1[k].location,
            )
        &&& forall|i: int|
            0 <= i < self.detection_locations@.len() ==> detection_locations_sound(
                m,
                #[trigger] self.detection_locations@[i],
            )
        &&& forall|j: int, k: int|
            0 <= j < m.dependency_groups.len() && m.cell_groups.contains_key(m.dependency_groups[j].0)
                && 0 <= k < m.dependency_groups[j].1.len() ==> detection_locations_complete_for(
                m,
                self.detection_locations@,
                #[trigger] m.dependency_groups[j].1[k],
            )
    }

    /// Builds the lookups of cell groups and collections (a later entry replacing an earlier one
    /// with the same identifier), the expected adjacencies (both ways round each pair), the
    /// detection offsets (both ways round each pair of types), the dependencies grouped by cell
    /// group, and the caches of covered locations, detection locations and placed cells.
    pub fn new(
        cell_groups: Vec<CellGroup>,
        cell_group_location_collections: Vec<CellGroupLocationCollection>,
        detection_offsets_per_cell_group_type_pair: Vec<((u64, u64), Vec<(i32, i32)>)>,
        adjacent_cell_group_id_pairs: Vec<(u64, u64)>,
        cell_group_location_dependencies: Vec<CellGroupLocationDependency>,
    ) -> (manager: Self)
        requires
            constructible(
                cell_group_models(cell_groups@),
                collection_models(cell_group_location_collections@),
                detection_offset_models(detection_offsets_per_cell_group_type_pair@),
                dependency_models(cell_group_location_dependencies@),
            ),
        ensures
            manager.wf(),
            dependencies_consistent(manager@),
            manager@ == manager_model(
                cell_group_models(cell_groups@),
                collection_models(cell_group_location_collections@),
                detection_offset_models(detection_offsets_per_cell_group_type_pair@),
                adjacent_cell_group_id_pairs@,
                dependency_models(cell_group_location_dependencies@),
            ),
            manager.overlap_cache() == expected_overlap_cache(manager@),
            manager.detection_cache() == expected_detection_cache(manager@),
            manager.located_cache() == expected_located_cache(manager@),
    {
        let ghost gin = cell_group_models(cell_groups@);
        let ghost cin = collection_models(cell_group_location_collections@);
        let ghost oin = detection_offset_models(detection_offsets_per_cell_group_type_pair@);
        let ghost din = dependency_models(cell_group_location_dependencies@);
        let ghost m = manager_model(gin, cin, oin, adjacent_cell_group_id_pairs@, din);

        // cell group and collection lookups
        let cell_group_lookup = index_cell_groups(cell_groups);
        let collection_lookup = index_collections(cell_group_location_collections);

        // expected adjacencies, both ways round
        let adjacency = build_adjacency(&adjacent_cell_group_id_pairs);

        // detection offsets, both ways round, and the detection cells of each cell group
        let directed = direct_detection_offsets(detection_offsets_per_cell_group_type_pair);
        proof {
            lemma_directed_offset_keys_unique(oin);
        }
        let detection_cells = build_detection_cells(&cell_group_lookup, &directed, Ghost(m));

        // the locations each dependency's cell group detects each type it meets at
        let detection_locations = build_detection_locations(
            &cell_group_location_dependencies,
            &collection_lookup,
            &cell_group_lookup,
            &detection_cells,
            Ghost(m),
        );

        // dependencies per cell group
        let ghost dependencies_in = cell_group_location_dependencies@;
        let dependency_groups = collect_dependency_groups(cell_group_location_dependencies);
        let detection_keys = detection_keys_of(&dependency_groups);
        proof {
            lemma_dependency_grouping(din);
            lemma_overlap_sums_fit(m, din);
        }

        // locations covered by each cell group at each location its dependencies give it
        let overlaps = build_overlaps(&dependency_groups, &cell_group_lookup, Ghost(m));

        // cells placed by each collection
        let located = build_located_cells(&collection_lookup, &cell_group_lookup, Ghost(m), Ghost(din));

        let manager = CellGroupManager {
            cell_groups: cell_group_lookup,
            collections: collection_lookup,
            dependency_groups,
            detection_locations,
            detection_keys,
            adjacency,
            overlaps,
            located,
            detection_offsets: Ghost(m.detection_offsets),
        };
        assert(manager@ == m);
        proof {
            lemma_dependencies_consistent(m, din);
            assert forall|j: int, k: int|
                0 <= j < m.dependency_groups.len() && m.cell_groups.contains_key(m.dependency_groups[j].0)
                    && 0 <= k < m.dependency_groups[j].1.len() implies detection_locations_complete_for(
                m,
                manager.detection_locations@,
                #[trigger] m.dependency_groups[j].1[k],
            ) by {
                let i = choose|i: int| 0 <= i < din.len() && din[i] == m.dependency_groups[j].1[k];
                assert(dependencies_in[i]@ == din[i]);
            }
            lemma_every_cell_group_has_dependency(m, din);
            lemma_overlap_view_exact(m, manager.overlaps@);
            assert forall|i: int| 0 <= i < din.len() implies detection_locations_complete_for(
                m,
                manager.detection_locations@,
                #[trigger] din[i],
            ) by {
                assert(dependencies_in[i]@ == din[i]);
            }
            lemma_detection_view_exact(m, din, manager.detection_locations@, manager.detection_keys@);
            lemma_located_view_exact(m, manager.collections@, manager.located@);
        }
        manager
    }
}

/// Every cell of every cell group, placed at each location its dependencies give it, can be
/// computed when the inputs are constructible.
proof fn lemma_overlap_sums_fit(m: ManagerModel, din: Seq<DependencyModel>)
    requires
        lookups_constructible(m.cell_groups, m.collections, m.detection_offsets, din),
        m.dependency_groups == dependency_grouping(din),
    ensures
        overlap_sums_fit(m),
{
    lemma_dependency_grouping(din);
    assert forall|j: int, k: int, c: int|
        0 <= j < m.dependency_groups.len() && m.cell_groups.contains_key(m.dependency_groups[j].0) && 0
            <= k < m.dependency_groups[j].1.len() && 0 <= c < m.cell_groups[m.dependency_groups[j].0].cells.len()
        implies fits_sum(
        #[trigger] m.dependency_groups[j].1[k].location,
        #[trigger] m.cell_groups[m.dependency_groups[j].0].cells[c],
    ) by {
        let i = choose|i: int| 0 <= i < din.len() && din[i] == m.dependency_groups[j].1[k];
        assert(din[i].cell_group_id == m.dependency_groups[j].0);
        assert(fits_sum(din[i].location, m.cell_groups[din[i].cell_group_id].cells[c]));
    }
}

/// Every cell group of constructible inputs has a dependency.
proof fn lemma_every_cell_group_has_dependency(m: ManagerModel, din: Seq<DependencyModel>)
    requires
        lookups_constructible(m.cell_groups, m.collections, m.detection_offsets, din),
        m.dependency_groups == dependency_grouping(din),
    ensures
        forall|id: u64| #[trigger] m.cell_groups.contains_key(id) ==> has_dependency(m.dependency_groups, id),
{
    assert forall|id: u64| #[trigger] m.cell_groups.contains_key(id) implies has_dependency(m.dependency_groups, id) by {
        let i = choose|i: int| 0 <= i < din.len() && din[i].cell_group_id == id;
        law_grouping_keeps_dependencies(din, i);
        let g = m.dependency_groups;
        let j = choose|j: int| 0 <= j < g.len() && g[j].0 == din[i].cell_group_id && (#[trigger] g[j]).1.contains(din[i]);
        let k = choose|k: int| 0 <= k < g[j].1.len() && g[j].1[k] == din[i];
        assert(0 <= j < g.len() && 0 <= k < g[j].1.len() && g[j].0 == id && g[j].1[k] == din[i]);
    }
}

/// The model of constructible inputs has consistent dependencies.
proof fn lemma_dependencies_consistent(m: ManagerModel, din: Seq<DependencyModel>)
    requires
        lookups_constructible(m.cell_groups, m.collections, m.detection_offsets, din),
        m.dependency_groups == dependency_grouping(din),
    ensures
        dependencies_consistent(m),
{
    lemma_dependency_grouping(din);
    assert forall|id: u64| #[trigger] m.cell_groups.contains_key(id) implies exists|j: int|
        0 <= j < m.dependency_groups.len() && m.dependency_groups[j].0 == id by {
        let i = choose|i: int| 0 <= i < din.len() && din[i].cell_group_id == id;
        assert(din[i].cell_group_id == id);
    }
    assert forall|j: int, k: int, c: int|
        0 <= j < m.dependency_groups.len() && 0 <= k < m.dependency_groups[j].1.len() && 0 <= c
            < m.dependency_groups[j].1[k].collections.len() implies m.collections.contains_key(
        #[trigger] m.dependency_groups[j].1[k].collections[c],
    ) by {
        let i = choose|i: int| 0 <= i < din.len() && din[i] == m.dependency_groups[j].1[k];
        assert(din[i].collections[c] == m.dependency_groups[j].1[k].collections[c]);
    }
}

impl CellGroupManager {
    /// Determines which of the collections that the dependencies of cell group `cell_group_id`
    /// list are possible with it at the dependency's location, removes the others, and removes
    /// each dependency that listed collections of which none is possible. Returns true if at
    /// least one collection or dependency was removed.
    pub fn try_reduce_cell_group_location_dependency_for_cell_group(&mut self, cell_group_id: u64) -> (reduced:
        bool)
        requires
            old(self).wf(),
            old(self)@.cell_groups.contains_key(cell_group_id),
            old(self)@.adjacency.contains_key(cell_group_id),
        ensures
            final(self).wf(),
            dependencies_consistent(final(self)@),
            final(self)@ == reduce_group(old(self)@, cell_group_id),
            final(self).overlap_cache() == old(self).overlap_cache(),
            final(self).detection_cache() == old(self).detection_cache(),
            final(self).located_cache() == old(self).located_cache(),
            reduced == reducible(
                old(self)@,
                cell_group_id,
                group_dependencies(old(self)@.dependency_groups, cell_group_id),
            ),
    {
        let ghost m = self@;
        let ghost groups = m.dependency_groups;
        let gi = match find_dependency_group(&self.dependency_groups, cell_group_id) {
            Some(gi) => gi,
            None => {
                proof {
                    let j = choose|j: int| 0 <= j < groups.len() && groups[j].0 == cell_group_id;
                    assert(groups[j].0 == self.dependency_groups@[j].0);
                }
                return false;
            },
        };
        let ai = match find_adjacency(&self.adjacency, cell_group_id) {
            Some(ai) => ai,
            None => {
                return false;
            },
        };
        let adjacent = &self.adjacency[ai].1;
        proof {
            assert forall|y: u64| #[trigger] adjacent@.contains(y) <==> m.adjacency[cell_group_id].contains(y) by {
                if adjacency_has(self.adjacency@, cell_group_id, y) {
                    let i = choose|i: int|
                        0 <= i < self.adjacency@.len() && self.adjacency@[i].0 == cell_group_id
                            && self.adjacency@[i].1@.contains(y);
                    assert(i == ai);
                }
                if adjacent@.contains(y) {
                    assert(adjacency_has(self.adjacency@, cell_group_id, y));
                }
            }
            lemma_group_dependencies(groups, gi as int);
        }
        let dependencies = &self.dependency_groups[gi].1;
        let ghost ds = dependency_models(dependencies@);
        assert(groups[gi as int] == (cell_group_id, ds));
        let mut reduced_deps: Vec<CellGroupLocationDependency> = Vec::new();
        let mut reduced = false;
        let mut k: usize = 0;
        while k < dependencies.len()
            invariant
                self.wf(),
                m == self@,
                groups == m.dependency_groups,
                gi < groups.len(),
                groups[gi as int] == (cell_group_id, ds),
                ds == dependency_models(dependencies@),
                m.cell_groups.contains_key(cell_group_id),
                m.adjacency.contains_key(cell_group_id),
                forall|y: u64| #[trigger] adjacent@.contains(y) <==> m.adjacency[cell_group_id].contains(y),
                k <= ds.len(),
                dependency_models(reduced_deps@) == reduced_dependencies(m, cell_group_id, ds.take(k as int)),
                reduced == reducible(m, cell_group_id, ds.take(k as int)),
            decreases ds.len() - k,
        {
            let dependency = &dependencies[k];
            let ghost d = ds[k as int];
            assert(d == dependency@);
            assert(m.dependency_groups[gi as int].1[k as int] == d);
            assert(has_overlap(self.overlaps@, cell_group_id, d.location));
            assert(detection_locations_complete_for(m, self.detection_locations@, d));
            let oi = match find_overlap(&self.overlaps, cell_group_id, dependency.location) {
                Some(oi) => oi,
                None => {
                    return false;
                },
            };
            let overlap = &self.overlaps[oi].locations;
            assert(overlap_sound(m, self.overlaps@[oi as int]));
            let mut kept: Vec<u64> = Vec::new();
            let mut is_at_least_one_cell_group_location_collection_possible = dependency.cell_group_location_collections.is_empty();
            let mut j: usize = 0;
            while j < dependency.cell_group_location_collections.len()
                invariant
                    self.wf(),
                    m == self@,
                    groups == m.dependency_groups,
                    gi < groups.len(),
                    groups[gi as int] == (cell_group_id, ds),
                    k < ds.len(),
                    d == ds[k as int],
                    d == dependency@,
                    m.cell_groups.contains_key(cell_group_id),
                    m.adjacency.contains_key(cell_group_id),
                    forall|y: u64| #[trigger] adjacent@.contains(y) <==> m.adjacency[cell_group_id].contains(y),
                    forall|x: (i32, i32)| #[trigger] overlap@.contains(x) <==> is_overlap_location(m, cell_group_id, d.location, x),
                    detection_locations_complete_for(m, self.detection_locations@, d),
                    j <= d.collections.len(),
                    kept@ == possible_collections(m, cell_group_id, d.location, d.collections.take(j as int)),
                    is_at_least_one_cell_group_location_collection_possible == (d.collections.len() == 0
                        || kept@.len() > 0),
                    reduced == (reducible(m, cell_group_id, ds.take(k as int)) || exists|jj: int|
                        0 <= jj < j && !collection_possible(m, cell_group_id, d.location, #[trigger] d.collections[jj])),
                decreases d.collections.len() - j,
            {
                let collection_id = dependency.cell_group_location_collections[j];
                assert(m.collections.contains_key(m.dependency_groups[gi as int].1[k as int].collections[j as int]));
                let ci = match find_collection(&self.collections, collection_id) {
                    Some(ci) => ci,
                    None => {
                        proof {
                            lemma_collection_stored(self.collections@, collection_id);
                        }
                        return false;
                    },
                };
                proof {
                    lemma_stored_collection(self.collections@, ci as int);
                    assert(located_sound(m, self.collections@[ci as int].location_per_cell_group_id@, self.located@[ci as int]@));
                    assert forall|p: int| 0 <= p < m.collections[collection_id].len() implies has_detection_locations(
                        self.detection_locations@,
                        cell_group_id,
                        d.location,
                        m.cell_groups[(#[trigger] m.collections[collection_id][p]).0].cell_group_type,
                    ) by {
                        assert(m.collections[d.collections[j as int]][p] == m.collections[collection_id][p]);
                    }
                }
                let possible = collection_possible_exec(
                    &self.detection_locations,
                    cell_group_id,
                    dependency.location,
                    overlap,
                    adjacent,
                    &self.located[ci],
                    Ghost(m),
                    Ghost(collection_id),
                );
                let ghost before = kept@;
                assert(d.collections.take(j + 1).drop_last() =~= d.collections.take(j as int));
                assert(d.collections.take(j + 1).last() == collection_id);
                if possible {
                    kept.push(collection_id);
                    is_at_least_one_cell_group_location_collection_possible = true;
                } else {
                    reduced = true;
                }
                j = j + 1;
            }
            assert(d.collections.take(d.collections.len() as int) =~= d.collections);
            let ghost before = reduced_deps@;
            assert(ds.take(k + 1).drop_last() =~= ds.take(k as int));
            assert(ds.take(k + 1).last() == d);
            if is_at_least_one_cell_group_location_collection_possible {
                reduced_deps.push(
                    CellGroupLocationDependency {
                        cell_group_id: dependency.cell_group_id,
                        location: dependency.location,
                        cell_group_location_collections: kept,
                    },
                );
                assert(dependency_models(reduced_deps@) =~= dependency_models(before).push(
                    DependencyModel {
                        cell_group_id: d.cell_group_id,
                        location: d.location,
                        collections: possible_collections(m, cell_group_id, d.location, d.collections),
                    },
                ));
            }
            proof {
                let t = ds.take(k + 1);
                if reducible(m, cell_group_id, t) && !reducible(m, cell_group_id, ds.take(k as int)) {
                    let (i, jj) = choose|i: int, jj: int|
                        0 <= i < t.len() && 0 <= jj < t[i].collections.len() && !collection_possible(
                            m,
                            cell_group_id,
                            t[i].location,
                            t[i].collections[jj],
                        );
                    if i < k {
                        assert(ds.take(k as int)[i] == t[i]);
                    } else {
                        assert(t[i] == d);
                    }
                }
                if reducible(m, cell_group_id, ds.take(k as int)) {
                    let (i, jj) = choose|i: int, jj: int|
                        0 <= i < k && 0 <= jj < ds.take(k as int)[i].collections.len() && !collection_possible(
                            m,
                            cell_group_id,
                            ds.take(k as int)[i].location,
                            ds.take(k as int)[i].collections[jj],
                        );
                    assert(ds.take(k as int)[i] == t[i]);
                }
                if exists|jj: int| 0 <= jj < d.collections.len() && !collection_possible(m, cell_group_id, d.location, #[trigger] d.collections[jj]) {
                    let jj = choose|jj: int| 0 <= jj < d.collections.len() && !collection_possible(m, cell_group_id, d.location, #[trigger] d.collections[jj]);
                    assert(t[k as int] == d);
                }
            }
            k = k + 1;
        }
        assert(ds.take(ds.len() as int) =~= ds);
        let ghost new_ds = dependency_models(reduced_deps@);
        let ghost old_storage = self.dependency_groups@;
        self.dependency_groups.set(gi, (cell_group_id, reduced_deps));
        proof {
            let m2 = reduce_group(m, cell_group_id);
            assert forall|j: int| 0 <= j < groups.len() implies #[trigger] dependency_group_models(
                self.dependency_groups@,
            )[j] == m2.dependency_groups[j] by {
                if j != gi {
                    assert(self.dependency_groups@[j] == old_storage[j]);
                    assert(groups[j].0 != cell_group_id);
                }
            }
            assert(dependency_group_models(self.dependency_groups@) =~= m2.dependency_groups);
            assert(self@ == m2);
            lemma_reduced_dependencies(m, cell_group_id, ds);
            assert(keys_unique(m2.dependency_groups)) by {
                assert forall|a: int, b: int| 0 <= a < m2.dependency_groups.len() && 0 <= b < m2.dependency_groups.len() && a != b
                    implies m2.dependency_groups[a].0 != m2.dependency_groups[b].0 by {
                    assert(m2.dependency_groups[a].0 == groups[a].0);
                    assert(m2.dependency_groups[b].0 == groups[b].0);
                }
            }
            assert forall|jj: int, kk: int|
                0 <= jj < m2.dependency_groups.len() && 0 <= kk < m2.dependency_groups[jj].1.len()
                    implies (#[trigger] m2.dependency_groups[jj].1[kk]).cell_group_id == m2.dependency_groups[jj].0
                    && (m2.cell_groups.contains_key(m2.dependency_groups[jj].0) ==> has_overlap(
                        self.overlaps@,
                        m2.dependency_groups[jj].0,
                        m2.dependency_groups[jj].1[kk].location,
                    ) && detection_locations_complete_for(m2, self.detection_locations@, m2.dependency_groups[jj].1[kk]))
                    && (forall|c: int| 0 <= c < m2.dependency_groups[jj].1[kk].collections.len() ==> m2.collections.contains_key(
                        #[trigger] m2.dependency_groups[jj].1[kk].collections[c],
                    )) by {
                if jj == gi {
                    let r = m2.dependency_groups[jj].1[kk];
                    assert(r == new_ds[kk]);
                    let i = choose|i: int| 0 <= i < ds.len() && reduced_from(m, cell_group_id, new_ds[kk], ds[i]);
                    assert(groups[jj].1[i] == ds[i]);
                    assert(has_overlap(self.overlaps@, groups[jj].0, groups[jj].1[i].location));
                    assert(detection_locations_complete_for(m, self.detection_locations@, groups[jj].1[i]));
                    lemma_detection_complete_for_reduced(m, cell_group_id, self.detection_locations@, r, ds[i]);
                    assert forall|c: int| 0 <= c < r.collections.len() implies m2.collections.contains_key(
                        #[trigger] r.collections[c],
                    ) by {
                        let q = choose|q: int| 0 <= q < ds[i].collections.len() && ds[i].collections[q] == r.collections[c];
                        assert(m.collections.contains_key(groups[jj].1[i].collections[q]));
                    }
                } else {
                    assert(m2.dependency_groups[jj] == groups[jj]);
                    assert(forall|c: int| 0 <= c < groups[jj].1[kk].collections.len() ==> m.collections.contains_key(
                        #[trigger] groups[jj].1[kk].collections[c],
                    ));
                }
            }
            assert forall|id: u64| #[trigger] m2.cell_groups.contains_key(id) implies exists|jj: int|
                0 <= jj < m2.dependency_groups.len() && m2.dependency_groups[jj].0 == id by {
                let jj = choose|jj: int| 0 <= jj < groups.len() && groups[jj].0 == id;
                assert(m2.dependency_groups[jj].0 == groups[jj].0);
            }
            assert(dependencies_consistent(m2));
            assert forall|i: int| 0 <= i < self.overlaps@.len() implies overlap_sound(m2, #[trigger] self.overlaps@[i]) by {
                assert(overlap_sound(m, self.overlaps@[i]));
            }
            assert forall|i: int| 0 <= i < self.detection_locations@.len() implies detection_locations_sound(
                m2,
                #[trigger] self.detection_locations@[i],
            ) by {
                assert(detection_locations_sound(m, self.detection_locations@[i]));
            }
            assert forall|c: int| 0 <= c < self.collections@.len() implies located_sound(
                m2,
                self.collections@[c].location_per_cell_group_id@,
                #[trigger] self.located@[c]@,
            ) by {
                assert(located_sound(m, self.collections@[c].location_per_cell_group_id@, self.located@[c]@));
            }
        }
        reduced
    }
}

/// `m` with its dependencies grouped as `groups`.
spec fn with_groups(m: ManagerModel, groups: Seq<(u64, Seq<DependencyModel>)>) -> ManagerModel {
    ManagerModel { dependency_groups: groups, ..m }
}

/// `cur` holds the groups of `m` in order, each as it was or with its dependencies reduced.
spec fn partially_validated(m: ManagerModel, cur: Seq<(u64, Seq<DependencyModel>)>) -> bool {
    &&& cur.len() == m.dependency_groups.len()
    &&& forall|j: int|
        0 <= j < cur.len() ==> (#[trigger] cur[j]).0 == m.dependency_groups[j].0 && (cur[j].1
            == m.dependency_groups[j].1 || (m.cell_groups.contains_key(cur[j].0) && cur[j].1
            == reduced_dependencies(m, cur[j].0, m.dependency_groups[j].1)))
}

/// One reduction step of cell group `id`, whose group is `cur[j0]`.
proof fn lemma_reduce_step(m: ManagerModel, cur: Seq<(u64, Seq<DependencyModel>)>, id: u64, j0: int)
    requires
        partially_validated(m, cur),
        keys_unique(cur),
        0 <= j0 < cur.len(),
        cur[j0].0 == id,
        m.cell_groups.contains_key(id),
    ensures
        ({
            let next = cur.update(j0, (id, reduced_dependencies(m, id, cur[j0].1)));
            &&& reduce_group(with_groups(m, cur), id) == with_groups(m, next)
            &&& partially_validated(m, next)
            &&& keys_unique(next)
            &&& reducible(with_groups(m, cur), id, group_dependencies(cur, id)) == reducible(m, id, cur[j0].1)
            &&& !reducible(m, id, cur[j0].1) ==> next == cur
            &&& groups_size(next) <= groups_size(cur)
            &&& reducible(m, id, cur[j0].1) ==> groups_size(next) < groups_size(cur)
            &&& !reducible(m, id, next[j0].1)
        }),
{
    let m1 = with_groups(m, cur);
    let ds = cur[j0].1;
    let r = reduced_dependencies(m, id, ds);
    let next = cur.update(j0, (id, r));
    lemma_group_dependencies(cur, j0);
    assert forall|j: int| 0 <= j < cur.len() && cur[j].0 == id implies j == j0 by {}
    assert forall|j: int| 0 <= j < cur.len() implies #[trigger] reduce_group(m1, id).dependency_groups[j] == next[j] by {
        if j == j0 {
            lemma_reduction_congruence(m1, m, id, ds);
        }
    }
    assert(reduce_group(m1, id).dependency_groups =~= next);
    lemma_reduction_congruence(m1, m, id, ds);
    lemma_reduction_steps(m, id, ds);
    lemma_reduction_steps(m, id, r);
    let orig = m.dependency_groups[j0].1;
    lemma_reduction_steps(m, id, orig);
    assert forall|j: int| 0 <= j < next.len() implies (#[trigger] next[j]).0 == m.dependency_groups[j].0 && (next[j].1
        == m.dependency_groups[j].1 || (m.cell_groups.contains_key(next[j].0) && next[j].1
        == reduced_dependencies(m, next[j].0, m.dependency_groups[j].1))) by {
        if j != j0 {
            assert(next[j] == cur[j]);
        } else {
            assert(cur[j0].0 == m.dependency_groups[j0].0);
        }
    }
    assert(keys_unique(next)) by {
        assert forall|a: int, b: int| 0 <= a < next.len() && 0 <= b < next.len() && a != b implies next[a].0 != next[b].0 by {
            assert(next[a].0 == cur[a].0);
            assert(next[b].0 == cur[b].0);
        }
    }
    if !reducible(m, id, ds) {
        assert(next =~= cur);
    }
    lemma_groups_size_update(cur, j0, (id, r));
}

impl CellGroupManager {
    /// Reduces the dependencies of every cell group until no reduction removes anything, and
    /// returns all remaining dependencies, group after group: these are the only valid
    /// combinations.
    pub fn get_validated_cell_group_location_dependencies(&mut self) -> (validated_dependencies: Vec<
        CellGroupLocationDependency,
    >)
        requires
            old(self).wf(),
            forall|id: u64| #[trigger]
                old(self)@.cell_groups.contains_key(id) ==> old(self)@.adjacency.contains_key(id),
        ensures
            final(self).wf(),
            dependencies_consistent(final(self)@),
            final(self)@ == validated_model(old(self)@),
            final(self).overlap_cache() == old(self).overlap_cache(),
            final(self).detection_cache() == old(self).detection_cache(),
            final(self).located_cache() == old(self).located_cache(),
            dependency_models(validated_dependencies@) == all_dependencies(final(self)@.dependency_groups),
    {
        let ghost m0 = self@;
        let ghost overlaps0 = self.overlap_cache();
        let ghost detection0 = self.detection_cache();
        let ghost located0 = self.located_cache();

        // cache cell group IDs
        let cell_group_ids = cell_group_ids_of(&self.cell_groups);
        proof {
            assert forall|id: u64| #[trigger] m0.cell_groups.contains_key(id) implies exists|k: int|
                0 <= k < cell_group_ids@.len() && cell_group_ids@[k] == id by {
                lemma_cell_group_stored(self.cell_groups@, id);
                let g = choose|g: int| 0 <= g < self.cell_groups@.len() && self.cell_groups@[g].id == id;
                assert(cell_group_ids@[g] == self.cell_groups@[g].id);
            }
            assert forall|k: int| 0 <= k < cell_group_ids@.len() implies m0.cell_groups.contains_key(
                #[trigger] cell_group_ids@[k],
            ) by {
                assert(cell_group_ids@[k] == self.cell_groups@[k].id);
                lemma_stored_cell_group(self.cell_groups@, k);
            }
            assert(partially_validated(m0, m0.dependency_groups));
            assert(with_groups(m0, m0.dependency_groups) == m0);
        }

        let mut is_at_least_one_cell_group_location_dependency_reduced = true;
        while is_at_least_one_cell_group_location_dependency_reduced
            invariant
                self.wf(),
                self@ == with_groups(m0, self@.dependency_groups),
                partially_validated(m0, self@.dependency_groups),
                self.overlap_cache() == overlaps0,
                self.detection_cache() == detection0,
                self.located_cache() == located0,
                forall|id: u64| #[trigger] m0.cell_groups.contains_key(id) ==> m0.adjacency.contains_key(id),
                forall|id: u64| #[trigger] m0.cell_groups.contains_key(id) ==> exists|k: int|
                    0 <= k < cell_group_ids@.len() && cell_group_ids@[k] == id,
                forall|k: int| 0 <= k < cell_group_ids@.len() ==> m0.cell_groups.contains_key(
                    #[trigger] cell_group_ids@[k],
                ),
                !is_at_least_one_cell_group_location_dependency_reduced ==> forall|j: int|
                    0 <= j < self@.dependency_groups.len() && m0.cell_groups.contains_key(
                        self@.dependency_groups[j].0,
                    ) ==> !reducible(m0, self@.dependency_groups[j].0, #[trigger] self@.dependency_groups[j].1),
            decreases groups_size(self@.dependency_groups) + if is_at_least_one_cell_group_location_dependency_reduced {
                1nat
            } else {
                0nat
            },
        {
            let ghost size0 = groups_size(self@.dependency_groups);
            is_at_least_one_cell_group_location_dependency_reduced = false;
            let mut idx: usize = 0;
            while idx < cell_group_ids.len()
                invariant
                    idx <= cell_group_ids@.len(),
                    self.wf(),
                    self.overlap_cache() == overlaps0,
                    self.detection_cache() == detection0,
                    self.located_cache() == located0,
                    self@ == with_groups(m0, self@.dependency_groups),
                    partially_validated(m0, self@.dependency_groups),
                    forall|id: u64| #[trigger] m0.cell_groups.contains_key(id) ==> m0.adjacency.contains_key(id),
                    forall|k: int| 0 <= k < cell_group_ids@.len() ==> m0.cell_groups.contains_key(
                        #[trigger] cell_group_ids@[k],
                    ),
                    groups_size(self@.dependency_groups) <= size0,
                    is_at_least_one_cell_group_location_dependency_reduced ==> groups_size(self@.dependency_groups) < size0,
                    !is_at_least_one_cell_group_location_dependency_reduced ==> forall|j: int|
                        0 <= j < self@.dependency_groups.len() && (exists|k: int|
                            0 <= k < idx && cell_group_ids@[k] == self@.dependency_groups[j].0)
                            ==> !reducible(m0, self@.dependency_groups[j].0, #[trigger] self@.dependency_groups[j].1),
                decreases cell_group_ids@.len() - idx,
            {
                let cell_group_id = cell_group_ids[idx];
                let ghost cur = self@.dependency_groups;
                proof {
                    assert(m0.cell_groups.contains_key(cell_group_ids@[idx as int]));
                }
                proof {
                    assert(dependencies_consistent(self@));
                    assert(self@.cell_groups.contains_key(cell_group_id));
                }
                let ghost j0 = choose|j: int| 0 <= j < cur.len() && cur[j].0 == cell_group_id;
                proof {
                    lemma_reduce_step(m0, cur, cell_group_id, j0);
                }
                let is_cell_group_location_dependency_reduced = self.try_reduce_cell_group_location_dependency_for_cell_group(
                    cell_group_id,
                );
                if is_cell_group_location_dependency_reduced {
                    is_at_least_one_cell_group_location_dependency_reduced = true;
                }
                proof {
                    let next = self@.dependency_groups;
                    assert(next == cur.update(j0, (cell_group_id, reduced_dependencies(m0, cell_group_id, cur[j0].1))));
                    if !is_at_least_one_cell_group_location_dependency_reduced {
                        assert(next == cur);
                        assert forall|j: int|
                            0 <= j < next.len() && (exists|k: int|
                                0 <= k < idx + 1 && cell_group_ids@[k] == next[j].0)
                            implies !reducible(m0, next[j].0, #[trigger] next[j].1) by {
                            let k = choose|k: int| 0 <= k < idx + 1 && cell_group_ids@[k] == next[j].0;
                            if k == idx {
                                assert(j == j0);
                            }
                        }
                    }
                }
                idx = idx + 1;
            }
            proof {
                if !is_at_least_one_cell_group_location_dependency_reduced {
                    let cur = self@.dependency_groups;
                    assert forall|j: int|
                        0 <= j < cur.len() && m0.cell_groups.contains_key(cur[j].0)
                        implies !reducible(m0, cur[j].0, #[trigger] cur[j].1) by {
                        let k = choose|k: int| 0 <= k < cell_group_ids@.len() && cell_group_ids@[k] == cur[j].0;
                    }
                }
            }
        }

        // at this point the existing dependent cell group location collections are the only
        // valid combinations
        proof {
            let cur = self@.dependency_groups;
            let v = validated_model(m0);
            assert forall|j: int| 0 <= j < cur.len() implies #[trigger] cur[j] == v.dependency_groups[j] by {
                let orig = m0.dependency_groups[j].1;
                if m0.cell_groups.contains_key(cur[j].0) {
                    lemma_reduction_steps(m0, cur[j].0, orig);
                    assert(!reducible(m0, cur[j].0, cur[j].1));
                }
            }
            assert(cur =~= v.dependency_groups);
            assert(self@ == v);
        }

        let mut validated_dependencies: Vec<CellGroupLocationDependency> = Vec::new();
        let mut j: usize = 0;
        while j < self.dependency_groups.len()
            invariant
                j <= self.dependency_groups@.len(),
                dependency_models(validated_dependencies@) == all_dependencies(
                    dependency_group_models(self.dependency_groups@).take(j as int),
                ),
            decreases self.dependency_groups@.len() - j,
        {
            let dependencies = &self.dependency_groups[j].1;
            let ghost start = dependency_models(validated_dependencies@);
            let mut k: usize = 0;
            while k < dependencies.len()
                invariant
                    k <= dependencies@.len(),
                    dependency_models(validated_dependencies@) == start + dependency_models(dependencies@).take(k as int),
                decreases dependencies@.len() - k,
            {
                let copy = dependencies[k].clone();
                assert(copy@ == dependencies@[k as int]@);
                let ghost prev = validated_dependencies@;
                validated_dependencies.push(copy);
                assert(dependency_models(validated_dependencies@) =~= dependency_models(prev).push(copy@));
                assert(dependency_models(dependencies@).take(k + 1) =~= dependency_models(dependencies@).take(
                    k as int,
                ).push(copy@));
                k = k + 1;
                assert(dependency_models(validated_dependencies@) =~= start + dependency_models(dependencies@).take(k as int));
            }
            let ghost gs = dependency_group_models(self.dependency_groups@);
            assert(gs.take(j + 1).drop_last() =~= gs.take(j as int));
            assert(dependency_models(dependencies@).take(dependencies@.len() as int) =~= gs[j as int].1);
            j = j + 1;
        }
        assert(dependency_group_models(self.dependency_groups@).take(self.dependency_groups@.len() as int)
            =~= dependency_group_models(self.dependency_groups@));
        validated_dependencies
    }
}

} // verus!
