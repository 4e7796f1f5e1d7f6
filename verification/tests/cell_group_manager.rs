use cell_groups::cell_group_manager::{
    CellGroup, CellGroupLocationCollection, CellGroupLocationDependency, CellGroupManager,
};

fn cell_group(id: u64, cells: Vec<(i32, i32)>, cell_group_type: u64) -> CellGroup {
    CellGroup { id, cells, cell_group_type }
}

fn collection(id: u64, placements: Vec<(u64, (i32, i32))>) -> CellGroupLocationCollection {
    CellGroupLocationCollection { id, location_per_cell_group_id: placements }
}

fn dependency(cell_group_id: u64, location: (i32, i32), collections: Vec<u64>) -> CellGroupLocationDependency {
    CellGroupLocationDependency {
        cell_group_id,
        location,
        cell_group_location_collections: collections,
    }
}

fn summary(dependencies: &[CellGroupLocationDependency]) -> Vec<(u64, (i32, i32), Vec<u64>)> {
    dependencies
        .iter()
        .map(|d| (d.cell_group_id, d.location, d.cell_group_location_collections.clone()))
        .collect()
}

/// Two single-cell groups of different types, expected to be adjacent, each detecting the
/// other's type one step to the right.
fn two_group_manager() -> CellGroupManager {
    CellGroupManager::new(
        vec![cell_group(1, vec![(0, 0)], 10), cell_group(2, vec![(0, 0)], 20)],
        vec![
            // group 2 on a detection location of group 1 at (0, 0)
            collection(100, vec![(2, (1, 0))]),
            // group 2 touching group 1 at (0, 0) from above, outside its detection locations
            collection(101, vec![(2, (0, 1))]),
            // group 2 far away: not adjacent although adjacency is expected
            collection(102, vec![(2, (5, 5))]),
            // group 1 touching group 2 at (0, 1) from below
            collection(103, vec![(1, (0, 0))]),
            // group 1 on top of group 2 at (9, 9)
            collection(104, vec![(1, (9, 9))]),
        ],
        vec![((10, 20), vec![(1, 0)])],
        vec![(1, 2)],
        vec![
            dependency(1, (0, 0), vec![100, 101, 102]),
            dependency(2, (0, 1), vec![103]),
            dependency(1, (3, 3), vec![]),
            dependency(2, (9, 9), vec![104]),
        ],
    )
}

#[test]
fn validation_keeps_only_possible_collections() {
    let mut manager = two_group_manager();
    let validated = manager.get_validated_cell_group_location_dependencies();
    assert_eq!(
        summary(&validated),
        vec![(1, (0, 0), vec![101]), (1, (3, 3), vec![]), (2, (0, 1), vec![103])]
    );
}

#[test]
fn validation_is_idempotent() {
    let mut manager = two_group_manager();
    let first = manager.get_validated_cell_group_location_dependencies();
    let second = manager.get_validated_cell_group_location_dependencies();
    assert_eq!(summary(&first), summary(&second));
}

#[test]
fn reduction_reports_removals_once() {
    let mut manager = two_group_manager();
    assert!(manager.try_reduce_cell_group_location_dependency_for_cell_group(1));
    assert!(!manager.try_reduce_cell_group_location_dependency_for_cell_group(1));
    assert!(manager.try_reduce_cell_group_location_dependency_for_cell_group(2));
    assert!(!manager.try_reduce_cell_group_location_dependency_for_cell_group(2));
    let validated = manager.get_validated_cell_group_location_dependencies();
    assert_eq!(
        summary(&validated),
        vec![(1, (0, 0), vec![101]), (1, (3, 3), vec![]), (2, (0, 1), vec![103])]
    );
}

#[test]
fn reduction_of_one_cell_group_leaves_the_others() {
    let mut manager = two_group_manager();
    assert!(manager.try_reduce_cell_group_location_dependency_for_cell_group(2));
    let validated = manager.get_validated_cell_group_location_dependencies();
    assert_eq!(validated.len(), 3);
}

#[test]
fn dependency_without_collections_is_kept() {
    let mut manager = CellGroupManager::new(
        vec![cell_group(1, vec![(0, 0), (1, 0)], 10)],
        vec![],
        vec![((10, 20), vec![(0, 1)])],
        vec![(1, 1)],
        vec![dependency(1, (4, -4), vec![])],
    );
    assert!(!manager.try_reduce_cell_group_location_dependency_for_cell_group(1));
    let validated = manager.get_validated_cell_group_location_dependencies();
    assert_eq!(summary(&validated), vec![(1, (4, -4), vec![])]);
}

#[test]
fn dependency_with_only_impossible_collections_is_removed() {
    let mut manager = CellGroupManager::new(
        vec![cell_group(1, vec![(0, 0)], 10), cell_group(2, vec![(0, 0), (0, 1)], 20)],
        vec![
            // group 2 covering (0, 0): on top of group 1 at (0, 0)
            collection(7, vec![(2, (0, -1))]),
            // group 2 covering (2, 0): on a detection location of group 1 at (0, 0)
            collection(8, vec![(2, (2, 0))]),
        ],
        vec![((10, 20), vec![(2, 0)])],
        vec![(1, 2)],
        vec![dependency(1, (0, 0), vec![7, 8]), dependency(2, (7, 7), vec![])],
    );
    let validated = manager.get_validated_cell_group_location_dependencies();
    assert_eq!(summary(&validated), vec![(2, (7, 7), vec![])]);
}

#[test]
fn adjacency_is_required_only_where_expected() {
    // group 2 far from group 1 is possible, as they are not expected to be adjacent; group 3
    // is expected to be adjacent to group 2 and touches it
    let mut manager = CellGroupManager::new(
        vec![cell_group(1, vec![(0, 0)], 10), cell_group(2, vec![(0, 0)], 20), cell_group(3, vec![(0, 0)], 10)],
        vec![collection(50, vec![(2, (5, 5))])],
        vec![((10, 20), vec![(1, 0)])],
        vec![(1, 3), (2, 3)],
        vec![
            dependency(1, (0, 0), vec![50]),
            dependency(2, (5, 5), vec![]),
            dependency(3, (5, 4), vec![50]),
        ],
    );
    let validated = manager.get_validated_cell_group_location_dependencies();
    assert_eq!(
        summary(&validated),
        vec![(1, (0, 0), vec![50]), (2, (5, 5), vec![]), (3, (5, 4), vec![50])]
    );
}

#[test]
fn adjacency_counts_both_ways_round() {
    // the pair is given as (2, 1); group 1 must still touch group 2
    let mut manager = CellGroupManager::new(
        vec![cell_group(1, vec![(0, 0)], 10), cell_group(2, vec![(0, 0)], 20)],
        vec![collection(60, vec![(2, (0, 3))]), collection(61, vec![(2, (-1, 0))])],
        vec![((20, 10), vec![])],
        vec![(2, 1)],
        vec![dependency(1, (0, 0), vec![60, 61]), dependency(2, (0, 0), vec![])],
    );
    let validated = manager.get_validated_cell_group_location_dependencies();
    assert_eq!(summary(&validated), vec![(1, (0, 0), vec![61]), (2, (0, 0), vec![])]);
}

#[test]
fn detection_offsets_count_both_ways_round() {
    // offsets are given for (20, 10); group 1 of type 10 detects type 20 with them too
    let mut manager = CellGroupManager::new(
        vec![cell_group(1, vec![(0, 0)], 10), cell_group(2, vec![(0, 0)], 20)],
        vec![collection(70, vec![(2, (0, 2))]), collection(71, vec![(2, (0, -2))])],
        vec![((20, 10), vec![(0, 2)])],
        vec![(1, 1), (2, 2)],
        vec![dependency(1, (0, 0), vec![70, 71]), dependency(2, (0, 0), vec![])],
    );
    let validated = manager.get_validated_cell_group_location_dependencies();
    assert_eq!(summary(&validated), vec![(1, (0, 0), vec![71]), (2, (0, 0), vec![])]);
}

#[test]
fn later_cell_group_replaces_earlier_one_with_the_same_id() {
    // the first group 2 would cover (1, 0) and make collection 80 impossible; the second,
    // which replaces it, covers only (0, 0) placed at (0, 3)
    let mut manager = CellGroupManager::new(
        vec![
            cell_group(1, vec![(0, 0)], 10),
            cell_group(2, vec![(1, -3)], 20),
            cell_group(2, vec![(0, 0)], 20),
        ],
        vec![collection(80, vec![(2, (0, 3))])],
        vec![((10, 20), vec![])],
        vec![(1, 1), (2, 2)],
        vec![dependency(1, (1, 0), vec![80]), dependency(2, (0, 0), vec![])],
    );
    let validated = manager.get_validated_cell_group_location_dependencies();
    assert_eq!(summary(&validated), vec![(1, (1, 0), vec![80]), (2, (0, 0), vec![])]);
}

#[test]
fn later_collection_replaces_earlier_one_with_the_same_id() {
    // the first collection 90 would place group 2 on group 1; the second places it elsewhere
    let mut manager = CellGroupManager::new(
        vec![cell_group(1, vec![(0, 0)], 10), cell_group(2, vec![(0, 0)], 20)],
        vec![collection(90, vec![(2, (0, 0))]), collection(90, vec![(2, (4, 4))])],
        vec![((10, 20), vec![])],
        vec![(1, 1), (2, 2)],
        vec![dependency(1, (0, 0), vec![90]), dependency(2, (0, 0), vec![])],
    );
    let validated = manager.get_validated_cell_group_location_dependencies();
    assert_eq!(summary(&validated), vec![(1, (0, 0), vec![90]), (2, (0, 0), vec![])]);
}

#[test]
fn dependencies_are_grouped_by_cell_group_in_order() {
    let mut manager = CellGroupManager::new(
        vec![cell_group(1, vec![(0, 0)], 10), cell_group(2, vec![(0, 0)], 20)],
        vec![],
        vec![((10, 20), vec![])],
        vec![(1, 1), (2, 2)],
        vec![
            dependency(2, (0, 0), vec![]),
            dependency(1, (1, 1), vec![]),
            dependency(2, (2, 2), vec![]),
            dependency(1, (3, 3), vec![]),
        ],
    );
    let validated = manager.get_validated_cell_group_location_dependencies();
    assert_eq!(
        summary(&validated),
        vec![(2, (0, 0), vec![]), (2, (2, 2), vec![]), (1, (1, 1), vec![]), (1, (3, 3), vec![])]
    );
}

#[test]
fn cloned_dependency_is_equal() {
    let first = dependency(3, (-1, 2), vec![4, 5]);
    let copy = first.clone();
    assert_eq!(summary(&[copy]), summary(&[first]));
}

#[test]
fn empty_manager_validates_to_nothing() {
    let mut manager = CellGroupManager::new(vec![], vec![], vec![], vec![], vec![]);
    let validated = manager.get_validated_cell_group_location_dependencies();
    assert!(validated.is_empty());
}

#[test]
fn repeated_collections_are_judged_each_time() {
    let mut manager = two_group_manager();
    let mut other = CellGroupManager::new(
        vec![cell_group(1, vec![(0, 0)], 10), cell_group(2, vec![(0, 0)], 20)],
        vec![collection(100, vec![(2, (1, 0))]), collection(101, vec![(2, (0, 1))])],
        vec![((10, 20), vec![(1, 0)])],
        vec![(1, 2)],
        vec![dependency(1, (0, 0), vec![101, 100, 101]), dependency(2, (0, 0), vec![])],
    );
    let validated = other.get_validated_cell_group_location_dependencies();
    assert_eq!(summary(&validated), vec![(1, (0, 0), vec![101, 101]), (2, (0, 0), vec![])]);
    assert_eq!(manager.get_validated_cell_group_location_dependencies().len(), 3);
}

#[test]
fn dependencies_of_unknown_cell_groups_are_returned_unchanged() {
    // cell group 9 does not exist; its dependency is never reduced, even though group 1 would
    // lie on group 2 in collection 5
    let mut manager = CellGroupManager::new(
        vec![cell_group(1, vec![(0, 0)], 10), cell_group(2, vec![(0, 0)], 20)],
        vec![collection(5, vec![(1, (0, 0)), (2, (0, 0))])],
        vec![((10, 20), vec![])],
        vec![(1, 2)],
        vec![dependency(9, (0, 0), vec![5]), dependency(1, (8, 8), vec![]), dependency(2, (6, 6), vec![])],
    );
    let validated = manager.get_validated_cell_group_location_dependencies();
    assert_eq!(
        summary(&validated),
        vec![(9, (0, 0), vec![5]), (1, (8, 8), vec![]), (2, (6, 6), vec![])]
    );
}

#[test]
fn detection_covers_every_cell_moved_by_every_offset() {
    // group 1 covers (0, 0) and (0, 1) and detects type 20 one and two steps to the left of
    // each of its cells; placed at (10, -5) it detects (9, -5), (8, -5), (9, -4) and (8, -4)
    let placements = vec![(8, -5), (9, -4), (7, -4), (8, -3), (11, -5)];
    let mut manager = CellGroupManager::new(
        vec![cell_group(1, vec![(0, 0), (0, 1)], 10), cell_group(2, vec![(0, 0)], 20)],
        placements
            .iter()
            .enumerate()
            .map(|(i, at)| collection(200 + i as u64, vec![(2, *at)]))
            .collect(),
        vec![((10, 20), vec![(-1, 0), (-2, 0)])],
        vec![(1, 1), (2, 2)],
        vec![dependency(1, (10, -5), vec![200, 201, 202, 203, 204]), dependency(2, (0, 0), vec![])],
    );
    let validated = manager.get_validated_cell_group_location_dependencies();
    assert_eq!(
        summary(&validated),
        vec![(1, (10, -5), vec![202, 203, 204]), (2, (0, 0), vec![])]
    );
}
