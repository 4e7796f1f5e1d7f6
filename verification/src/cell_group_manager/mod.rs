//! Cell groups placed on a grid, collections of their placements, and the dependencies
//! between a cell group's location and the collections that must stay possible.
pub mod laws;
pub mod lemmas;
mod caches;
mod lookups;
mod manager;
pub mod model;

pub use manager::{dependencies_consistent, CellGroupManager};

use vstd::prelude::*;
use self::model::{CellGroupModel, CollectionModel, DependencyModel};

verus! {

/// A cell group: its identifier, the cells it covers relative to the location it is placed
/// at, and its type (each pair of types has its own detection offsets).
pub struct CellGroup {
    pub id: u64,
    pub cells: Vec<(i32, i32)>,
    pub cell_group_type: u64,
}

impl View for CellGroup {
    type V = CellGroupModel;

    open spec fn view(&self) -> CellGroupModel {
        CellGroupModel { id: self.id, cells: self.cells@, cell_group_type: self.cell_group_type }
    }
}

/// A specific arrangement of cell groups: the location of each cell group it places.
pub struct CellGroupLocationCollection {
    pub id: u64,
    pub location_per_cell_group_id: Vec<(u64, (i32, i32))>,
}

impl View for CellGroupLocationCollection {
    type V = CollectionModel;

    open spec fn view(&self) -> CollectionModel {
        CollectionModel { id: self.id, placements: self.location_per_cell_group_id@ }
    }
}

/// "This" cell group location has "these" cell group location collections as dependencies,
/// such that if being at that location makes all of them invalid, then that location must be
/// invalid.
pub struct CellGroupLocationDependency {
    pub cell_group_id: u64,
    pub location: (i32, i32),
    pub cell_group_location_collections: Vec<u64>,
}

impl View for CellGroupLocationDependency {
    type V = DependencyModel;

    open spec fn view(&self) -> DependencyModel {
        DependencyModel {
            cell_group_id: self.cell_group_id,
            location: self.location,
            collections: self.cell_group_location_collections@,
        }
    }
}

impl Clone for CellGroupLocationDependency {
    /// A copy with the same cell group, location and collections.
    fn clone(&self) -> (copy: Self)
        ensures
            copy@ == self@,
    {
        CellGroupLocationDependency {
            cell_group_id: self.cell_group_id,
            location: self.location,
            cell_group_location_collections: self.cell_group_location_collections.clone(),
        }
    }
}

/// The models of a list of cell groups.
pub open spec fn cell_group_models(v: Seq<CellGroup>) -> Seq<CellGroupModel> {
    v.map_values(|g: CellGroup| g@)
}

/// The models of a list of collections.
pub open spec fn collection_models(v: Seq<CellGroupLocationCollection>) -> Seq<CollectionModel> {
    v.map_values(|c: CellGroupLocationCollection| c@)
}

/// The models of a list of dependencies.
pub open spec fn dependency_models(v: Seq<CellGroupLocationDependency>) -> Seq<DependencyModel> {
    v.map_values(|d: CellGroupLocationDependency| d@)
}

/// The models of a list of detection offsets per pair of cell group types.
pub open spec fn detection_offset_models(v: Seq<((u64, u64), Vec<(i32, i32)>)>) -> Seq<
    ((u64, u64), Seq<(i32, i32)>),
> {
    v.map_values(|e: ((u64, u64), Vec<(i32, i32)>)| (e.0, e.1@))
}

/// An arrangement of cell groups that has no identifier of its own.
pub struct AnonymousCellGroupLocationCollection {
    pub location_per_cell_group_id: Vec<(u64, (i32, i32))>,
}

} // verus!
