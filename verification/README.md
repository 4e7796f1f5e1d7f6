# cell_groups

Cell groups placed on a grid, collections that arrange them, and dependencies that say which
collections must stay possible for a cell group to be at a location. A `CellGroupManager`
builds lookups and caches from these inputs once, then reduces each dependency to the
collections that are possible: none of the placed cells may lie on the cell group or on a
location where it detects their type, and a cell group expected to be adjacent must touch it.
A dependency left with no possible collection is removed.

Layout of `src/`:

- `cell_group_manager/model.rs`: the mathematical model (lookups, detection, possibility,
  reduction) that all contracts are stated over.
- `cell_group_manager/mod.rs`: the input types and their views.
- `cell_group_manager/lookups.rs`, `caches.rs`: building the lookups and caches, each proved
  to hold exactly what the model says.
- `cell_group_manager/manager.rs`: `CellGroupManager::new`, the reduction of one cell group's
  dependencies, and the validation of all of them.
- `cell_group_manager/lemmas.rs`, `laws.rs`: supporting proofs and the laws of the library.
- `shifter/mod.rs`: `ShiftedElement`.

Everything in `src/` is verified with Verus; `tests/` exercises it on concrete values.
