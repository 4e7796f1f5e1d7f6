pub mod cell_group_manager;
pub mod shifter;
