pub mod names;
pub mod order;
pub mod sorting;
pub mod registry;
pub mod monitor;
pub mod tracker;
pub mod accountant;
pub mod icons;
