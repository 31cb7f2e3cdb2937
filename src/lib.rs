pub mod data_structure;
pub mod sorting_algorithms;
pub mod supplementary;
