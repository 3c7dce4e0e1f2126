pub mod data_structures;
pub mod utils;
