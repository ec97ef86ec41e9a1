pub mod key;
pub mod laws;
pub mod pangram;
pub mod hashmap;
pub mod sorting;
pub mod vector;
