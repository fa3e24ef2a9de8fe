pub mod keys;
pub mod ordered_map;
pub mod ordered_set;
pub mod sorted_map;
