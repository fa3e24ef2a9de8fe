pub mod digest;
pub mod scale;
pub mod types;
pub mod hex;
