pub mod intset;

pub use intset::IntSet;
