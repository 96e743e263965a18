//! Memory images: what a scanner can ask of one, and an image held in memory.
pub mod raw;
pub mod traits;
