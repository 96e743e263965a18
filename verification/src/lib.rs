//! Locating kernel structures (banner, kallsyms tables, KASLR slide) inside
//! raw Linux memory images.
pub mod bytes;
pub mod error;
pub mod search;
pub mod text;
pub mod utils;
pub mod image;
pub mod banner;
pub mod kallsyms;
pub mod kaslr;
