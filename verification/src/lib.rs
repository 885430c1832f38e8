//! Core logic of a folder-walking media manager: classifying a directory's
//! children into subfolder/image/video pools, resolving representative
//! thumbnails, randomly walking a pool without repeats, and keeping a small
//! favorites store.

pub mod catalog;
pub mod classify;
pub mod open;
pub mod prefs;
pub mod rng;
pub mod strutil;
pub mod thumbnail;
