//! Pairing of RAW originals with developed images in one photo directory,
//! and the plan that moves the unpaired files aside.

pub mod photo;
pub mod names;
pub mod catalog;
pub mod resolver;
