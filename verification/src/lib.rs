//! Miscellaneous small utilities: flag-delimited text segmentation and
//! joining, helpers over vectors of strings, parsing of terminal responses,
//! and a random-element picker.

pub mod input_utilities;
pub mod utilities;
pub mod vec_utils;
