//! Hexagonal cell arithmetic in cube coordinates, the spiral layout of the
//! launcher's cells, the order in which launcher entries are shown, and the
//! choice of model that stands for an application's icon.

pub mod hex;
pub mod launcher;
pub mod model;
pub mod laws;
