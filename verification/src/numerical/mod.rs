//! The linear system `A x = b`: scalars and compressed-row storage.

pub mod complex;
pub mod equations;
pub mod laws;

pub use complex::c64;
