//! Core of a triangle-mesh compression codec: a typed attribute store with a
//! dependency DAG, a delta prediction scheme that classifies which values can
//! be predicted from mesh connectivity, and a bit-exact CLERS symbol codec
//! with two prefix-code variants.

pub mod bits;
pub mod buffer;
pub mod attribute;
pub mod delta;
pub mod symbol;
