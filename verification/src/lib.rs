//! Shape, ordering and selection rules of an embedding-similarity
//! calibration pipeline, stated and proved over plain integers and
//! sequences.

pub mod baseline;
pub mod batch;
pub mod error;
pub mod order;
pub mod shape;
