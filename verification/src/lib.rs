//! Range-compressed index over HEALPix cell identifiers.
//!
//! A [`index::RangeMOCIndex`] stores a sparse subset of the cell identifiers
//! at a fixed resolution (`depth`, 0 to 29) as a sorted list of disjoint
//! half-open ranges over the canonical depth-29 identifier space.  The index
//! lets callers address its cells either by *position* (as in a flat, sorted
//! array of cell ids) or by *label* (the cell id itself), and translates
//! region coverages into position slices.  The compressed range set itself is
//! managed by the `moc` crate; its operations enter the library through the
//! trusted boundary in [`interval_set`].

pub mod errors;
pub mod hierarchy;
pub mod index;
pub mod interval_set;
pub mod range_model;
pub mod slice_objects;
pub mod state_format;
