//! The slice store: what a slice looks like on disk, what the index knows about an object, and
//! how much room there is.
pub mod hybrid;
pub mod index;
pub mod slice;
pub mod space;

