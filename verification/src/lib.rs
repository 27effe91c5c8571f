//! Core of a cross-process memory inspector: a typed result store with
//! scan, filter and refresh passes over byte buffers, host-order value
//! codecs, address labels, and a progress counter. All process I/O and
//! terminal work lives outside this crate; the functions here take plain
//! byte buffers and read results as arguments.

pub mod codec;
pub mod labels;
pub mod passes;
pub mod rows;
pub mod state;
pub mod store;
pub mod tag;
pub mod text;

pub use rows::{MemoryIterator, Row};
pub use state::{AppState, EditState, Progress};
pub use store::{Location, Memory};
pub use tag::Datatype;
