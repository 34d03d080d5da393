//! In-place patching of Godot resource archives ("PCK" containers).
//!
//! The archive is handled as a byte image. The codec reads and writes the
//! fixed header and the entry records, the entry index keeps the records
//! by path and by table position, and the mutator replaces, adds and
//! deletes entries while keeping the entry table below the packed data.
pub mod error;
pub mod codec;
pub mod digest;
pub mod index;
pub mod channel;
pub mod table;
pub mod planner;
pub mod mutator;
pub mod text;
pub mod steam;
pub mod registry;
pub mod laws;
