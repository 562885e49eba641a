//! Index of the benchmark results that `cargo criterion` leaves on disk.
//!
//! The tool writes one directory per benchmark below
//! `<root>/target/criterion/data/main`. Each such directory holds one
//! `benchmark.cbor` metadata record and one `measurement_<stamp>.cbor` record
//! per run. This library turns the ordered stream of directory entries into
//! benchmark units, decodes the loosely specified benchmark identifiers, and
//! plans the updates that keep a relational cache in step with the tree.
//!
//! Everything here is pure: reading directories, files and the database is
//! left to the caller, who hands over plain values.
//!
//! - [`search`] says where the data lies and starts a walk over it.
//! - [`entry`] holds the entries that a walk meets and the order in which it
//!   must meet them; [`walk`] groups them into the units of [`unit`].
//! - [`identity`] reads the identifier in a metadata record; [`record`] checks
//!   what else the records promise.
//! - [`sync`] plans a pass that brings the cache up to date.
//! - [`walk_laws`] and [`sync_laws`] state what holds of every walk and every
//!   pass.
//! - [`stamp`], [`text`] and [`path`] hold what the others share.

pub mod entry;
pub mod identity;
pub mod path;
pub mod record;
pub mod search;
pub mod stamp;
pub mod sync;
pub mod sync_laws;
pub mod text;
pub mod unit;
pub mod walk;
pub mod walk_laws;

pub use entry::{walk_order, DirectoryEntry, EntryKind};
pub use identity::{BenchmarkId, MemberId, PathMismatch, RawBenchmarkId};
pub use record::{BenchmarkMetadata, ChangeDirection, MeasurementShape, ShapeFault};
pub use search::{DataDirectory, FilteredIter, FilteredStep, Search};
pub use stamp::{parse_measurement_datetime, LocalStamp, ModTime};
pub use sync::{CacheIndex, MetadataAction, Observation, SchemaError, UnitPlan};
pub use text::{compare_names, make_filename_safe, NameOrder};
pub use unit::{Benchmark, LayoutViolation, Measurement, ViolationKind};
pub use walk::{group_entries, BenchmarkIter, WalkError, WalkEvent, WalkItem};
