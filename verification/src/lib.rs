//! A codec for DMAP, a self-describing binary container of named scalars and
//! multi-dimensional arrays.
//!
//! Every executable function of this crate carries a contract over a
//! mathematical model of the wire format, and Verus proves the body against it.

pub mod bytes;
pub mod decode;
pub mod error;
pub mod fitting;
pub mod grammar;
pub mod laws;
pub mod lemmas;
pub mod model;
pub mod names;
pub mod record;
pub mod trusted;
pub mod value;

pub use decode::{parse_array, parse_record, parse_scalar, read_data, read_records};
pub use error::{DmapError, ErrorKind, Fault};
pub use fitting::LagNode;
pub use model::{ArrayEntry, Record, ScalarEntry};
pub use names::NameMap;
pub use record::{
    try_write_records, write_records, DmapData, RawDmapArray, RawDmapRecord, RawDmapScalar,
};
pub use value::{DmapType, TypedValue};
