//! A format-string-driven scanner: the textual inverse of formatted printing.
//!
//! A pattern is a sequence of literal bytes interspersed with capture markers.
//! Scanning matches the literal bytes against an input byte stream, extracts
//! the bytes belonging to each capture, validates them as UTF-8 and converts
//! them to a caller-chosen type.  A scan either succeeds completely or stops
//! at the first point of disagreement with a structured [`Error`].

pub mod capture;
pub mod convert;
pub mod decode;
pub mod errors;
pub mod model;
pub mod scan;
pub mod stream;

pub use convert::FromText;
pub use errors::Error;
pub use scan::match_next;
pub use scan::parse_capture;
pub use scan::run_scan;
pub use stream::ByteStream;
