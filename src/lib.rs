//! A persistent, growable array of fixed-size records stored in one file.
//!
//! The file starts with a fixed header (format identity, byte-order marker,
//! versions, a template record and the padding length), is padded to a page
//! boundary, and continues with the records back to back. This crate holds
//! the byte-exact header codec, the checks made when a file is opened, and
//! the arithmetic of the record body, each with a proved contract. Opening,
//! locking and mapping the file are left to the caller, which hands the
//! mapped bytes in as a slice.

pub mod array;
pub mod header;
pub mod laws;
pub mod open;

pub use array::{
    get_record, grown_len, record_count, records_start, set_record, store_appended,
    truncate_target, AccessError,
};
pub use header::{
    encode_header, encode_u16, order_of_marker, padding_for, validate_header, ByteOrder,
    HeaderCorrupt, HeaderReport, ENDIANNESS_MARKER, HEADER_OVERHEAD, PAGE_SIZE,
};
pub use open::{check_existing, plan_open, OpenError, OpenPlan, OpenedFile};
