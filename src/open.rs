use vstd::prelude::*;
use crate::header::{
    body_start, encode_header, header_bytes, header_size, header_verdict, record_size_ok,
    validate_header, ByteOrder, HeaderCorrupt, HeaderReport, HEADER_OVERHEAD,
};

verus! {

/// Why an existing file cannot be opened as an array of the expected kind.
#[derive(Clone, Copy, Debug, PartialEq, Eq, Structural)]
pub enum OpenError {
    /// The header is short or does not match.
    Header(HeaderCorrupt),
    /// The bytes after the header and padding are not whole records.
    BodySizeMismatch,
}

/// What to do with a freshly opened and locked file, given its length.
#[derive(Debug)]
pub enum OpenPlan {
    /// The file is empty: write `header` at its start, then set its length to `file_len`.
    Initialize { header: Vec<u8>, file_len: u64 },
    /// The file has content: read its first `header_len` bytes and check them.
    ReadHeader { header_len: usize },
}

/// An existing file that passed every check.
#[derive(Clone, Copy, Debug, PartialEq, Eq, Structural)]
pub struct OpenedFile {
    pub report: HeaderReport,
    /// Number of records in the body.
    pub records: u64,
}

/// What opening decides for an existing file of `file_len` bytes that starts with `header`.
pub open spec fn existing_verdict(
    file_len: nat,
    header: Seq<u8>,
    magic: Seq<u8>,
    data_version: Seq<u8>,
    record_size: nat,
    order: ByteOrder,
) -> Result<OpenedFile, OpenError> {
    if file_len < header_size(record_size) {
        Err(OpenError::Header(HeaderCorrupt::Truncated))
    } else {
        match header_verdict(header, magic, data_version, record_size, order) {
            Err(e) => Err(OpenError::Header(e)),
            Ok(report) => {
                if file_len < body_start(record_size) || (file_len - body_start(record_size))
                    % (record_size as int) != 0 {
                    Err(OpenError::BodySizeMismatch)
                } else {
                    Ok(
                        OpenedFile {
                            report,
                            records: ((file_len - body_start(record_size)) / (
                            record_size as int)) as u64,
                        },
                    )
                }
            },
        }
    }
}

/// Decides, from the length of a file just opened, whether to lay down a new
/// header or to read the one that is there.
pub fn plan_open(
    file_len: u64,
    magic: [u8; 8],
    data_version: [u8; 3],
    default_record: &[u8],
    order: ByteOrder,
) -> (r: Result<OpenPlan, OpenError>)
    requires
        record_size_ok(default_record@.len()),
    ensures
        file_len == 0 ==> match r {
            Ok(OpenPlan::Initialize { header, file_len: n }) => header@ == header_bytes(
                magic@,
                data_version@,
                default_record@,
                order,
            ) && n == body_start(default_record@.len()),
            _ => false,
        },
        0 < file_len < header_size(default_record@.len()) ==> r == Err::<OpenPlan, OpenError>(
            OpenError::Header(HeaderCorrupt::Truncated),
        ),
        file_len >= header_size(default_record@.len()) ==> match r {
            Ok(OpenPlan::ReadHeader { header_len }) => header_len == header_size(
                default_record@.len(),
            ),
            _ => false,
        },
{
    let size = HEADER_OVERHEAD + default_record.len();
    if file_len == 0 {
        let header = encode_header(magic, data_version, default_record, order);
        let padding = crate::header::padding_for(size);
        Ok(OpenPlan::Initialize { header, file_len: size as u64 + padding as u64 })
    } else if file_len < size as u64 {
        Err(OpenError::Header(HeaderCorrupt::Truncated))
    } else {
        Ok(OpenPlan::ReadHeader { header_len: size })
    }
}

/// Checks an existing file of `file_len` bytes whose first bytes are `header`,
/// and counts its records.
pub fn check_existing(
    file_len: u64,
    header: &[u8],
    magic: [u8; 8],
    data_version: [u8; 3],
    record_size: usize,
    order: ByteOrder,
) -> (r: Result<OpenedFile, OpenError>)
    requires
        record_size_ok(record_size as nat),
    ensures
        r == existing_verdict(
            file_len as nat,
            header@,
            magic@,
            data_version@,
            record_size as nat,
            order,
        ),
{
    let size = HEADER_OVERHEAD + record_size;
    if file_len < size as u64 {
        return Err(OpenError::Header(HeaderCorrupt::Truncated));
    }
    let report = match validate_header(header, magic, data_version, record_size, order) {
        Ok(report) => report,
        Err(e) => return Err(OpenError::Header(e)),
    };
    let start = size as u64 + crate::header::padding_for(size) as u64;
    if file_len < start || (file_len - start) % (record_size as u64) != 0 {
        return Err(OpenError::BodySizeMismatch);
    }
    Ok(OpenedFile { report, records: (file_len - start) / (record_size as u64) })
}

} // verus!
