use vstd::prelude::*;
use crate::header::{
    body_start, format_version, header_bytes, header_size, record_size_ok, u16_bytes, ByteOrder, HeaderCorrupt,
    HeaderReport, ENDIANNESS_MARKER,
};
use crate::open::{existing_verdict, OpenError, OpenedFile};

verus! {

/// `header` with its byte-order marker replaced by `marker`.
pub open spec fn with_marker(header: Seq<u8>, marker: Seq<u8>) -> Seq<u8> {
    header.subrange(0, 8) + marker + header.subrange(10, header.len() as int)
}

proof fn lemma_header_fields(
    magic: Seq<u8>,
    data_version: Seq<u8>,
    record: Seq<u8>,
    order: ByteOrder,
)
    requires
        magic.len() == 8,
        data_version.len() == 3,
    ensures
        header_bytes(magic, data_version, record, order).len() == header_size(record.len()),
        header_bytes(magic, data_version, record, order).subrange(0, 8) == magic,
        header_bytes(magic, data_version, record, order).subrange(8, 10) == u16_bytes(
            ENDIANNESS_MARKER,
            order,
        ),
        header_bytes(magic, data_version, record, order).subrange(10, 13) == format_version(),
        header_bytes(magic, data_version, record, order).subrange(13, 16) == data_version,
{
    let h = header_bytes(magic, data_version, record, order);
    assert(h.subrange(0, 8) =~= magic);
    assert(h.subrange(8, 10) =~= u16_bytes(ENDIANNESS_MARKER, order));
    assert(h.subrange(10, 13) =~= format_version());
    assert(h.subrange(13, 16) =~= data_version);
}

/// A file just laid down for a schema reopens under the same schema, with
/// matching versions and no records.
pub proof fn lemma_new_file_reopens_empty(
    magic: Seq<u8>,
    data_version: Seq<u8>,
    record: Seq<u8>,
    order: ByteOrder,
)
    requires
        magic.len() == 8,
        data_version.len() == 3,
        record_size_ok(record.len()),
    ensures
        existing_verdict(
            body_start(record.len()),
            header_bytes(magic, data_version, record, order),
            magic,
            data_version,
            record.len(),
            order,
        ) == Ok::<OpenedFile, OpenError>(
            OpenedFile {
                report: HeaderReport { format_version_matches: true, data_version_matches: true },
                records: 0,
            },
        ),
{
    lemma_header_fields(magic, data_version, record, order);
    let rs = record.len() as int;
    assert(0int % rs == 0 && 0int / rs == 0);
}

/// Changing any byte of the magic tag makes reopening fail with `MagicMismatch`.
pub proof fn lemma_magic_change_detected(
    magic: Seq<u8>,
    data_version: Seq<u8>,
    record: Seq<u8>,
    order: ByteOrder,
    file_len: nat,
    i: int,
    b: u8,
)
    requires
        magic.len() == 8,
        data_version.len() == 3,
        record_size_ok(record.len()),
        file_len >= header_size(record.len()),
        0 <= i < 8,
        b != magic[i],
    ensures
        existing_verdict(
            file_len,
            header_bytes(magic, data_version, record, order).update(i, b),
            magic,
            data_version,
            record.len(),
            order,
        ) == Err::<OpenedFile, OpenError>(OpenError::Header(HeaderCorrupt::MagicMismatch)),
{
    lemma_header_fields(magic, data_version, record, order);
    let h = header_bytes(magic, data_version, record, order).update(i, b);
    assert(h.subrange(0, 8)[i] != magic[i]);
}

/// A file shorter than a header by one byte fails with `Truncated`.
pub proof fn lemma_short_file_detected(
    header: Seq<u8>,
    magic: Seq<u8>,
    data_version: Seq<u8>,
    record_size: nat,
    order: ByteOrder,
)
    requires
        record_size_ok(record_size),
    ensures
        existing_verdict(
            (header_size(record_size) - 1) as nat,
            header,
            magic,
            data_version,
            record_size,
            order,
        ) == Err::<OpenedFile, OpenError>(OpenError::Header(HeaderCorrupt::Truncated)),
{
}

/// One byte more than a valid body fails with `BodySizeMismatch` when records
/// are wider than one byte.
pub proof fn lemma_extra_byte_detected(
    magic: Seq<u8>,
    data_version: Seq<u8>,
    record: Seq<u8>,
    order: ByteOrder,
    count: nat,
)
    requires
        magic.len() == 8,
        data_version.len() == 3,
        record_size_ok(record.len()),
        record.len() > 1,
    ensures
        existing_verdict(
            body_start(record.len()) + count * record.len() + 1,
            header_bytes(magic, data_version, record, order),
            magic,
            data_version,
            record.len(),
            order,
        ) == Err::<OpenedFile, OpenError>(OpenError::BodySizeMismatch),
{
    lemma_header_fields(magic, data_version, record, order);
    let rs = record.len() as int;
    let c = count as int;
    assert((c * rs + 1) % rs == 1) by (nonlinear_arith)
        requires
            rs > 1,
            c >= 0,
    ;
}

/// A marker that is neither the expected value nor its byte swap fails with
/// `EndiannessInvalid`.
pub proof fn lemma_bad_marker_detected(
    magic: Seq<u8>,
    data_version: Seq<u8>,
    record: Seq<u8>,
    order: ByteOrder,
    file_len: nat,
    marker: Seq<u8>,
)
    requires
        magic.len() == 8,
        data_version.len() == 3,
        record_size_ok(record.len()),
        file_len >= header_size(record.len()),
        marker.len() == 2,
        marker != u16_bytes(ENDIANNESS_MARKER, ByteOrder::Little),
        marker != u16_bytes(ENDIANNESS_MARKER, ByteOrder::Big),
    ensures
        existing_verdict(
            file_len,
            with_marker(header_bytes(magic, data_version, record, order), marker),
            magic,
            data_version,
            record.len(),
            order,
        ) == Err::<OpenedFile, OpenError>(OpenError::Header(HeaderCorrupt::EndiannessInvalid)),
{
    lemma_header_fields(magic, data_version, record, order);
    let h = with_marker(header_bytes(magic, data_version, record, order), marker);
    assert(h.subrange(0, 8) =~= magic);
    assert(h.subrange(8, 10) =~= marker);
}

/// A byte-swapped marker fails with `WrongEndianness`.
pub proof fn lemma_swapped_marker_detected(
    magic: Seq<u8>,
    data_version: Seq<u8>,
    record: Seq<u8>,
    order: ByteOrder,
    file_len: nat,
)
    requires
        magic.len() == 8,
        data_version.len() == 3,
        record_size_ok(record.len()),
        file_len >= header_size(record.len()),
    ensures
        existing_verdict(
            file_len,
            with_marker(
                header_bytes(magic, data_version, record, order),
                u16_bytes(ENDIANNESS_MARKER, order).reverse(),
            ),
            magic,
            data_version,
            record.len(),
            order,
        ) == Err::<OpenedFile, OpenError>(OpenError::Header(HeaderCorrupt::WrongEndianness)),
{
    lemma_header_fields(magic, data_version, record, order);
    let swapped = u16_bytes(ENDIANNESS_MARKER, order).reverse();
    let h = with_marker(header_bytes(magic, data_version, record, order), swapped);
    assert(h.subrange(0, 8) =~= magic);
    assert(h.subrange(8, 10) =~= swapped);
    assert(swapped =~= u16_bytes(ENDIANNESS_MARKER, order.flipped()));
    assert(swapped != u16_bytes(ENDIANNESS_MARKER, order)) by {
        assert(swapped[0] != u16_bytes(ENDIANNESS_MARKER, order)[0]);
    }
}

} // verus!
