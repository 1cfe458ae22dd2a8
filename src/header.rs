use vstd::prelude::*;

verus! {

/// Value of the byte-order marker, written in the writer's byte order.
pub const ENDIANNESS_MARKER: u16 = 0x1234;

/// Bytes of the header that are not the template record: magic tag (8),
/// byte-order marker (2), container format version (3), data version (3),
/// and after the record the padding length (2).
pub const HEADER_OVERHEAD: usize = 18;

/// The records start at a multiple of this.
pub const PAGE_SIZE: usize = 4096;

/// Byte order in which the multi-byte header fields are written.
#[derive(Clone, Copy, Debug, PartialEq, Eq, Structural)]
pub enum ByteOrder {
    Little,
    Big,
}

impl ByteOrder {
    pub open spec fn flipped(self) -> ByteOrder {
        match self {
            ByteOrder::Little => ByteOrder::Big,
            ByteOrder::Big => ByteOrder::Little,
        }
    }
}

/// A header that cannot belong to the expected kind of file.
#[derive(Clone, Copy, Debug, PartialEq, Eq, Structural)]
pub enum HeaderCorrupt {
    /// The magic tag differs from the expected one.
    MagicMismatch,
    /// The byte-order marker is neither the expected value nor its byte swap.
    EndiannessInvalid,
    /// The byte-order marker is byte-swapped: written on a host of the other order.
    WrongEndianness,
    /// Fewer bytes than a whole header.
    Truncated,
}

/// What a header that passed validation says about the versions.
#[derive(Clone, Copy, Debug, PartialEq, Eq, Structural)]
pub struct HeaderReport {
    pub format_version_matches: bool,
    pub data_version_matches: bool,
}

/// Version of the container format (header layout and padding rules).
pub open spec fn format_version() -> Seq<u8> {
    seq![0u8, 0u8, 5u8]
}

/// The two bytes of `v` in the given order.
pub open spec fn u16_bytes(v: u16, order: ByteOrder) -> Seq<u8> {
    let lo = (v % 256) as u8;
    let hi = (v / 256) as u8;
    match order {
        ByteOrder::Little => seq![lo, hi],
        ByteOrder::Big => seq![hi, lo],
    }
}

pub open spec fn header_size(record_size: nat) -> nat {
    HEADER_OVERHEAD as nat + record_size
}

/// Zero bytes after a header of `size` bytes that bring it to a page boundary.
pub open spec fn padding_len(size: nat) -> nat {
    ((PAGE_SIZE as int - (size as int) % (PAGE_SIZE as int)) % (PAGE_SIZE as int)) as nat
}

/// Offset of the first record.
pub open spec fn body_start(record_size: nat) -> nat {
    header_size(record_size) + padding_len(header_size(record_size))
}

/// Record sizes for which every offset in the file fits in a `usize`.
pub open spec fn record_size_ok(record_size: nat) -> bool {
    0 < record_size && record_size + HEADER_OVERHEAD + PAGE_SIZE <= usize::MAX
}

/// The header of a new file, byte for byte.
pub open spec fn header_bytes(
    magic: Seq<u8>,
    data_version: Seq<u8>,
    record: Seq<u8>,
    order: ByteOrder,
) -> Seq<u8> {
    magic + u16_bytes(ENDIANNESS_MARKER, order) + format_version() + data_version + record
        + u16_bytes(padding_len(header_size(record.len())) as u16, order)
}

/// What validation concludes from the bytes at the start of a file.
pub open spec fn header_verdict(
    bytes: Seq<u8>,
    magic: Seq<u8>,
    data_version: Seq<u8>,
    record_size: nat,
    order: ByteOrder,
) -> Result<HeaderReport, HeaderCorrupt> {
    if bytes.len() < header_size(record_size) {
        Err(HeaderCorrupt::Truncated)
    } else if bytes.subrange(0, 8) != magic {
        Err(HeaderCorrupt::MagicMismatch)
    } else if bytes.subrange(8, 10) != u16_bytes(ENDIANNESS_MARKER, order) {
        if bytes.subrange(8, 10) == u16_bytes(ENDIANNESS_MARKER, order.flipped()) {
            Err(HeaderCorrupt::WrongEndianness)
        } else {
            Err(HeaderCorrupt::EndiannessInvalid)
        }
    } else {
        Ok(
            HeaderReport {
                format_version_matches: bytes.subrange(10, 13) == format_version(),
                data_version_matches: bytes.subrange(13, 16) == data_version,
            },
        )
    }
}

/// Number of padding bytes after a header of `size` bytes.
pub fn padding_for(size: usize) -> (r: u16)
    ensures
        r as nat == padding_len(size as nat),
        (size as nat + r as nat) % (PAGE_SIZE as nat) == 0,
{
    let rem = size % PAGE_SIZE;
    if rem == 0 {
        0
    } else {
        (PAGE_SIZE - rem) as u16
    }
}

/// The two bytes of `v` in the given order.
pub fn encode_u16(v: u16, order: ByteOrder) -> (r: [u8; 2])
    ensures
        r@ == u16_bytes(v, order),
{
    let lo = (v % 256) as u8;
    let hi = (v / 256) as u8;
    let r = match order {
        ByteOrder::Little => [lo, hi],
        ByteOrder::Big => [hi, lo],
    };
    assert(r@ =~= u16_bytes(v, order));
    r
}

/// The byte order in which `ENDIANNESS_MARKER` is laid out as `bytes`, if any.
pub fn order_of_marker(bytes: [u8; 2]) -> (r: Option<ByteOrder>)
    ensures
        r == if bytes@ == u16_bytes(ENDIANNESS_MARKER, ByteOrder::Little) {
            Some(ByteOrder::Little)
        } else if bytes@ == u16_bytes(ENDIANNESS_MARKER, ByteOrder::Big) {
            Some(ByteOrder::Big)
        } else {
            None::<ByteOrder>
        },
{
    let little = encode_u16(ENDIANNESS_MARKER, ByteOrder::Little);
    let big = encode_u16(ENDIANNESS_MARKER, ByteOrder::Big);
    if bytes[0] == little[0] && bytes[1] == little[1] {
        assert(bytes@ =~= little@);
        Some(ByteOrder::Little)
    } else if bytes[0] == big[0] && bytes[1] == big[1] {
        assert(bytes@ =~= big@);
        assert(bytes@ != little@) by {
            assert(bytes@[0] != little@[0] || bytes@[1] != little@[1]);
        }
        Some(ByteOrder::Big)
    } else {
        assert(bytes@ != little@) by {
            assert(bytes@[0] != little@[0] || bytes@[1] != little@[1]);
        }
        assert(bytes@ != big@) by {
            assert(bytes@[0] != big@[0] || bytes@[1] != big@[1]);
        }
        None
    }
}

/// Builds the header of a new file for records shaped like `default_record`.
pub fn encode_header(
    magic: [u8; 8],
    data_version: [u8; 3],
    default_record: &[u8],
    order: ByteOrder,
) -> (r: Vec<u8>)
    requires
        record_size_ok(default_record@.len()),
    ensures
        r@ == header_bytes(magic@, data_version@, default_record@, order),
        r@.len() == header_size(default_record@.len()),
{
    let size = HEADER_OVERHEAD + default_record.len();
    let padding = padding_for(size);
    let marker = encode_u16(ENDIANNESS_MARKER, order);
    let format: [u8; 3] = [0, 0, 5];
    let padding_field = encode_u16(padding, order);
    let mut out: Vec<u8> = Vec::new();
    out.extend_from_slice(magic.as_slice());
    out.extend_from_slice(marker.as_slice());
    out.extend_from_slice(format.as_slice());
    out.extend_from_slice(data_version.as_slice());
    out.extend_from_slice(default_record);
    out.extend_from_slice(padding_field.as_slice());
    assert(format@ =~= format_version());
    assert(out@ =~= header_bytes(magic@, data_version@, default_record@, order));
    out
}

/// Whether `a[start..start + b.len()]` equals `b`.
fn bytes_equal_at(a: &[u8], start: usize, b: &[u8]) -> (r: bool)
    requires
        start + b@.len() <= a@.len(),
    ensures
        r == (a@.subrange(start as int, start + b@.len()) == b@),
{
    let total: usize = a.len();
    let mut i: usize = 0;
    while i < b.len()
        invariant
            i <= b@.len(),
            total == a@.len(),
            start + b@.len() <= a@.len(),
            forall|k: int| 0 <= k < i ==> a@[start + k] == b@[k],
        decreases b@.len() - i,
    {
        if a[start + i] != b[i] {
            assert(a@.subrange(start as int, start + b@.len())[i as int] != b@[i as int]);
            return false;
        }
        i += 1;
    }
    assert(a@.subrange(start as int, start + b@.len()) =~= b@);
    true
}

/// Checks the first bytes of an existing file against the expected magic tag
/// and byte order, and reports whether the versions it records match.
pub fn validate_header(
    on_disk: &[u8],
    magic: [u8; 8],
    data_version: [u8; 3],
    record_size: usize,
    order: ByteOrder,
) -> (r: Result<HeaderReport, HeaderCorrupt>)
    requires
        record_size_ok(record_size as nat),
    ensures
        r == header_verdict(on_disk@, magic@, data_version@, record_size as nat, order),
{
    if on_disk.len() < HEADER_OVERHEAD + record_size {
        return Err(HeaderCorrupt::Truncated);
    }
    if !bytes_equal_at(on_disk, 0, magic.as_slice()) {
        return Err(HeaderCorrupt::MagicMismatch);
    }
    let expected = encode_u16(ENDIANNESS_MARKER, order);
    if !bytes_equal_at(on_disk, 8, expected.as_slice()) {
        let other = match order {
            ByteOrder::Little => ByteOrder::Big,
            ByteOrder::Big => ByteOrder::Little,
        };
        let swapped = encode_u16(ENDIANNESS_MARKER, other);
        if bytes_equal_at(on_disk, 8, swapped.as_slice()) {
            return Err(HeaderCorrupt::WrongEndianness);
        } else {
            return Err(HeaderCorrupt::EndiannessInvalid);
        }
    }
    let format: [u8; 3] = [0, 0, 5];
    assert(format@ =~= format_version());
    let format_version_matches = bytes_equal_at(on_disk, 10, format.as_slice());
    let data_version_matches = bytes_equal_at(on_disk, 13, data_version.as_slice());
    Ok(HeaderReport { format_version_matches, data_version_matches })
}

} // verus!
