use persistence::{
    check_existing, encode_header, order_of_marker, padding_for, plan_open, validate_header,
    ByteOrder, HeaderCorrupt, HeaderReport, OpenError, OpenPlan, OpenedFile,
};

const EXAMPLE_MAGIC_BYTES: [u8; 8] = [b'T', b'E', b'S', b'T', b'F', b'I', b'L', b'E'];
const EXAMPLE_CORRUPT_MAGIC_BYTES: [u8; 8] = [b'X', b'Y', b'Z', b'T', b'F', 0, 0, 0];
const EXAMPLE_DATA_CONTAINED_VERSION: [u8; 3] = [0, 1, 0];
const EXAMPLE_DEFAULT: [u8; 2] = [1, 2];
const EXAMPLE_HEADER_SIZE: usize = 20;
const ENDIANNESS_OFFSET: usize = 8;

/// The file that opening an empty path for the example schema lays down.
fn new_example_file(order: ByteOrder) -> Vec<u8> {
    new_file_with_magic(EXAMPLE_MAGIC_BYTES, order)
}

fn new_file_with_magic(magic: [u8; 8], order: ByteOrder) -> Vec<u8> {
    match plan_open(0, magic, EXAMPLE_DATA_CONTAINED_VERSION, &EXAMPLE_DEFAULT, order) {
        Ok(OpenPlan::Initialize { header, file_len }) => {
            let mut file = header;
            file.resize(file_len as usize, 0);
            file
        }
        other => panic!("unexpected plan for an empty file: {:?}", other),
    }
}

/// Reopens a file image the way the handle does.
fn reopen(file: &[u8]) -> Result<OpenedFile, OpenError> {
    match plan_open(
        file.len() as u64,
        EXAMPLE_MAGIC_BYTES,
        EXAMPLE_DATA_CONTAINED_VERSION,
        &EXAMPLE_DEFAULT,
        ByteOrder::Little,
    )? {
        OpenPlan::ReadHeader { header_len } => check_existing(
            file.len() as u64,
            &file[..header_len],
            EXAMPLE_MAGIC_BYTES,
            EXAMPLE_DATA_CONTAINED_VERSION,
            EXAMPLE_DEFAULT.len(),
            ByteOrder::Little,
        ),
        OpenPlan::Initialize { .. } => panic!("a non-empty file was planned as new"),
    }
}

#[test]
fn test_create_mmaped_vec_onto_tempfile() {
    let file = new_example_file(ByteOrder::Little);
    assert_eq!(file.len(), 4096);
}

#[test]
fn test_detect_header_corrupt_magic_bytes() {
    let file = new_file_with_magic(EXAMPLE_CORRUPT_MAGIC_BYTES, ByteOrder::Little);
    let err = reopen(&file).err().unwrap();
    assert_eq!(err, OpenError::Header(HeaderCorrupt::MagicMismatch));
}

#[test]
fn test_detect_file_corrupt_truncated_to_under_end_of_header() {
    let mut file = new_example_file(ByteOrder::Little);
    file.truncate(EXAMPLE_HEADER_SIZE - 1);
    let err = reopen(&file).err().unwrap();
    assert_eq!(err, OpenError::Header(HeaderCorrupt::Truncated));
}

#[test]
fn test_detect_file_corrupt_body_not_integer_multiple_of_data_type() {
    let mut file = new_example_file(ByteOrder::Little);
    let flen = file.len();
    file.resize(flen + 1, 0);
    let err = reopen(&file).err().unwrap();
    assert_eq!(err, OpenError::BodySizeMismatch);
}

#[test]
fn test_detect_endianness_marker_invalid() {
    let mut file = new_example_file(ByteOrder::Little);
    file[ENDIANNESS_OFFSET] = 0;
    file[ENDIANNESS_OFFSET + 1] = 0;
    let err = reopen(&file).err().unwrap();
    assert_eq!(err, OpenError::Header(HeaderCorrupt::EndiannessInvalid));
}

#[test]
fn test_detect_wrong_endianness() {
    let mut file = new_example_file(ByteOrder::Little);
    file.swap(ENDIANNESS_OFFSET, ENDIANNESS_OFFSET + 1);
    let err = reopen(&file).err().unwrap();
    assert_eq!(err, OpenError::Header(HeaderCorrupt::WrongEndianness));
}

#[test]
fn new_header_is_byte_exact() {
    let header = encode_header(
        EXAMPLE_MAGIC_BYTES,
        EXAMPLE_DATA_CONTAINED_VERSION,
        &EXAMPLE_DEFAULT,
        ByteOrder::Little,
    );
    let expected: Vec<u8> = vec![
        b'T', b'E', b'S', b'T', b'F', b'I', b'L', b'E', 0x34, 0x12, 0, 0, 5, 0, 1, 0, 1, 2,
        0xEC, 0x0F,
    ];
    assert_eq!(header, expected);
    let big = encode_header(
        EXAMPLE_MAGIC_BYTES,
        EXAMPLE_DATA_CONTAINED_VERSION,
        &EXAMPLE_DEFAULT,
        ByteOrder::Big,
    );
    assert_eq!(&big[8..10], &[0x12, 0x34]);
    assert_eq!(&big[18..20], &[0x0F, 0xEC]);
}

#[test]
fn padding_reaches_page_boundary() {
    assert_eq!(padding_for(20), 4076);
    assert_eq!(padding_for(4096), 0);
    assert_eq!(padding_for(4097), 4095);
    assert_eq!(padding_for(8191), 1);
}

#[test]
fn new_file_reopens_empty() {
    let file = new_example_file(ByteOrder::Little);
    let opened = reopen(&file).unwrap();
    assert_eq!(
        opened,
        OpenedFile {
            report: HeaderReport { format_version_matches: true, data_version_matches: true },
            records: 0,
        }
    );
}

#[test]
fn reopen_counts_records() {
    let mut file = new_example_file(ByteOrder::Little);
    file.extend_from_slice(&[5, 6, 7, 8, 9, 10]);
    assert_eq!(reopen(&file).unwrap().records, 3);
}

#[test]
fn file_between_header_and_body_start_is_rejected() {
    let mut file = new_example_file(ByteOrder::Little);
    file.truncate(EXAMPLE_HEADER_SIZE + 10);
    assert_eq!(reopen(&file).err().unwrap(), OpenError::BodySizeMismatch);
}

#[test]
fn every_magic_byte_is_checked() {
    for i in 0..8 {
        let mut file = new_example_file(ByteOrder::Little);
        file[i] ^= 0xFF;
        assert_eq!(
            reopen(&file).err().unwrap(),
            OpenError::Header(HeaderCorrupt::MagicMismatch)
        );
    }
}

#[test]
fn versions_are_reported_not_enforced() {
    let file = new_example_file(ByteOrder::Little);
    let report = validate_header(
        &file[..EXAMPLE_HEADER_SIZE],
        EXAMPLE_MAGIC_BYTES,
        [9, 9, 9],
        2,
        ByteOrder::Little,
    )
    .unwrap();
    assert_eq!(
        report,
        HeaderReport { format_version_matches: true, data_version_matches: false }
    );
    let mut changed = file.clone();
    changed[12] = 4;
    let report = validate_header(
        &changed[..EXAMPLE_HEADER_SIZE],
        EXAMPLE_MAGIC_BYTES,
        EXAMPLE_DATA_CONTAINED_VERSION,
        2,
        ByteOrder::Little,
    )
    .unwrap();
    assert_eq!(
        report,
        HeaderReport { format_version_matches: false, data_version_matches: true }
    );
}

#[test]
fn short_header_bytes_are_truncated() {
    let file = new_example_file(ByteOrder::Little);
    let r = validate_header(
        &file[..EXAMPLE_HEADER_SIZE - 1],
        EXAMPLE_MAGIC_BYTES,
        EXAMPLE_DATA_CONTAINED_VERSION,
        2,
        ByteOrder::Little,
    );
    assert_eq!(r, Err(HeaderCorrupt::Truncated));
}

#[test]
fn big_endian_file_is_wrong_on_little_host() {
    let file = new_example_file(ByteOrder::Big);
    assert_eq!(
        reopen(&file).err().unwrap(),
        OpenError::Header(HeaderCorrupt::WrongEndianness)
    );
}

#[test]
fn marker_order_is_recognised() {
    assert_eq!(order_of_marker([0x34, 0x12]), Some(ByteOrder::Little));
    assert_eq!(order_of_marker([0x12, 0x34]), Some(ByteOrder::Big));
    assert_eq!(order_of_marker([0, 0]), None);
    assert_eq!(order_of_marker(0x1234u16.to_le_bytes()), Some(ByteOrder::Little));
}
