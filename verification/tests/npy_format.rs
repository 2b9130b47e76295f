use lib::npy::{decode_record, find, npy_preamble, npy_records, NpyError};

const HEADER: &[u8] = b"{'descr': [('key', '<u8'), ('pos', '<u8'), ('label', 'u1')], 'fortran_order': False, 'shape': (3,), }";

#[test]
fn preamble_of_version_one() {
    let head = [0x93, b'N', b'U', b'M', b'P', b'Y', 1, 0, 0x76, 0x00];
    assert_eq!(npy_preamble(&head), Ok((10, 118)));
}

#[test]
fn preamble_of_version_two() {
    let head = [0x93, b'N', b'U', b'M', b'P', b'Y', 2, 0, 0x10, 0x01, 0x00, 0x00];
    assert_eq!(npy_preamble(&head), Ok((12, 272)));
    assert_eq!(npy_preamble(&head[..10]), Err(NpyError::Truncated));
}

#[test]
fn preamble_without_magic() {
    let head = [0x93, b'N', b'U', b'M', b'P', b'X', 1, 0, 0x76, 0x00];
    assert_eq!(npy_preamble(&head), Err(NpyError::NotNpy));
    assert_eq!(npy_preamble(&head[..6]), Err(NpyError::NotNpy));
}

#[test]
fn records_after_the_header() {
    assert_eq!(npy_records(HEADER, 10, 118, 128 + 3 * 17), Ok((128, 3)));
    assert_eq!(npy_records(HEADER, 10, 118, 128), Ok((128, 0)));
}

#[test]
fn records_refused() {
    assert_eq!(npy_records(HEADER, 10, 118, 128 + 20), Err(NpyError::RaggedData));
    assert_eq!(npy_records(HEADER, 10, 118, 100), Err(NpyError::Truncated));
    let fortran = b"{'descr': [('key', '<u8'), ('pos', '<u8'), ('label', 'u1')], 'fortran_order': True, }";
    assert_eq!(npy_records(fortran, 10, 118, 128), Err(NpyError::FortranOrder));
    let no_label = b"{'descr': [('key', '<u8'), ('pos', '<u8')], 'fortran_order': False, }";
    assert_eq!(npy_records(no_label, 10, 118, 128), Err(NpyError::UnexpectedDtype));
}

#[test]
fn substring_search() {
    assert!(find(b"abcabd", b"abd"));
    assert!(!find(b"abcabc", b"abd"));
    assert!(find(b"abc", b""));
    assert!(!find(b"ab", b"abc"));
}

#[test]
fn record_is_little_endian() {
    let mut b = [0u8; 17];
    b[0] = 0x01;
    b[1] = 0x02;
    b[7] = 0x80;
    b[8] = 0xff;
    b[16] = 1;
    assert_eq!(decode_record(&b), (0x8000_0000_0000_0201, 0xff, 1));
}
