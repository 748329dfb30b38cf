use rune::fingerprint::{bytes_to_u32s, fingerprint_from_row, u32s_to_bytes, FingerprintError, Model};

#[test]
fn decodes_little_endian_words() {
    let bytes = vec![1, 0, 0, 0, 0x78, 0x56, 0x34, 0x12];
    assert_eq!(bytes_to_u32s(bytes), Ok(vec![1, 0x1234_5678]));
}

#[test]
fn empty_blob_decodes_to_no_words() {
    assert_eq!(bytes_to_u32s(Vec::new()), Ok(Vec::new()));
}

#[test]
fn blob_of_partial_word_is_refused() {
    assert_eq!(
        bytes_to_u32s(vec![1, 2, 3, 4, 5]),
        Err(FingerprintError::LengthNotMultipleOfFour)
    );
    assert_eq!(bytes_to_u32s(vec![1, 2, 3]), Err(FingerprintError::LengthNotMultipleOfFour));
}

#[test]
fn encodes_words_least_significant_byte_first() {
    assert_eq!(
        u32s_to_bytes(&[0xdead_beef, 7]),
        vec![0xef, 0xbe, 0xad, 0xde, 7, 0, 0, 0]
    );
    assert_eq!(u32s_to_bytes(&[]), Vec::<u8>::new());
}

#[test]
fn stored_fingerprint_reads_back() {
    let words = vec![0, 1, u32::MAX, 0x0102_0304, 42];
    let blob = u32s_to_bytes(&words);
    assert_eq!(blob.len(), 4 * words.len());
    assert_eq!(bytes_to_u32s(blob), Ok(words));
}

#[test]
fn decoded_blob_encodes_back() {
    let blob = vec![9, 8, 7, 6, 5, 4, 3, 2];
    let words = bytes_to_u32s(blob.clone()).unwrap();
    assert_eq!(u32s_to_bytes(&words), blob);
}

#[test]
fn missing_row_is_not_found() {
    assert_eq!(fingerprint_from_row(None), Err(FingerprintError::NotFound));
}

#[test]
fn row_blob_is_decoded() {
    let row = Model { id: 3, media_file_id: 17, fingerprint: vec![2, 0, 0, 0], is_duplicated: 0 };
    assert_eq!(fingerprint_from_row(Some(row)), Ok(vec![2]));
    let bad = Model { id: 4, media_file_id: 18, fingerprint: vec![2, 0], is_duplicated: 0 };
    assert_eq!(fingerprint_from_row(Some(bad)), Err(FingerprintError::LengthNotMultipleOfFour));
}

#[test]
fn errors_carry_their_messages() {
    let err = bytes_to_u32s(vec![1u8, 2, 3]).unwrap_err();
    assert_eq!(err.to_string(), "The length of the input byte vector must be a multiple of 4.");
    let missing = fingerprint_from_row(None).unwrap_err();
    assert_eq!(missing.to_string(), "Fingerprint not found");
}

#[test]
fn decoded_word_is_little_endian_sum() {
    let bytes = vec![0x01, 0x02, 0x03, 0x04];
    assert_eq!(bytes_to_u32s(bytes), Ok(vec![1 + 2 * 256 + 3 * 65536 + 4 * 16777216]));
}
