use std::io::Write;

use flate2::write::ZlibEncoder;
use flate2::Compression;
use rashen::format::pman::{read_file_entries, read_files, read_header};
use rashen::format::zlib::check_inflated;
use rashen::format::{header_size_for, u32_zero, FileEntry};
use rashen::{ContractError, Error, FormatError, InvalidFormatError, PmanFile, PmanFileData};

const COPYRIGHT: &str = "Copyright (c) 2004 Torus Games Pty. Ltd.";
const FILE_COUNT: u32 = 158;
const ENTRY_TABLE_START: usize = 0x40;

fn zlib(data: &[u8]) -> Vec<u8> {
    let mut enc = ZlibEncoder::new(Vec::new(), Compression::default());
    enc.write_all(data).unwrap();
    enc.finish().unwrap()
}

fn zlib_member(data: &[u8]) -> Vec<u8> {
    let n = data.len() as u32;
    let mut m = vec![b'Z', b'L', n as u8, (n >> 8) as u8, (n >> 16) as u8];
    m.extend_from_slice(&zlib(data));
    m
}

/// Lays out an archive by hand: `gaps[i]` bytes of padding before payload `i`.
fn archive(copyright: &[u8], payloads: &[Vec<u8>], gaps: &[usize]) -> Vec<u8> {
    let mut out = b"PMAN".to_vec();
    out.extend_from_slice(&(payloads.len() as u32).to_le_bytes());
    out.extend_from_slice(copyright);
    out.resize(64, 0);
    let mut offset = 64 + 16 * payloads.len();
    let mut body = Vec::new();
    for (p, gap) in payloads.iter().zip(gaps) {
        offset += gap;
        body.resize(body.len() + gap, 0xEE);
        out.extend_from_slice(&0u32.to_le_bytes());
        out.extend_from_slice(&(offset as u32).to_le_bytes());
        out.extend_from_slice(&(p.len() as u32).to_le_bytes());
        out.extend_from_slice(&0u32.to_le_bytes());
        body.extend_from_slice(p);
        offset += p.len();
    }
    out.extend_from_slice(&body);
    out
}

/// A stand-in for the game's packfile: 158 entries, the first at 0xA20 with
/// 0x6500 bytes, entry 77 a zlib member holding a collision file, and 170
/// bytes of padding between payloads.
fn sample() -> Vec<u8> {
    let mut payloads = Vec::new();
    let mut gaps = Vec::new();
    for i in 0..FILE_COUNT as usize {
        let p = if i == 0 {
            vec![0x11; 0x6500]
        } else if i == 77 {
            let mut coll = b"COLL".to_vec();
            coll.extend((0..300u32).map(|x| (x % 251) as u8));
            zlib_member(&coll)
        } else {
            (0..(i % 40 + 1)).map(|x| (x + i) as u8).collect()
        };
        payloads.push(p);
        gaps.push(if i > 0 && i % 9 == 0 { 10 } else { 0 });
    }
    assert_eq!(gaps.iter().sum::<usize>(), 170);
    archive(COPYRIGHT.as_bytes(), &payloads, &gaps)
}

fn format_error(bytes: Vec<u8>) -> FormatError {
    match PmanFile::new(bytes) {
        Err(Error::InvalidFormat(InvalidFormatError { kind })) => kind,
        Err(e) => panic!("unexpected error {:?}", e),
        Ok(_) => panic!("decoded"),
    }
}

#[test]
fn read_header_test() {
    let input = sample();
    let (copyright, file_count) = read_header(&input).unwrap();

    assert_eq!(copyright, COPYRIGHT);
    assert_eq!(file_count, FILE_COUNT);
}

#[test]
fn read_entry_table_test() {
    let input = sample();
    assert_eq!(ENTRY_TABLE_START, 64);
    let entry_table = read_file_entries(&input, FILE_COUNT).unwrap();

    assert_eq!(*entry_table.first().unwrap(), FileEntry::new(0xA20, 0x6500));
}

#[test]
fn read_files_test() {
    let input = sample();
    let entry_table = read_file_entries(&input, FILE_COUNT).unwrap();
    let start = ENTRY_TABLE_START + 16 * FILE_COUNT as usize;
    let files = read_files(&input, start, &entry_table).unwrap();
    let file = files[77].to_zlib().expect("zlib file data.").unwrap();

    assert_eq!(&file[..4], b"COLL");
}

#[test]
fn pman_new_test() {
    let _ = PmanFile::new(sample()).unwrap();
}

#[test]
fn pman_into_bytes_test() {
    let input = sample();
    let pman = PmanFile::new(input.clone()).unwrap();
    let bytes = pman.into_bytes().unwrap();

    assert_eq!(bytes.len() + 170, input.len());
}

#[test]
fn sample_round_trip_keeps_contents() {
    let first = PmanFile::new(sample()).unwrap();
    let copyright = first.copyright().to_string();
    let files: Vec<Vec<u8>> = first.files().iter().map(|f| f.bytes().to_vec()).collect();
    let second = PmanFile::new(first.into_bytes().unwrap()).unwrap();
    assert_eq!(second.copyright(), copyright);
    assert_eq!(second.files().len(), 158);
    let again: Vec<Vec<u8>> = second.files().iter().map(|f| f.bytes().to_vec()).collect();
    assert_eq!(again, files);
}

#[test]
fn round_trip_drops_padding_only() {
    let payloads = vec![b"abc".to_vec(), Vec::new(), b"defgh".to_vec()];
    let input = archive(b"me", &payloads, &[0, 2, 7]);
    let first = PmanFile::new(input.clone()).unwrap();
    let out = first.into_bytes().unwrap();
    assert_eq!(out.len() + 9, input.len());
    let second = PmanFile::new(out.clone()).unwrap();
    assert_eq!(second.copyright(), "me");
    let got: Vec<&[u8]> = second.files().iter().map(|f| f.bytes()).collect();
    assert_eq!(got, vec![&b"abc"[..], &b""[..], &b"defgh"[..]]);
    assert_eq!(second.into_bytes().unwrap(), out);
}

#[test]
fn encode_writes_exact_layout() {
    let pman = PmanFile::from_parts(
        "ab",
        vec![PmanFileData::new(vec![1, 2, 3]), PmanFileData::new(vec![9])],
    )
    .unwrap();
    assert_eq!(pman.size_upto_file_data(), 96);
    let bytes = pman.into_bytes().unwrap();
    let mut expected = b"PMAN".to_vec();
    expected.extend_from_slice(&[2, 0, 0, 0]);
    expected.extend_from_slice(b"ab");
    expected.resize(64, 0);
    expected.extend_from_slice(&[0, 0, 0, 0, 96, 0, 0, 0, 3, 0, 0, 0, 0, 0, 0, 0]);
    expected.extend_from_slice(&[0, 0, 0, 0, 99, 0, 0, 0, 1, 0, 0, 0, 0, 0, 0, 0]);
    expected.extend_from_slice(&[1, 2, 3, 9]);
    assert_eq!(bytes, expected);
}

#[test]
fn empty_archive_round_trips() {
    let pman = PmanFile::from_parts("", Vec::new()).unwrap();
    let bytes = pman.into_bytes().unwrap();
    assert_eq!(bytes.len(), 64);
    let back = PmanFile::new(bytes).unwrap();
    assert_eq!(back.copyright(), "");
    assert!(back.files().is_empty());
}

#[test]
fn decreasing_offsets_fail_as_overlapping() {
    let mut input = archive(b"x", &[b"aaaa".to_vec(), b"bb".to_vec()], &[0, 0]);
    // Second entry's offset moved before the first one.
    input[64 + 16 + 4..64 + 16 + 8].copy_from_slice(&10u32.to_le_bytes());
    assert_eq!(format_error(input), FormatError::OverlappingEntries);
}

#[test]
fn entry_inside_previous_fails_as_overlapping() {
    let mut input = archive(b"x", &[b"aaaa".to_vec(), b"bb".to_vec()], &[0, 0]);
    // Second entry starts one byte before the first one ends.
    input[64 + 16 + 4..64 + 16 + 8].copy_from_slice(&(64u32 + 32 + 3).to_le_bytes());
    assert_eq!(format_error(input), FormatError::OverlappingEntries);
}

#[test]
fn equal_offsets_with_empty_entry_decode() {
    let input = archive(b"x", &[Vec::new(), b"bb".to_vec()], &[0, 0]);
    let pman = PmanFile::new(input).unwrap();
    assert_eq!(pman.files()[1].bytes(), b"bb");
}

#[test]
fn bad_magic_is_rejected() {
    let mut input = archive(b"x", &[b"a".to_vec()], &[0]);
    input[0] = b'Q';
    assert_eq!(format_error(input), FormatError::BadMagic);
}

#[test]
fn short_buffer_is_truncated_input() {
    assert_eq!(format_error(b"PMAN".to_vec()), FormatError::TruncatedInput);
    assert_eq!(format_error(Vec::new()), FormatError::TruncatedInput);
}

#[test]
fn missing_table_is_truncated_input() {
    let mut input = archive(b"x", &[b"a".to_vec()], &[0]);
    input[4] = 2;
    input.truncate(64 + 20);
    assert_eq!(format_error(input), FormatError::TruncatedInput);
}

#[test]
fn missing_terminator_is_unterminated_copyright() {
    let mut input = archive(b"x", &[b"a".to_vec()], &[0]);
    input[63] = b'!';
    assert_eq!(format_error(input), FormatError::UnterminatedCopyright);
}

#[test]
fn oversized_decoded_copyright_is_unterminated() {
    // 55 invalid bytes each become a three-byte replacement character.
    let input = archive(&[0xFF; 55], &[b"a".to_vec()], &[0]);
    assert_eq!(format_error(input), FormatError::UnterminatedCopyright);
}

#[test]
fn invalid_utf8_copyright_is_replaced() {
    let input = archive(&[b'a', 0xFF, b'b'], &[b"a".to_vec()], &[0]);
    let pman = PmanFile::new(input).unwrap();
    assert_eq!(pman.copyright(), "a\u{FFFD}b");
}

#[test]
fn nonzero_reserved_fields_are_rejected() {
    let mut input = archive(b"x", &[b"a".to_vec(), b"b".to_vec()], &[0, 0]);
    input[64 + 16] = 1;
    assert_eq!(format_error(input.clone()), FormatError::UnexpectedNonZeroField);
    let mut input = archive(b"x", &[b"a".to_vec(), b"b".to_vec()], &[0, 0]);
    input[64 + 12] = 1;
    assert_eq!(format_error(input), FormatError::UnexpectedNonZeroField);
}

#[test]
fn short_payload_region_is_truncated_payload() {
    let mut input = archive(b"x", &[b"abcd".to_vec(), b"ef".to_vec()], &[0, 5]);
    input.pop();
    assert_eq!(format_error(input), FormatError::TruncatedPayload);
}

#[test]
fn trailing_bytes_are_ignored() {
    let mut input = archive(b"x", &[b"abcd".to_vec()], &[0]);
    input.extend_from_slice(b"tail");
    let pman = PmanFile::new(input).unwrap();
    assert_eq!(pman.files()[0].bytes(), b"abcd");
}

#[test]
fn first_payload_starts_after_table_whatever_its_offset() {
    let mut input = archive(b"x", &[b"abcd".to_vec(), b"ef".to_vec()], &[0, 1]);
    // Shift both offsets by 100: only their difference matters.
    for i in 0..2 {
        let at = 64 + 16 * i + 4;
        let v = u32::from_le_bytes(input[at..at + 4].try_into().unwrap()) + 100;
        input[at..at + 4].copy_from_slice(&v.to_le_bytes());
    }
    let pman = PmanFile::new(input).unwrap();
    assert_eq!(pman.files()[0].bytes(), b"abcd");
    assert_eq!(pman.files()[1].bytes(), b"ef");
}

#[test]
fn copyright_trailing_nulls_are_dropped_and_decode_strips_them() {
    let input = archive(b"abc\0\0", &[b"a".to_vec()], &[0]);
    let pman = PmanFile::new(input).unwrap();
    assert_eq!(pman.copyright(), "abc");
    assert_eq!(rashen::format::copyright::trim_nul_padding("x\0y\0\0"), "x\0y");
}

#[test]
fn set_copyright_accepts_up_to_55_bytes() {
    let mut pman = PmanFile::from_parts("old", Vec::new()).unwrap();
    let exact = "a".repeat(55);
    assert_eq!(pman.set_copyright(&exact), Ok(()));
    assert_eq!(pman.copyright(), exact);
    assert_eq!(pman.set_copyright(""), Ok(()));
    assert_eq!(pman.copyright(), "");
}

#[test]
fn set_copyright_rejects_over_55_bytes() {
    let mut pman = PmanFile::from_parts("old", Vec::new()).unwrap();
    let long = "a".repeat(56);
    assert_eq!(pman.set_copyright(&long), Err(ContractError::CopyrightTooLong));
    assert_eq!(pman.copyright(), "old");
    // 28 two-byte characters: 28 characters but 56 bytes.
    let wide = "é".repeat(28);
    assert_eq!(pman.set_copyright(&wide), Err(ContractError::CopyrightTooLong));
    assert_eq!(
        PmanFile::from_parts(&long, Vec::new()).err(),
        Some(ContractError::CopyrightTooLong)
    );
}

#[test]
fn zlib_member_decompresses_to_declared_size() {
    let member = PmanFileData::new(zlib_member(b"COLL data"));
    assert!(member.is_zlib_member());
    assert_eq!(member.to_zlib(), Some(Ok(b"COLL data".to_vec())));
}

#[test]
fn zlib_member_with_wrong_declared_size_fails() {
    let mut bytes = zlib_member(b"COLL data");
    bytes[2] += 1;
    let member = PmanFileData::new(bytes.clone());
    assert_eq!(member.to_zlib(), Some(Err(FormatError::TruncatedZlib)));
    bytes[2] -= 2;
    let member = PmanFileData::new(bytes);
    assert_eq!(member.to_zlib(), Some(Err(FormatError::TruncatedZlib)));
}

#[test]
fn truncated_zlib_stream_fails() {
    let mut bytes = zlib_member(&[7u8; 400]);
    bytes.truncate(bytes.len() - 6);
    let member = PmanFileData::new(bytes);
    assert_eq!(member.to_zlib(), Some(Err(FormatError::TruncatedZlib)));
}

#[test]
fn non_members_are_not_decompressed() {
    assert_eq!(PmanFileData::new(b"ZLab".to_vec()).to_zlib(), None);
    assert!(!PmanFileData::new(b"ZLab".to_vec()).is_zlib_member());
    assert_eq!(PmanFileData::new(b"XL\0\0\0abc".to_vec()).to_zlib(), None);
    assert_eq!(PmanFileData::new(Vec::new()).to_zlib(), None);
}

#[test]
fn check_inflated_requires_exact_size() {
    assert_eq!(check_inflated(3, Some(vec![1, 2, 3])), Ok(vec![1, 2, 3]));
    assert_eq!(check_inflated(4, Some(vec![1, 2, 3])), Err(FormatError::TruncatedZlib));
    assert_eq!(check_inflated(2, Some(vec![1, 2, 3])), Err(FormatError::TruncatedZlib));
    assert_eq!(check_inflated(0, None), Err(FormatError::TruncatedZlib));
}

#[test]
fn header_size_for_counts_sixteen_bytes_per_entry() {
    assert_eq!(header_size_for(0), 64);
    assert_eq!(header_size_for(1), 80);
    assert_eq!(header_size_for(158), 0xA20);
    assert_eq!(header_size_for(u32::MAX), 64 + 16 * u32::MAX as u64);
}

#[test]
fn files_mut_and_bytes_mut_edit_the_archive() {
    let mut pman = PmanFile::from_parts("c", vec![PmanFileData::new(vec![1])]).unwrap();
    pman.files_mut()[0].bytes_mut().push(2);
    pman.files_mut().push(PmanFileData::new(vec![3]));
    let bytes = pman.into_bytes().unwrap();
    let back = PmanFile::new(bytes).unwrap();
    let files: Vec<PmanFileData> = back.into_iter().collect();
    assert_eq!(files, vec![PmanFileData::new(vec![1, 2]), PmanFileData::new(vec![3])]);
}

#[test]
fn u32_zero_fails_on_short_input() {
    assert!(u32_zero(&[0, 0, 0, 0], 0));
    assert!(!u32_zero(&[0, 0, 0, 1], 0));
    assert!(!u32_zero(&[0, 0, 0], 0));
    assert!(!u32_zero(&[0, 0, 0, 0], 1));
    assert!(!u32_zero(&[], usize::MAX));
    assert!(u32_zero(&[9, 0, 0, 0, 0], 1));
}
