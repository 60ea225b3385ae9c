use pippin::detail::sum::checksum;
use pippin::detail::{
    head_progress, read_head, write_head, write_head_with, HeaderError, Progress,
};

const NAME: [u8; 16] = *b"sequences db\0\0\0\0";

/// Magic, name, the given sections, the checksum section and the checksum.
fn file_with(sections: &[u8]) -> Vec<u8> {
    let mut out = Vec::new();
    out.extend_from_slice(b"PIPPINSS20150924");
    out.extend_from_slice(&NAME);
    out.extend_from_slice(sections);
    out.extend_from_slice(b"HSUM SHA-2 256  ");
    let sum = checksum(&out);
    out.extend_from_slice(&sum);
    out
}

#[test]
fn checksum_is_sha2_256() {
    let empty = checksum(b"");
    assert_eq!(empty.len(), 32);
    assert_eq!(
        empty,
        vec![
            0xe3, 0xb0, 0xc4, 0x42, 0x98, 0xfc, 0x1c, 0x14, 0x9a, 0xfb, 0xf4, 0xc8, 0x99, 0x6f,
            0xb9, 0x24, 0x27, 0xae, 0x41, 0xe4, 0x64, 0x9b, 0x93, 0x4c, 0xa4, 0x95, 0x99, 0x1b,
            0x78, 0x52, 0xb8, 0x55
        ]
    );
    let abc = checksum(b"abc");
    assert_eq!(
        abc,
        vec![
            0xba, 0x78, 0x16, 0xbf, 0x8f, 0x01, 0xcf, 0xea, 0x41, 0x41, 0x40, 0xde, 0x5d, 0xae,
            0x22, 0x23, 0xb0, 0x03, 0x61, 0xa3, 0x96, 0x17, 0x7a, 0x9c, 0xb4, 0x10, 0xff, 0x61,
            0xf2, 0x00, 0x15, 0xad
        ]
    );
}

#[test]
fn written_head_reads_back() {
    let bytes = write_head(&NAME);
    assert_eq!(bytes.len(), 80);
    assert_eq!(&bytes[0..16], b"PIPPINSS20150924");
    assert_eq!(&bytes[32..48], b"HSUM SHA-2 256  ");
    assert_eq!(bytes, file_with(b""));
    let head = read_head(&bytes).unwrap();
    assert_eq!(head.name(), &NAME);
    assert_eq!(head.size(), 80);
    assert_eq!(head_progress(&bytes), Progress::Ends(80));
}

#[test]
fn body_after_the_head_is_left_alone() {
    let mut bytes = write_head(&NAME);
    bytes.extend_from_slice(b"what follows the header");
    let head = read_head(&bytes).unwrap();
    assert_eq!(head.size(), 80);
    assert_eq!(head.name(), &NAME);
}

#[test]
fn truncated_checksum_is_corruption() {
    let bytes = write_head(&NAME);
    for cut in 48..80 {
        assert_eq!(read_head(&bytes[..cut]), Err(HeaderError::Truncated));
        assert_eq!(head_progress(&bytes[..cut]), Progress::Wants(80 - cut));
    }
}

#[test]
fn truncated_anywhere_is_corruption() {
    let mut sections = Vec::new();
    sections.extend_from_slice(b"Q2 two blocks in");
    sections.extend_from_slice(b" this section...");
    sections.extend_from_slice(b"H a note, unread");
    let bytes = file_with(&sections);
    assert_eq!(read_head(&bytes).map(|h| h.size()), Ok(128));
    for cut in 0..bytes.len() {
        assert_eq!(read_head(&bytes[..cut]), Err(HeaderError::Truncated));
    }
}

#[test]
fn empty_input_wants_the_magic() {
    assert_eq!(head_progress(b""), Progress::Wants(16));
    assert_eq!(head_progress(b"PIPPIN"), Progress::Wants(10));
    assert_eq!(head_progress(b"PIPPINSS20150924"), Progress::Wants(16));
    assert_eq!(head_progress(b"PIPPINSS20150924sequences db\0\0\0\0"), Progress::Wants(16));
    assert_eq!(read_head(b""), Err(HeaderError::Truncated));
}

#[test]
fn wrong_magic_is_a_format_mismatch() {
    let mut bytes = write_head(&NAME);
    bytes[15] = b'5';
    assert_eq!(read_head(&bytes), Err(HeaderError::BadMagic));
    assert_eq!(read_head(b"PIPPINSS20150925"), Err(HeaderError::BadMagic));
    assert_eq!(head_progress(b"not a pippin file"), Progress::Fails(HeaderError::BadMagic));
}

#[test]
fn every_flipped_byte_is_caught() {
    let bytes = write_head(&NAME);
    for i in 0..bytes.len() {
        let mut bad = bytes.clone();
        bad[i] ^= 0x01;
        let got = read_head(&bad);
        assert!(got.is_err(), "byte {} flipped and still accepted", i);
        if i < 16 {
            assert_eq!(got, Err(HeaderError::BadMagic));
        } else if i < 32 || i >= 48 {
            assert_eq!(got, Err(HeaderError::ChecksumMismatch));
        }
    }
}

#[test]
fn unknown_checksum_is_unsupported() {
    let mut bytes = Vec::new();
    bytes.extend_from_slice(b"PIPPINSS20150924");
    bytes.extend_from_slice(&NAME);
    bytes.extend_from_slice(b"HSUM SHA-2 512  ");
    bytes.extend_from_slice(&[0u8; 64]);
    assert_eq!(read_head(&bytes), Err(HeaderError::UnknownChecksum));
    assert_eq!(read_head(&bytes[..48]), Err(HeaderError::UnknownChecksum));
}

#[test]
fn h_sections_are_skipped() {
    let bytes = file_with(b"Hello, a remark.H another remark");
    let head = read_head(&bytes).unwrap();
    assert_eq!(head.size(), 32 + 32 + 16 + 32);
    assert_eq!(head.name(), &NAME);
}

#[test]
fn q_sections_have_their_stated_length() {
    let mut section = Vec::new();
    section.extend_from_slice(b"Q3 HSUM SHA-2 25");
    section.extend_from_slice(b"HSUM SHA-2 256  ");
    section.extend_from_slice(b"Xthis is no tag.");
    let bytes = file_with(&section);
    let head = read_head(&bytes).unwrap();
    assert_eq!(head.size(), 32 + 48 + 16 + 32);

    let one = file_with(b"Q1 just a block.");
    assert_eq!(read_head(&one).unwrap().size(), 32 + 16 + 16 + 32);
    let zero = file_with(b"Q0 just a block.");
    assert_eq!(read_head(&zero).unwrap().size(), 32 + 16 + 16 + 32);

    let mut long = Vec::new();
    long.extend_from_slice(b"QA");
    long.extend_from_slice(&[0x51u8; 158]);
    assert_eq!(read_head(&file_with(&long)).unwrap().size(), 32 + 160 + 16 + 32);
    let mut longest = Vec::new();
    longest.extend_from_slice(b"QZ");
    longest.extend_from_slice(&[0u8; 558]);
    assert_eq!(read_head(&file_with(&longest)).unwrap().size(), 32 + 560 + 16 + 32);
}

#[test]
fn q_section_cut_short_wants_the_rest() {
    let mut bytes = Vec::new();
    bytes.extend_from_slice(b"PIPPINSS20150924");
    bytes.extend_from_slice(&NAME);
    bytes.extend_from_slice(b"Q4 first of four");
    assert_eq!(head_progress(&bytes), Progress::Wants(48));
    bytes.extend_from_slice(&[0u8; 20]);
    assert_eq!(head_progress(&bytes), Progress::Wants(28));
    assert_eq!(read_head(&bytes), Err(HeaderError::Truncated));
}

#[test]
fn bad_q_length_is_malformed() {
    for code in [b'a', b'z', b' ', b'/', b':', b'@', b'[', 0u8, 0xffu8] {
        let mut section = *b"Q? a length code";
        section[1] = code;
        assert_eq!(read_head(&file_with(&section)), Err(HeaderError::BadLength));
    }
}

#[test]
fn unknown_section_is_malformed() {
    assert_eq!(read_head(&file_with(b"Xtra, not a tag.")), Err(HeaderError::BadSection));
    assert_eq!(read_head(&file_with(b"hsum sha-2 256  ")), Err(HeaderError::BadSection));
}

#[test]
fn wrong_checksum_is_an_integrity_error() {
    let mut bytes = file_with(b"H a remark here.");
    let last = bytes.len() - 1;
    bytes[last] = bytes[last].wrapping_add(1);
    assert_eq!(read_head(&bytes), Err(HeaderError::ChecksumMismatch));
    let mut other = file_with(b"H a remark here.");
    other[40] = b'A';
    assert_eq!(read_head(&other), Err(HeaderError::ChecksumMismatch));
}

#[test]
fn header_with_sections_reads_back() {
    let mut extra = Vec::new();
    extra.extend_from_slice(b"H made on a day.");
    extra.extend_from_slice(b"Q2 two blocks of");
    extra.extend_from_slice(b" text, together.");
    let bytes = write_head_with(&NAME, &extra).unwrap();
    assert_eq!(bytes, file_with(&extra));
    assert_eq!(bytes.len(), 80 + 48);
    let head = read_head(&bytes).unwrap();
    assert_eq!(head.name(), &NAME);
    assert_eq!(head.size(), 128);
    assert_eq!(write_head_with(&NAME, b""), Ok(write_head(&NAME)));
}

#[test]
fn sections_that_would_be_misread_are_not_written() {
    assert_eq!(write_head_with(&NAME, b"H too short"), Err(HeaderError::Truncated));
    assert_eq!(write_head_with(&NAME, b"Hello, a remark.H"), Err(HeaderError::Truncated));
    assert_eq!(write_head_with(&NAME, b"Xtra, not a tag."), Err(HeaderError::BadSection));
    assert_eq!(write_head_with(&NAME, b"Q? a length code"), Err(HeaderError::BadLength));
    assert_eq!(write_head_with(&NAME, b"HSUM SHA-2 256  "), Err(HeaderError::BadSection));
    assert_eq!(write_head_with(&NAME, b"HSUM MD5        "), Err(HeaderError::UnknownChecksum));
    assert_eq!(write_head_with(&NAME, b"Q4 four blocks, but only one"), Err(HeaderError::Truncated));
    assert_eq!(write_head_with(&NAME, b"Q3 three, and only one.........."), Err(HeaderError::Truncated));
}
