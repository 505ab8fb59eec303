//! Tests of the stream header parser, the block header parser and the
//! stream driver.

use xz_framing::counting_reader::CountingReader;
use xz_framing::parse_block_header;
use xz_framing::parse_xz_block;
use xz_framing::parse_xz_stream;
use xz_framing::CheckType;
use xz_framing::HeaderKind;
use xz_framing::HeaderSize;
use xz_framing::XZBlockFlags;
use xz_framing::XZErrorKind;
use xz_framing::XZStreamHeader;

const MAGIC: [u8; 6] = [0xFD, 0x37, 0x7A, 0x58, 0x5A, 0x00];

fn stream_header_bytes(flags_hi: u8, flags_lo: u8) -> Vec<u8> {
    let mut v = MAGIC.to_vec();
    v.push(flags_hi);
    v.push(flags_lo);
    v.extend_from_slice(&[0x11, 0x22, 0x33, 0x44]);
    v
}

#[test]
fn stream_header_reports_each_check_type() {
    for (nibble, expected) in [
        (0x00u8, CheckType::NoCheck),
        (0x01, CheckType::CRC32),
        (0x04, CheckType::CRC64),
        (0x0A, CheckType::SHA256),
    ] {
        let mut r = CountingReader::new(stream_header_bytes(0x00, nibble));
        let h = XZStreamHeader::from_reader(&mut r).unwrap();
        assert_eq!(h.check_type(), Some(expected));
        assert_eq!(r.count(), 12);
    }
}

#[test]
fn stream_header_undefined_check_code_is_absent() {
    for nibble in [0x02u8, 0x03, 0x05, 0x0F] {
        let mut r = CountingReader::new(stream_header_bytes(0x00, nibble));
        let h = XZStreamHeader::from_reader(&mut r).unwrap();
        assert_eq!(h.check_type(), None);
    }
}

#[test]
fn stream_header_crc_field_is_read_uninterpreted() {
    let mut r = CountingReader::new(stream_header_bytes(0x00, 0x01));
    let h = XZStreamHeader::from_reader(&mut r).unwrap();
    assert_eq!(h.crc.get(), 0x44332211);
    assert_eq!(h.flags.get(), 0x0001);
}

#[test]
fn stream_header_crc_can_be_cross_checked() {
    // the parser reads the CRC field uninterpreted; a caller can hold
    // it against the CRC-32 of the two flag bytes
    let flag_bytes = vec![0x00u8, 0x01];
    let expected = xz_framing::crc::crc32(&flag_bytes, 0);
    let mut bytes = MAGIC.to_vec();
    bytes.extend_from_slice(&flag_bytes);
    bytes.extend_from_slice(&expected.to_le_bytes());
    let mut r = CountingReader::new(bytes);
    let h = XZStreamHeader::from_reader(&mut r).unwrap();
    assert_eq!(h.crc.get(), expected);
}

#[test]
fn stream_header_reserved_bits_rejected() {
    // any bit of the high byte
    let mut r = CountingReader::new(stream_header_bytes(0x01, 0x00));
    let e = XZStreamHeader::from_reader(&mut r).unwrap_err();
    assert_eq!(e.kind, XZErrorKind::InvalidFlags);
    // bits 4 to 7 of the low byte
    for lo in [0x10u8, 0x20, 0x40, 0x80, 0xF0] {
        let mut r = CountingReader::new(stream_header_bytes(0x00, lo));
        let e = XZStreamHeader::from_reader(&mut r).unwrap_err();
        assert_eq!(e.kind, XZErrorKind::InvalidFlags);
    }
}

#[test]
fn stream_header_magic_mismatch_at_each_position() {
    for i in 0..6 {
        let mut bytes = stream_header_bytes(0x00, 0x00);
        bytes[i] ^= 0xFF;
        let mut r = CountingReader::new(bytes);
        let e = XZStreamHeader::from_reader(&mut r).unwrap_err();
        assert_eq!(e.kind, XZErrorKind::InvalidHeaderMagic);
        assert_eq!(r.count(), 12);
    }
}

#[test]
fn stream_header_truncated_input() {
    let mut r = CountingReader::new(MAGIC.to_vec());
    let e = XZStreamHeader::from_reader(&mut r).unwrap_err();
    assert_eq!(e.kind, XZErrorKind::IO);
    assert_eq!(r.count(), 6);
}

#[test]
fn check_sizes() {
    assert_eq!(CheckType::NoCheck.check_size(), 0);
    assert_eq!(CheckType::CRC32.check_size(), 4);
    assert_eq!(CheckType::CRC64.check_size(), 8);
    assert_eq!(CheckType::SHA256.check_size(), 32);
}

#[test]
fn header_size_disambiguation() {
    assert_eq!(HeaderSize(0).disambiguate(), HeaderKind::Index);
    assert_eq!(HeaderSize(1).disambiguate(), HeaderKind::Block(8));
    assert_eq!(HeaderSize(2).disambiguate(), HeaderKind::Block(12));
    assert_eq!(HeaderSize(255).disambiguate(), HeaderKind::Block(1024));
}

#[test]
fn block_flags_bits() {
    assert!(XZBlockFlags(0x00).is_ok());
    assert!(!XZBlockFlags(0x04).is_ok());
    assert!(!XZBlockFlags(0x20).is_ok());
    assert_eq!(XZBlockFlags(0x00).num_filters(), 1);
    assert_eq!(XZBlockFlags(0x03).num_filters(), 4);
    assert!(XZBlockFlags(0x40).has_compressed_size());
    assert!(!XZBlockFlags(0x40).has_uncompressed_size());
    assert!(XZBlockFlags(0x80).has_uncompressed_size());
}

#[test]
fn block_header_single_filter() {
    // header size 12: flags, then 10 staging bytes of one filter with a
    // one-byte property, three padding zeros and the CRC
    let bytes = vec![
        0x00, // flags: one filter, no size fields
        0x21, 0x01, 0x5A, // filter id 0x21, propsize 1, one property byte
        0x00, 0x00, 0x00, // padding
        0x01, 0x02, 0x03, 0x04, // CRC, little endian
    ];
    let mut r = CountingReader::new(bytes);
    let h = parse_block_header(&mut r, 12).unwrap();
    assert_eq!(h.size, 12);
    assert_eq!(h.flags, XZBlockFlags(0x00));
    assert_eq!(h.csized, None);
    assert_eq!(h.usized, None);
    assert_eq!(h.filter_flags.len(), 1);
    assert_eq!(h.filter_flags[0].id, 0x21);
    assert_eq!(h.filter_flags[0].propsize, 1);
    assert_eq!(h.filter_flags[0].props, vec![0x5A]);
    assert_eq!(h.crc, 0x04030201);
    assert_eq!(r.count(), 11);
}

#[test]
fn block_header_with_size_fields() {
    // flags 0xC0: compressed and uncompressed sizes present
    let bytes = vec![
        0xC0, // flags
        0xAC, 0x02, // compressed size 300
        0x05, // uncompressed size 5
        0x21, 0x00, // filter id 0x21, no properties
        0x00, // padding
        0xAA, 0xBB, 0xCC, 0xDD, // CRC
    ];
    let mut r = CountingReader::new(bytes);
    let h = parse_block_header(&mut r, 12).unwrap();
    assert_eq!(h.csized, Some(300));
    assert_eq!(h.usized, Some(5));
    assert_eq!(h.filter_flags.len(), 1);
    assert_eq!(h.filter_flags[0].id, 0x21);
    assert_eq!(h.filter_flags[0].props, Vec::<u8>::new());
    assert_eq!(h.crc, 0xDDCCBBAA);
}

#[test]
fn block_header_reserved_flag_bits_rejected() {
    for fl in [0x04u8, 0x08, 0x10, 0x20, 0x3C] {
        let mut r = CountingReader::new(vec![fl, 0, 0, 0, 0, 0, 0]);
        let e = parse_block_header(&mut r, 8).unwrap_err();
        assert_eq!(e.kind, XZErrorKind::InvalidFlags);
        assert_eq!(r.count(), 1);
    }
}

#[test]
fn block_header_nonzero_padding_rejected() {
    // the single-filter header again, with one padding byte corrupted
    for pad in 4..7 {
        let mut bytes = vec![
            0x00, 0x21, 0x01, 0x5A, 0x00, 0x00, 0x00, 0x01, 0x02, 0x03, 0x04,
        ];
        bytes[pad] = 0x07;
        let mut r = CountingReader::new(bytes);
        let e = parse_block_header(&mut r, 12).unwrap_err();
        assert_eq!(e.kind, XZErrorKind::BadPadding);
        assert_eq!(r.count(), 11);
    }
}

#[test]
fn block_header_too_little_room_for_crc() {
    // header size 8 leaves six staging bytes; the filter's declared
    // three property bytes leave only one, fewer than a CRC needs
    let bytes = vec![0x00, 0x21, 0x03, 0xAA, 0xBB, 0xCC, 0xDD];
    let mut r = CountingReader::new(bytes);
    let e = parse_block_header(&mut r, 8).unwrap_err();
    assert_eq!(e.kind, XZErrorKind::BadPadding);
    assert_eq!(r.count(), 7);
}

#[test]
fn block_header_overlong_varint_rejected() {
    let mut bytes = vec![0x40]; // compressed size present
    bytes.extend_from_slice(&[0x80; 10]); // ten continuation bytes
    bytes.extend_from_slice(&[0x00; 20]);
    let mut r = CountingReader::new(bytes);
    let e = parse_block_header(&mut r, 32).unwrap_err();
    assert_eq!(e.kind, XZErrorKind::Varint);
    assert_eq!(r.count(), 31);
}

#[test]
fn block_header_truncated_source() {
    let mut r = CountingReader::new(vec![0x00, 0x21]);
    let e = parse_block_header(&mut r, 12).unwrap_err();
    assert_eq!(e.kind, XZErrorKind::IO);
    assert_eq!(r.count(), 2);
}

#[test]
fn parse_block_discards_header() {
    let bytes = vec![
        0x00, 0x21, 0x01, 0x5A, 0x00, 0x00, 0x00, 0x01, 0x02, 0x03, 0x04,
    ];
    let mut r = CountingReader::new(bytes);
    assert!(parse_xz_block(&mut r, 12).is_ok());
    assert_eq!(r.count(), 11);
}

#[test]
fn stream_with_one_block_consumes_exactly_its_bytes() {
    // magic, flags declaring CRC32, arbitrary header CRC, then one
    // 8-byte block header and the index marker: 12 + 8 + 1 bytes
    let mut bytes = stream_header_bytes(0x00, 0x01);
    bytes.extend_from_slice(&[
        0x01, // header size byte: (1 + 1) * 4 = 8
        0x00, // block flags: one filter, no size fields
        0x00, 0x00, // filter id 0 with no properties
        0x09, 0x08, 0x07, 0x06, // block header CRC, arbitrary
        0x00, // index marker
    ]);
    assert_eq!(bytes.len(), 21);
    let mut r = CountingReader::new(bytes);
    assert!(parse_xz_stream(&mut r).is_ok());
    assert_eq!(r.count(), 21);
}

#[test]
fn stream_with_no_blocks() {
    let mut bytes = stream_header_bytes(0x00, 0x00);
    bytes.push(0x00); // index marker right away
    let mut r = CountingReader::new(bytes);
    assert!(parse_xz_stream(&mut r).is_ok());
    assert_eq!(r.count(), 13);
}

#[test]
fn stream_trailing_bytes_after_index_stay_unread() {
    let mut bytes = stream_header_bytes(0x00, 0x00);
    bytes.push(0x00);
    bytes.extend_from_slice(&[0xDE, 0xAD]);
    let mut r = CountingReader::new(bytes);
    assert!(parse_xz_stream(&mut r).is_ok());
    assert_eq!(r.count(), 13);
}

#[test]
fn stream_errors_carry_their_offset() {
    // bad magic: detected after the 12 header bytes were read
    let mut bytes = stream_header_bytes(0x00, 0x00);
    bytes[3] = 0x99;
    let mut r = CountingReader::new(bytes);
    let e = parse_xz_stream(&mut r).unwrap_err();
    assert_eq!(e.kind, XZErrorKind::InvalidHeaderMagic);
    assert_eq!(e.location, Some(12));

    // bad block flags: header, size byte, flags byte
    let mut bytes = stream_header_bytes(0x00, 0x00);
    bytes.push(0x01);
    bytes.push(0x3C);
    let mut r = CountingReader::new(bytes);
    let e = parse_xz_stream(&mut r).unwrap_err();
    assert_eq!(e.kind, XZErrorKind::InvalidFlags);
    assert_eq!(e.location, Some(14));

    // exhausted before the block header ends
    let mut bytes = stream_header_bytes(0x00, 0x00);
    bytes.push(0x01);
    bytes.push(0x00);
    let mut r = CountingReader::new(bytes);
    let e = parse_xz_stream(&mut r).unwrap_err();
    assert_eq!(e.kind, XZErrorKind::IO);
    assert_eq!(e.location, Some(14));

    // empty stream
    let mut r = CountingReader::new(Vec::new());
    let e = parse_xz_stream(&mut r).unwrap_err();
    assert_eq!(e.kind, XZErrorKind::IO);
    assert_eq!(e.location, Some(0));
}

#[test]
fn stream_nonzero_padding_located() {
    let mut bytes = stream_header_bytes(0x00, 0x01);
    bytes.extend_from_slice(&[
        0x02, // header size byte: 12
        0x00, // block flags
        0x00, 0x00, // filter id 0, no properties
        0x00, 0xFF, 0x00, 0x00, // padding with a nonzero byte
        0x01, 0x02, 0x03, 0x04, // CRC
    ]);
    let mut r = CountingReader::new(bytes);
    let e = parse_xz_stream(&mut r).unwrap_err();
    assert_eq!(e.kind, XZErrorKind::BadPadding);
    assert_eq!(e.location, Some(24));
}
