//! Tests of the leaf codecs: fixed-width endian fields, varints, CRCs.

use xz_framing::crc::crc32;
use xz_framing::crc::crc64;
use xz_framing::endianness::u16be;
use xz_framing::endianness::u32be;
use xz_framing::endianness::u32le;
use xz_framing::varint;
use xz_framing::varint::PartialVarInt;
use xz_framing::varint::VarintResult;
use xz_framing::XZErrorKind;

#[test]
fn it_works() {
    assert_eq!(u32::from_ne_bytes(u32be::new(4).0), u32::to_be(4));
}

#[test]
fn endian_fields_round_trip() {
    assert_eq!(u16be::new(0x1234).0, [0x12, 0x34]);
    assert_eq!(u16be::new(0x1234).get(), 0x1234);
    assert_eq!(u32be::new(0xDEADBEEF).0, [0xDE, 0xAD, 0xBE, 0xEF]);
    assert_eq!(u32be::new(0xDEADBEEF).get(), 0xDEADBEEF);
    assert_eq!(u32le::new(0xDEADBEEF).0, [0xEF, 0xBE, 0xAD, 0xDE]);
    assert_eq!(u32le::new(0xDEADBEEF).get(), 0xDEADBEEF);
    let mut f = u16be::new(0);
    f.set(0xA05);
    assert_eq!(f.0, [0x0A, 0x05]);
    assert_eq!(f.get(), 0xA05);
    let mut g = u32le::new(0);
    g.set(0x01020304);
    assert_eq!(g.0, [0x04, 0x03, 0x02, 0x01]);
    assert_eq!(g.get(), 0x01020304);
}

#[test]
fn varint_encodings() {
    assert_eq!(varint::encode(0), vec![0x00]);
    assert_eq!(varint::encode(5), vec![0x05]);
    assert_eq!(varint::encode(127), vec![0x7F]);
    assert_eq!(varint::encode(128), vec![0x80, 0x01]);
    assert_eq!(varint::encode(300), vec![0xAC, 0x02]);
    let max = varint::encode(u64::MAX);
    assert_eq!(max.len(), 10);
    assert_eq!(&max[0..9], &[0xFF; 9]);
    assert_eq!(max[9], 0x01);
}

#[test]
fn varint_round_trips() {
    for v in [
        0u64,
        1,
        127,
        128,
        129,
        300,
        16383,
        16384,
        0x7FFF_FFFF,
        0x8000_0000,
        u64::MAX - 1,
        u64::MAX,
    ] {
        let bytes = varint::encode(v);
        let mut pos: usize = 0;
        let got = varint::from_reader(&bytes, &mut pos).unwrap();
        assert_eq!(got, v);
        assert_eq!(pos, bytes.len());
    }
}

#[test]
fn varint_ignores_trailing_bytes() {
    let mut bytes = varint::encode(300);
    bytes.push(0x77);
    bytes.push(0xFF);
    let mut pos: usize = 0;
    assert_eq!(varint::from_reader(&bytes, &mut pos).unwrap(), 300);
    assert_eq!(pos, 2);
}

#[test]
fn varint_ten_continuation_bytes_fail() {
    let bytes = vec![0x80u8; 10];
    let mut pos: usize = 0;
    let err = varint::from_reader(&bytes, &mut pos).unwrap_err();
    assert_eq!(err.kind, XZErrorKind::Varint);
    assert_eq!(err.location, None);
    assert_eq!(pos, 10);
}

#[test]
fn varint_exhausted_source_fails() {
    let bytes = vec![0x80u8, 0x80];
    let mut pos: usize = 0;
    let err = varint::from_reader(&bytes, &mut pos).unwrap_err();
    assert_eq!(err.kind, XZErrorKind::IO);
    assert_eq!(pos, 2);
}

#[test]
fn varint_state_machine_steps() {
    match PartialVarInt::empty().continue_parsing(0x05) {
        VarintResult::Full(v) => assert_eq!(v, 5),
        _ => panic!("expected a completed value"),
    }
    let partial = match PartialVarInt::empty().continue_parsing(0x81) {
        VarintResult::Partial(p) => p,
        _ => panic!("expected a partial value"),
    };
    let full = partial.continue_parsing(0x01);
    assert_eq!(full.unwrap(), 129);
}

#[test]
fn crc32_known_values() {
    let check = b"123456789".to_vec();
    assert_eq!(crc32(&check, 0), 0xCBF43926);
    assert_eq!(crc32(&Vec::new(), 0), 0);
}

#[test]
fn crc32_incremental() {
    let head = b"1234".to_vec();
    let tail = b"56789".to_vec();
    assert_eq!(crc32(&tail, crc32(&head, 0)), 0xCBF43926);
}

#[test]
fn crc64_known_values() {
    let check = b"123456789".to_vec();
    assert_eq!(crc64(&check, 0), 0x995DC9BBDF1939FA);
    assert_eq!(crc64(&Vec::new(), 0), 0);
}

#[test]
fn crc64_incremental() {
    let head = b"12345".to_vec();
    let tail = b"6789".to_vec();
    assert_eq!(crc64(&tail, crc64(&head, 0)), 0x995DC9BBDF1939FA);
}
