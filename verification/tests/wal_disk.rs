use bytes::{Bytes, BytesMut};
use dbprimkit::byteorder::ByteOrder;
use dbprimkit::wal::disk::{
    DiskBlockHeader, DiskLogEntry, DiskManiEntry, Fullness, BLOCK_HEAD_SIZE, LOG_HEAD_SIZE,
    MANI_ENTRY_SIZE,
};
use dbprimkit::Error;
use rand::RngExt;

fn test_encode_decode_disk_mani_entry() {
    let mut buf = Vec::with_capacity(MANI_ENTRY_SIZE);
    DiskManiEntry::encode(&mut buf, 0x1234567890abcdef);
    let mut buf = Bytes::from(buf);
    assert_eq!(buf.len(), MANI_ENTRY_SIZE);
    let decoded = DiskManiEntry::decode(&mut buf).unwrap();
    assert_eq!(0x1234567890abcdef, decoded.min_lsn);
}

fn test_encode_decode_disk_block_header() {
    let mut buf = Vec::with_capacity(BLOCK_HEAD_SIZE);
    DiskBlockHeader::encode(&mut buf, 0x1234567890abcdefu64);
    buf[16..24].copy_from_slice(&0xfedcba9876543210u64.to_ne_bytes());
    buf[24..32].copy_from_slice(&0x7777777788888888u64.to_ne_bytes());
    let crc = crc32c::crc32c(&buf[4..32]);
    buf[0..4].copy_from_slice(&crc.to_ne_bytes());
    assert_eq!(buf.len(), BLOCK_HEAD_SIZE);
    let mut bytes = Bytes::from(buf);
    let decoded = DiskBlockHeader::decode(&mut bytes).unwrap();
    assert_eq!(0x1234567890abcdefu64, decoded.min_lsn);
    assert_eq!(0xfedcba9876543210u64, decoded.max_lsn);
    assert_eq!(0x7777777788888888u64, decoded.whole_min_lsn);
}

fn gen_random_bytes(max_len: usize) -> Bytes {
    let mut rng = rand::rng();
    let len = rng.random_range(0..=max_len);
    let mut buf = BytesMut::zeroed(len);
    rng.fill(&mut buf);
    buf.freeze()
}

fn test_encode_decode_disk_log_entry() {
    let p1 = gen_random_bytes(64 * 1024);
    let p2 = gen_random_bytes(64 * 1024);
    let len = 2 * LOG_HEAD_SIZE + p1.len() + p2.len();
    let mut buf = Vec::with_capacity(len);
    DiskLogEntry::encode(&mut buf, 0x1234567890abcdefu64, p1.clone(), Fullness::Full);
    DiskLogEntry::encode(&mut buf, 0xfedcba9876543210u64, p2.clone(), Fullness::Middle);
    let mut bytes = Bytes::from(buf);
    let decoded1 = DiskLogEntry::decode(&mut bytes).unwrap();
    let decoded2 = DiskLogEntry::decode(&mut bytes).unwrap();
    assert_eq!(0x1234567890abcdefu64, decoded1.lsn);
    assert_eq!(p1.len() as u32, decoded1._len);
    assert_eq!(Fullness::Full, decoded1.fullness);
    assert_eq!(p1, decoded1.payload);
    assert_eq!(0xfedcba9876543210u64, decoded2.lsn);
    assert_eq!(p2.len() as u32, decoded2._len);
    assert_eq!(Fullness::Middle, decoded2.fullness);
    assert_eq!(p2, decoded2.payload);
}

#[test]
fn test_encode_decode() {
    test_encode_decode_disk_mani_entry();
    test_encode_decode_disk_block_header();
    test_encode_decode_disk_log_entry();
}

#[test]
fn native_order_is_that_of_the_machine() {
    let little = 1u16.to_ne_bytes()[0] == 1;
    assert_eq!(ByteOrder::native() == ByteOrder::Little, little);
    assert_eq!(ByteOrder::of_sample(&[1, 0]), ByteOrder::Little);
    assert_eq!(ByteOrder::of_sample(&[0, 1]), ByteOrder::Big);
}

#[test]
fn integers_in_both_orders() {
    let mut buf: Vec<u8> = vec![9];
    ByteOrder::Little.put_u32(&mut buf, 0x01020304);
    ByteOrder::Big.put_u64(&mut buf, 0x05060708090a0b0c);
    assert_eq!(buf, vec![9, 4, 3, 2, 1, 5, 6, 7, 8, 9, 10, 11, 12]);
    assert_eq!(ByteOrder::Little.get_u32(&buf, 1), 0x01020304);
    assert_eq!(ByteOrder::Big.get_u32(&buf, 1), 0x04030201);
    assert_eq!(ByteOrder::Big.get_u64(&buf, 5), 0x05060708090a0b0c);
    ByteOrder::Big.set_u32(&mut buf, 0, 7);
    ByteOrder::Little.set_u64(&mut buf, 5, 8);
    assert_eq!(buf, vec![0, 0, 0, 7, 1, 8, 0, 0, 0, 0, 0, 0, 0]);
}

#[test]
fn record_bytes() {
    let mut buf: Vec<u8> = Vec::new();
    let payload = Bytes::from_static(b"xyz");
    DiskLogEntry::encode_as(ByteOrder::Little, &mut buf, 0x0102, payload, Fullness::Last);
    assert_eq!(buf.len(), LOG_HEAD_SIZE + 3);
    assert_eq!(&buf[4..], &[3, 0, 0, 0, 2, 1, 0, 0, 0, 0, 0, 0, 0, 3, 0, 0, b'x', b'y', b'z']);
    assert_eq!(buf[..4], crc32c::crc32c(&buf[4..]).to_le_bytes());
    assert_eq!(crc32c::crc32c(b"123456789"), 0xe3069283);
}

fn decoding_error<T>(r: Result<T, Error>) -> (String, String) {
    match r {
        Err(Error::DecodingFailed(what, details)) => (what, details),
        _ => panic!("decoding did not fail as expected"),
    }
}

fn record(payload: &'static [u8]) -> Vec<u8> {
    let mut buf: Vec<u8> = Vec::new();
    DiskLogEntry::encode(&mut buf, 5, Bytes::from_static(payload), Fullness::First);
    buf
}

#[test]
fn records_that_cannot_be_decoded() {
    let good = record(b"0123456789");
    let mut short = Bytes::from(good[..LOG_HEAD_SIZE - 1].to_vec());
    let (what, details) = decoding_error(DiskLogEntry::decode(&mut short));
    assert_eq!(what, "DiskLogEntry");
    assert_eq!(details, "Buffer is too short to decode");
    assert_eq!(short.len(), LOG_HEAD_SIZE - 1);

    let mut cut = Bytes::from(good[..good.len() - 1].to_vec());
    assert_eq!(decoding_error(DiskLogEntry::decode(&mut cut)).1, "len field is too large");

    let mut bad = good.clone();
    bad[LOG_HEAD_SIZE] ^= 1;
    let mut bytes = Bytes::from(bad);
    assert_eq!(decoding_error(DiskLogEntry::decode(&mut bytes)).1, "CRC check failed");

    let mut kind = good.clone();
    kind[17] = 4;
    let crc = crc32c::crc32c(&kind[4..]);
    kind[..4].copy_from_slice(&crc.to_ne_bytes());
    let mut bytes = Bytes::from(kind);
    assert_eq!(decoding_error(DiskLogEntry::decode(&mut bytes)).1, "Invalid fullness");

    let mut more = good.clone();
    more.extend_from_slice(b"rest");
    let mut bytes = Bytes::from(more);
    let rec = DiskLogEntry::decode(&mut bytes).unwrap();
    assert_eq!(rec.lsn, 5);
    assert_eq!(rec.fullness, Fullness::First);
    assert_eq!(&rec.payload[..], b"0123456789");
    assert_eq!(&bytes[..], b"rest");
}

#[test]
fn fullness_codes() {
    let all = [Fullness::Full, Fullness::First, Fullness::Middle, Fullness::Last];
    for (i, f) in all.iter().enumerate() {
        assert_eq!(f.to_code(), i as u8);
        assert_eq!(Fullness::try_from(i as u8), Ok(*f));
    }
    assert_eq!(Fullness::try_from(4), Err(()));
}

fn header() -> Vec<u8> {
    let mut buf: Vec<u8> = Vec::new();
    DiskBlockHeader::encode(&mut buf, 3);
    buf
}

fn with_crc(mut buf: Vec<u8>) -> Bytes {
    let crc = crc32c::crc32c(&buf[4..]);
    buf[..4].copy_from_slice(&crc.to_ne_bytes());
    Bytes::from(buf)
}

#[test]
fn headers_that_cannot_be_decoded() {
    let mut short = Bytes::from(header()[..31].to_vec());
    let (what, details) = decoding_error(DiskBlockHeader::decode(&mut short));
    assert_eq!(what, "DiskBlockHeader");
    assert_eq!(details, "Buffer is too short to decode");

    let mut open = Bytes::from(header());
    assert!(matches!(DiskBlockHeader::decode(&mut open), Err(Error::CrcCheckFailed)));

    let mut ver = header();
    ver[4] = 1;
    let mut ver = with_crc(ver);
    assert_eq!(decoding_error(DiskBlockHeader::decode(&mut ver)).1, "Invalid ver");

    for i in 5..8 {
        let mut resv = header();
        resv[i] = 1;
        let mut resv = with_crc(resv);
        assert_eq!(decoding_error(DiskBlockHeader::decode(&mut resv)).1, "Invalid resv");
    }

    let mut good = with_crc(header());
    let h = DiskBlockHeader::decode(&mut good).unwrap();
    assert_eq!((h.min_lsn, h.max_lsn, h.whole_min_lsn), (3, 0, 0));
    assert_eq!(good.len(), 0);
}

#[test]
fn manifest_entries_that_cannot_be_decoded() {
    let mut buf: Vec<u8> = Vec::new();
    DiskManiEntry::encode(&mut buf, 77);
    let mut short = Bytes::from(buf[..15].to_vec());
    let (what, details) = decoding_error(DiskManiEntry::decode(&mut short));
    assert_eq!(what, "DiskManiEntry");
    assert_eq!(details, "Buffer is too short to decode");
    let mut bad = buf.clone();
    bad[9] ^= 0x80;
    let mut bad = Bytes::from(bad);
    assert_eq!(decoding_error(DiskManiEntry::decode(&mut bad)).1, "CRC check failed");
    let mut good = Bytes::from(buf);
    assert_eq!(DiskManiEntry::decode(&mut good).unwrap().min_lsn, 77);
    let none = DiskManiEntry::default();
    assert_eq!((none._crc, none._ver, none._resv, none.min_lsn), (0, 0, [0u8; 3], 0));
}
