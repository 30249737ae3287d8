//! The cache entry stream: round trips, header tampering, version skew,
//! corrupt-tail recovery, and the on-disk byte layout.

use disson::cache::file::{magic, file_name, FileCache, FileCacheEntry};
use disson::cache::{CacheError, CacheKey, CacheValue};
use disson::codec::encode_key;
use disson::map::{CacheKey as MapCacheKey, CacheValue as MapCacheValue, Config, ViewTransform};
use disson::tile_renderer::{TileRange, Vec2u};
use bincode::Options;
use sha2::Digest;

fn range(px: u32, py: u32, sx: u32, sy: u32) -> TileRange {
    TileRange { pos: Vec2u { x: px, y: py }, size: Vec2u { x: sx, y: sy } }
}

fn block(px: u32, py: u32, sx: u32, sy: u32, fill: u64) -> CacheValue {
    let data: Vec<u64> = (0..(sx as u64 * sy as u64)).map(|i| fill.wrapping_add(i)).collect();
    CacheValue::MapDomain(MapCacheValue::Block(range(px, py, sx, sy), data))
}

fn test_key() -> CacheKey {
    let cfg = Config {
        size: Vec2u { x: 256, y: 256 },
        view: ViewTransform::identity(),
        base_hz_bits: 440.0f64.to_bits(),
        pitch: disson::algo::PitchCurve::Erb,
        overlap: disson::algo::OverlapCurve::ExpDiss,
    };
    CacheKey::MapDomain(MapCacheKey(cfg))
}

fn fresh_entry(version: &[u8]) -> FileCacheEntry {
    let cache = FileCache(None);
    cache.entry(&test_key(), version.to_vec())
}

fn unwrap_block(v: CacheValue) -> (TileRange, Vec<u64>) {
    match v.into_map().unwrap() {
        MapCacheValue::Block(r, d) => (r, d),
        MapCacheValue::Histogram => panic!("expected a block"),
    }
}

#[test]
fn magic_layout_is_bit_exact() {
    let m = magic(&b"1.2.3".to_vec());
    assert_eq!(m, vec![0u8, b'd', b'i', b's', b's', 5, b'1', b'.', b'2', b'.', b'3']);
}

#[test]
fn stream_round_trip_returns_appends_in_order() {
    let version = b"1.0.0";
    let mut w = fresh_entry(version);
    let b1 = block(0, 0, 2, 2, 10);
    let b2 = block(2, 0, 2, 2, 99);
    let hist = CacheValue::MapDomain(MapCacheValue::Histogram);
    w.append(&b1);
    w.append(&b2);
    w.append(&hist);
    let image = w.finish().expect("an image to persist");

    let mut r = fresh_entry(version);
    r.open(image).expect("header must verify");
    let vals = r.read();
    assert_eq!(vals.len(), 3);
    let (r1, d1) = unwrap_block(vals[0].clone());
    assert_eq!(r1, range(0, 0, 2, 2));
    assert_eq!(d1, vec![10, 11, 12, 13]);
    let (r2, d2) = unwrap_block(vals[1].clone());
    assert_eq!(r2, range(2, 0, 2, 2));
    assert_eq!(d2, vec![99, 100, 101, 102]);
    assert!(matches!(vals[2].clone().into_map().unwrap(), MapCacheValue::Histogram));
}

#[test]
fn multi_session_round_trip() {
    let version = b"1.0.0";
    let mut w = fresh_entry(version);
    w.append(&block(0, 0, 1, 1, 7));
    let image1 = w.finish().unwrap();

    let mut w2 = fresh_entry(version);
    w2.open(image1).unwrap();
    let first = w2.read();
    assert_eq!(first.len(), 1);
    w2.append(&block(1, 0, 1, 1, 8));
    let image2 = w2.finish().unwrap();

    let mut r = fresh_entry(version);
    r.open(image2).unwrap();
    let vals = r.read();
    assert_eq!(vals.len(), 2);
    assert_eq!(unwrap_block(vals[0].clone()).1, vec![7]);
    assert_eq!(unwrap_block(vals[1].clone()).1, vec![8]);
}

#[test]
fn header_tamper_fails_the_read() {
    let version = b"1.0.0";
    let mut w = fresh_entry(version);
    w.append(&block(0, 0, 1, 1, 1));
    let image = w.finish().unwrap();

    // Flip one byte inside the magic region.
    let mut bad = image.clone();
    bad[2] ^= 0xff;
    let mut r = fresh_entry(version);
    assert_eq!(r.open(bad).unwrap_err(), CacheError::MagicMismatch);

    // Flip one byte inside the key-bytes region (just after the magic).
    let magic_len = magic(&version.to_vec()).len();
    let mut bad2 = image.clone();
    bad2[magic_len + 3] ^= 0xff;
    let mut r2 = fresh_entry(version);
    assert_eq!(r2.open(bad2).unwrap_err(), CacheError::KeyMismatch);

    // The untampered image still opens.
    let mut ok = fresh_entry(version);
    assert!(ok.open(image).is_ok());
}

#[test]
fn truncated_image_is_too_short() {
    let version = b"1.0.0";
    let mut r = fresh_entry(version);
    assert_eq!(r.open(vec![0u8, b'd']).unwrap_err(), CacheError::TooShort);
}

#[test]
fn version_skew_fails_read_and_append_restarts() {
    let mut w = fresh_entry(b"1.0.0");
    w.append(&block(0, 0, 1, 1, 5));
    let image = w.finish().unwrap();

    // Reading under a new version is a cache miss.
    let mut r = fresh_entry(b"2.0.0");
    assert_eq!(r.open(image).unwrap_err(), CacheError::MagicMismatch);

    // Appending on the unopened entry starts a fresh file under the new
    // magic, which then reads back cleanly under that version.
    w = r;
    w.append(&block(0, 0, 1, 1, 6));
    let image2 = w.finish().unwrap();
    let mut r2 = fresh_entry(b"2.0.0");
    r2.open(image2).unwrap();
    let vals = r2.read();
    assert_eq!(vals.len(), 1);
    assert_eq!(unwrap_block(vals[0].clone()).1, vec![6]);
}

#[test]
fn corrupt_tail_salvages_and_recovers() {
    let version = b"1.0.0";
    // Two sessions: one block each.
    let mut w = fresh_entry(version);
    w.append(&block(0, 0, 2, 1, 40));
    let image1 = w.finish().unwrap();
    let mut w2 = fresh_entry(version);
    w2.open(image1).unwrap();
    assert_eq!(w2.read().len(), 1);
    w2.append(&block(2, 0, 2, 1, 50));
    let mut image2 = w2.finish().unwrap();

    // Truncate one byte in the middle of the second frame.
    image2.pop();
    let mut r = fresh_entry(version);
    r.open(image2).unwrap();
    let vals = r.read();
    // The first session's block survives; the second frame is corrupt.
    assert_eq!(vals.len(), 1);
    assert_eq!(unwrap_block(vals[0].clone()).1, vec![40, 41]);

    // The entry recovered into a streaming state: a subsequent append
    // overwrites the corrupt tail cleanly.
    r.append(&block(4, 0, 2, 1, 60));
    let image3 = r.finish().unwrap();
    let mut r2 = fresh_entry(version);
    r2.open(image3).unwrap();
    let vals2 = r2.read();
    assert_eq!(vals2.len(), 2);
    assert_eq!(unwrap_block(vals2[0].clone()).1, vec![40, 41]);
    assert_eq!(unwrap_block(vals2[1].clone()).1, vec![60, 61]);
}

#[test]
fn key_encoding_matches_reference_serializer() {
    // The canonical key serialization: variable-width integers, 64-bit
    // little-endian floats, checked against an independent serializer over
    // the equivalent plain tuple.
    let key = test_key();
    let ours = encode_key(&key);
    let view: [[f64; 3]; 3] = [[1.0, 0.0, 0.0], [0.0, 1.0, 0.0], [0.0, 0.0, 1.0]];
    let reference: Vec<u8> = {
        let opts = bincode::options().with_varint_encoding().reject_trailing_bytes();
        let tuple = (0u32, (256u32, 256u32), view, 440.0f64, 1u32, 0u32);
        opts.serialize(&tuple).unwrap()
    };
    assert_eq!(ours, reference);
}

#[test]
fn record_encoding_matches_reference_serializer() {
    // One appended block record, fixed-width encoding: present marker,
    // envelope tag, block tag, range, length, samples.
    let version = b"9.9.9";
    let mut w = fresh_entry(version);
    w.append(&block(1, 2, 2, 1, 0x0102030405060708));
    let image = w.finish().unwrap();
    let header_len = magic(&version.to_vec()).len() + encode_key(&test_key()).len();
    let plain = zstd::stream::decode_all(std::io::Cursor::new(&image[header_len..])).unwrap();
    let reference: Vec<u8> = {
        let opts = bincode::options().with_fixint_encoding().reject_trailing_bytes();
        let payload: Vec<f64> = vec![
            f64::from_bits(0x0102030405060708),
            f64::from_bits(0x0102030405060709),
        ];
        let record = (1u8, 0u32, 0u32, (1u32, 2u32, 2u32, 1u32), payload);
        let mut bytes = opts.serialize(&record).unwrap();
        bytes.push(0);  // the stream sentinel
        bytes
    };
    assert_eq!(plain, reference);
}

#[test]
fn entry_path_is_the_hex_fingerprint() {
    let key = test_key();
    let (dir, file) = FileCache::entry_rel_path(&key);
    let expected = sha2::Sha256::digest(&encode_key(&key));
    let hex: String = expected.iter().map(|b| format!("{:02x}", b)).collect();
    assert_eq!(String::from_utf8(dir).unwrap(), hex[0..2].to_string());
    assert_eq!(String::from_utf8(file).unwrap(), hex[2..].to_string());
}

#[test]
fn file_name_splits_first_byte() {
    let hash: Vec<u8> = vec![0xab, 0x01, 0xff];
    let (dir, file) = file_name(&hash);
    assert_eq!(dir, b"ab".to_vec());
    assert_eq!(file, b"01ff".to_vec());
}

#[test]
fn truncate_discards_all_records() {
    let version = b"1.0.0";
    let mut w = fresh_entry(version);
    w.append(&block(0, 0, 1, 1, 3));
    w.truncate();
    let image = w.finish().unwrap();
    let mut r = fresh_entry(version);
    r.open(image).unwrap();
    assert_eq!(r.read().len(), 0);
}

#[test]
fn an_empty_entry_reads_no_records() {
    let version = b"1.0.0";
    let mut w = fresh_entry(version);
    w.truncate();
    let image = w.finish().unwrap();
    let mut r = fresh_entry(version);
    r.open(image).unwrap();
    assert_eq!(r.read().len(), 0);
}
