use delay_store::error::StoreError;
use delay_store::storage::byte_order::comes_before;
use delay_store::storage::db_server::Key;

const ID: u128 = 0xa1a2a3a4b1b2c1c2d1d2d3d4d5d6d7d8;
const ID_TEXT: &str = "a1a2a3a4-b1b2-c1c2-d1d2-d3d4d5d6d7d8";

#[test]
fn key_text_is_biased_hex_separator_and_identifier() {
    assert_eq!(
        Key::with_id(1681825478, ID).to_string(),
        "80000000643e9ec6:a1a2a3a4-b1b2-c1c2-d1d2-d3d4d5d6d7d8"
    );
    assert_eq!(
        Key::with_id(0, 1).to_string(),
        "8000000000000000:00000000-0000-0000-0000-000000000001"
    );
    assert_eq!(
        Key::with_id(-1, u128::MAX).to_string(),
        "7fffffffffffffff:ffffffff-ffff-ffff-ffff-ffffffffffff"
    );
}

#[test]
fn key_text_at_the_ends_of_the_range() {
    assert_eq!(Key::with_id(i64::MIN, ID).to_string(), format!("0000000000000000:{}", ID_TEXT));
    assert_eq!(Key::with_id(i64::MAX, ID).to_string(), format!("ffffffffffffffff:{}", ID_TEXT));
}

#[test]
fn key_text_has_fixed_width() {
    for ts in [i64::MIN, -1_000_000, -5, -1, 0, 1, 9, 10, 99, 100, 1683165053, i64::MAX] {
        assert_eq!(Key::new(ts).to_string().len(), 53);
    }
}

#[test]
fn key_round_trip() {
    for ts in [i64::MIN, -1683165053, -5, -1, 0, 1, 9, 10, 1681825478, i64::MAX] {
        for id in [0u128, 1, ID, u128::MAX] {
            let key = Key::with_id(ts, id);
            let back = Key::from_str(&key.to_string()).unwrap();
            assert_eq!(back, key);
            assert_eq!(back.delay_timestamp, ts);
            assert_eq!(back.uuid, id);
        }
    }
}

#[test]
fn fresh_key_has_a_random_identifier() {
    let a = Key::new(-7);
    let b = Key::new(-7);
    assert_eq!(a.delay_timestamp, -7);
    assert_ne!(a.uuid, b.uuid);
    for key in [a, b] {
        assert_eq!((key.uuid >> 76) & 0xf, 4);
        assert_eq!((key.uuid >> 62) & 0x3, 2);
        assert_eq!(key.to_string().as_bytes()[17 + 14], b'4');
    }
}

#[test]
fn fresh_key_round_trip() {
    let key = Key::new(1683165053);
    assert_eq!(key.delay_timestamp, 1683165053);
    assert_eq!(Key::from_str(&key.to_string()).unwrap(), key);
}

#[test]
fn from_str_reads_timestamp_and_identifier() {
    let key = Key::from_str("8000000064530f7d:a1a2a3a4-b1b2-c1c2-d1d2-d3d4d5d6d7d8").unwrap();
    assert_eq!(key.delay_timestamp, 1683165053);
    assert_eq!(key.uuid, ID);
    let key = Key::from_str("7ffffffffffffffb:00000000-0000-0000-0000-000000000001").unwrap();
    assert_eq!(key.delay_timestamp, -5);
    assert_eq!(key.uuid, 1);
}

#[test]
fn from_str_rejects_malformed_keys() {
    let bad = [
        "",
        ":",
        "8000000064530f7d",
        "8000000064530f7d:",
        "1683165053:a1a2a3a4-b1b2-c1c2-d1d2-d3d4d5d6d7d8",
        "8000000064530f7d-a1a2a3a4-b1b2-c1c2-d1d2-d3d4d5d6d7d8",
        "8000000064530F7D:a1a2a3a4-b1b2-c1c2-d1d2-d3d4d5d6d7d8",
        "8000000064530f7g:a1a2a3a4-b1b2-c1c2-d1d2-d3d4d5d6d7d8",
        "8000000064530f7d:A1A2A3A4-B1B2-C1C2-D1D2-D3D4D5D6D7D8",
        "8000000064530f7d:a1a2a3a4b1b2c1c2d1d2d3d4d5d6d7d8",
        "8000000064530f7d:a1a2a3a4b1b2c1c2d1d2d3d4d5d6d7d80000",
        "8000000064530f7d:{a1a2a3a4-b1b2-c1c2-d1d2-d3d4d5d6d7d8}",
        "8000000064530f7d:a1a2a3a4-b1b2-c1c2-d1d2-d3d4d5d6d7dz",
        "8000000064530f7d:a1a2a3a4-b1b2-c1c2-d1d2-d3d4d5d6d7d8:x",
        "8000000064530f7d:a1a2a3a4-b1b2-c1c2-d1d2-d3d4d5d6d7d",
        " 8000000064530f7d:a1a2a3a4-b1b2-c1c2-d1d2-d3d4d5d6d7d8",
        "8000000064530f7d:a1a2a3a4-b1b2-c1c2-d1d2-d3d4d5d6d7d\u{e9}",
        "\u{4e2d}000000064530f7d:a1a2a3a4-b1b2-c1c2-d1d2-d3d4d5d6d7d8",
    ];
    for text in bad {
        assert_eq!(Key::from_str(text), Err(StoreError::MalformedKey), "{:?}", text);
    }
}

#[test]
fn earlier_due_time_has_smaller_key_bytes() {
    let times =
        [i64::MIN, -1683165053, -10, -9, -5, -1, 0, 1, 9, 10, 99, 100, 1683165053, i64::MAX];
    for (i, a) in times.iter().enumerate() {
        for b in &times[i + 1..] {
            for (ida, idb) in [(u128::MAX, 0u128), (0, u128::MAX), (ID, ID)] {
                let ka = Key::with_id(*a, ida).to_string();
                let kb = Key::with_id(*b, idb).to_string();
                assert!(ka.as_bytes() < kb.as_bytes(), "{} {}", a, b);
                assert!(comes_before(ka.as_bytes(), kb.as_bytes()));
                assert!(!comes_before(kb.as_bytes(), ka.as_bytes()));
            }
        }
    }
}

#[test]
fn same_due_time_orders_by_identifier() {
    let ids = [0u128, 1, 0xf, 0x10, 1 << 32, 1 << 48, 1 << 64, 1 << 80, 1 << 96, ID, u128::MAX];
    for (i, a) in ids.iter().enumerate() {
        for b in &ids[i + 1..] {
            let ka = Key::with_id(-42, *a).to_string();
            let kb = Key::with_id(-42, *b).to_string();
            assert!(comes_before(ka.as_bytes(), kb.as_bytes()), "{} {}", a, b);
            assert!(ka < kb);
        }
    }
}

#[test]
fn same_due_time_different_identifiers_different_keys() {
    let a = Key::with_id(1681825478, 1).to_string();
    let b = Key::with_id(1681825478, 2).to_string();
    assert_ne!(a, b);
    let c = Key::new(1681825478).to_string();
    let d = Key::new(1681825478).to_string();
    assert_ne!(c, d);
    assert_eq!(&c[..17], &d[..17]);
}

#[test]
fn comes_before_is_lexicographic() {
    assert!(comes_before(b"", b"a"));
    assert!(!comes_before(b"", b""));
    assert!(!comes_before(b"a", b""));
    assert!(comes_before(b"a", b"ab"));
    assert!(!comes_before(b"ab", b"a"));
    assert!(comes_before(b"ab", b"b"));
    assert!(comes_before(b"10", b"9"));
    assert!(!comes_before(b"abc", b"abc"));
    assert!(comes_before(&[0x7f], &[0x80]));
    assert!(comes_before(&[1, 2, 3], &[1, 2, 4]));
    assert!(!comes_before(&[1, 2, 4], &[1, 2, 3]));
}
