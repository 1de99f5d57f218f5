//! Wire primitives, text and order.
use oktz_signal::map::StringMap;
use oktz_signal::session::ChainKey;
use oktz_signal::text::{to_decimal, with_number};
use oktz_signal::util::{b64, unb64};
use oktz_signal::wire::{
    read_bytes, read_tag, read_u32, read_varint, skip_field, write_bytes, write_tag, write_varint,
};

#[test]
fn varints_round_trip() {
    for v in [0u64, 1, 127, 128, 300, 16383, 16384, u32::MAX as u64, u64::MAX - 1, u64::MAX] {
        let mut buf = vec![0xEE];
        write_varint(&mut buf, v);
        buf.push(0x99);
        let mut pos = 1;
        assert_eq!(read_varint(&buf, &mut pos).unwrap(), v);
        assert_eq!(pos, buf.len() - 1);
    }
}

#[test]
fn varint_known_answers() {
    let mut buf = Vec::new();
    write_varint(&mut buf, 300);
    assert_eq!(buf, vec![0xAC, 0x02]);
    let mut buf = Vec::new();
    write_varint(&mut buf, u64::MAX);
    assert_eq!(buf, vec![0xFF, 0xFF, 0xFF, 0xFF, 0xFF, 0xFF, 0xFF, 0xFF, 0xFF, 0x01]);
}

#[test]
fn a_tenth_byte_counts_its_low_bit() {
    let bytes = [0xFF, 0xFF, 0xFF, 0xFF, 0xFF, 0xFF, 0xFF, 0xFF, 0xFF, 0x7F];
    let mut pos = 0;
    assert_eq!(read_varint(&bytes, &mut pos).unwrap(), u64::MAX);
    let bytes = [0x80, 0x80, 0x80, 0x80, 0x80, 0x80, 0x80, 0x80, 0x80, 0x02];
    let mut pos = 0;
    assert_eq!(read_varint(&bytes, &mut pos).unwrap(), 0);
}

#[test]
fn reading_behind_the_end_is_an_error() {
    let mut pos = 5;
    assert_eq!(read_varint(&[1, 2], &mut pos).unwrap_err(), "varint truncated at byte 5");
    let mut pos = 5;
    assert_eq!(skip_field(&[1, 2], &mut pos, 1).unwrap_err(), "fixed64 field truncated");
}

#[test]
fn errors_leave_the_position_where_reading_stopped() {
    // The bytes run out inside the varint.
    let mut pos = 1;
    assert!(read_varint(&[0, 0x80, 0x80], &mut pos).is_err());
    assert_eq!(pos, 3);
    // It starts behind the end.
    let mut pos = 7;
    assert!(read_varint(&[0x80], &mut pos).is_err());
    assert_eq!(pos, 7);
    // It is too long.
    let mut pos = 1;
    assert_eq!(read_varint(&[0xFF; 20], &mut pos).unwrap_err(), "varint too long");
    assert_eq!(pos, 11);
    // Its length is too large.
    let mut pos = 0;
    assert_eq!(
        read_bytes(&[0x81, 0x01, 7], &mut pos).unwrap_err(),
        "bytes field truncated at byte 2"
    );
    assert_eq!(pos, 2);
    let mut pos = 0;
    assert_eq!(read_tag(&[0x02, 9], &mut pos).unwrap_err(), "invalid field number 0");
    assert_eq!(pos, 1);
    let mut pos = 0;
    assert!(read_u32(&[0x80], &mut pos).is_err());
    assert_eq!(pos, 1);
}

#[test]
fn skipping_in_vain_leaves_the_position() {
    let bytes = [0x80, 0x80, 0x80];
    for (wire, stop) in [(0, 3), (1, 1), (2, 3), (3, 1), (4, 1), (5, 1), (6, 1), (7, 1), (99, 1)] {
        let mut pos = 1;
        assert!(skip_field(&bytes, &mut pos, wire).is_err());
        assert_eq!(pos, stop, "wire type {}", wire);
    }
}

#[test]
fn bytes_and_tags_round_trip() {
    let mut buf = Vec::new();
    write_tag(&mut buf, 4, 2);
    write_bytes(&mut buf, &[7; 200]);
    write_tag(&mut buf, 536870911, 5);
    let mut pos = 0;
    assert_eq!(read_tag(&buf, &mut pos).unwrap(), (4, 2));
    assert_eq!(read_bytes(&buf, &mut pos).unwrap(), vec![7; 200]);
    assert_eq!(read_tag(&buf, &mut pos).unwrap(), (536870911, 5));
    assert_eq!(pos, buf.len());
}

#[test]
fn skipping_goes_behind_the_payload() {
    let bytes = [0xAC, 0x02, 1, 2, 3, 4, 5, 6, 7, 8, 9];
    let mut pos = 0;
    skip_field(&bytes, &mut pos, 0).unwrap();
    assert_eq!(pos, 2);
    skip_field(&bytes, &mut pos, 1).unwrap();
    assert_eq!(pos, 10);
    let mut pos = 3;
    skip_field(&bytes, &mut pos, 2).unwrap();
    assert_eq!(pos, 6);
    skip_field(&bytes, &mut pos, 5).unwrap();
    assert_eq!(pos, 10);
    assert_eq!(skip_field(&bytes, &mut pos, 6).unwrap_err(), "unsupported wire type 6");
}

#[test]
fn u32_reads_the_low_half() {
    let mut buf = Vec::new();
    write_varint(&mut buf, 0x1_2345_6789);
    let mut pos = 0;
    assert_eq!(read_u32(&buf, &mut pos).unwrap(), 0x2345_6789);
}

#[test]
fn decimals() {
    assert_eq!(to_decimal(0), "0");
    assert_eq!(to_decimal(10), "10");
    assert_eq!(to_decimal(u64::MAX), "18446744073709551615");
    assert_eq!(with_number("at ", 907), "at 907");
}

#[test]
fn base64_known_answers() {
    assert_eq!(b64(b""), "");
    assert_eq!(b64(b"hello"), "aGVsbG8=");
    assert_eq!(b64(&[0xFB, 0xFF]), "+/8=");
    assert_eq!(unb64("aGVsbG8=").unwrap(), b"hello".to_vec());
    assert_eq!(unb64("").unwrap(), Vec::<u8>::new());
    assert_eq!(unb64("aGVsbG8").unwrap_err(), "Invalid padding");
    assert_eq!(unb64("aGVs bG8=").unwrap_err(), "Invalid symbol 32, offset 4.");
}

#[test]
fn base64_round_trips() {
    for n in 0..70usize {
        let data: Vec<u8> = (0..n).map(|i| (i * 37 + n) as u8).collect();
        assert_eq!(b64(&data).len(), (n + 2) / 3 * 4);
        assert_eq!(unb64(&b64(&data)).unwrap(), data);
    }
}

fn key(n: i64) -> ChainKey {
    ChainKey { counter: n, key: format!("k{}", n) }
}

#[test]
fn maps_are_walked_in_byte_order() {
    let mut m: StringMap<ChainKey> = StringMap::new();
    assert!(m.is_empty());
    let words = ["b", "a", "aa", "", "Z", "\u{e9}", "z", "+", "a\u{1F600}"];
    for (i, w) in words.iter().enumerate() {
        m.insert(w.to_string(), key(i as i64));
    }
    let mut sorted: Vec<&str> = words.to_vec();
    sorted.sort();
    assert_eq!(m.len(), words.len());
    for (i, w) in sorted.iter().enumerate() {
        assert_eq!(m.key_at(i), w);
        assert_eq!(m.value_at(i), m.get(w).unwrap());
    }
}

#[test]
fn maps_replace_and_remove() {
    let mut m: StringMap<ChainKey> = StringMap::new();
    m.insert("x".to_string(), key(1));
    m.insert("y".to_string(), key(2));
    m.insert("x".to_string(), key(3));
    assert_eq!(m.len(), 2);
    assert_eq!(m.get("x"), Some(&key(3)));
    assert!(m.contains_key("y"));
    let copy = m.clone();
    assert_eq!(m.remove("x"), Some(key(3)));
    assert_eq!(m.remove("x"), None);
    assert_eq!(m.len(), 1);
    assert_eq!(m.get("x"), None);
    assert_eq!(copy.len(), 2);
    assert_eq!(copy.get("x"), Some(&key(3)));
}
