use zumble::varint::{decode_varint, encode_varint, varint_to_bytes};

fn round_trip(n: i64) {
    let bytes = varint_to_bytes(n);
    assert_eq!(decode_varint(&bytes, 0), Some((n, bytes.len())));
}

#[test]
fn varint_round_trip_listed_values() {
    for n in [0i64, 1, 127, 128, 16383, 16384, (1i64 << 32) - 1, 1i64 << 53, -1, -42] {
        round_trip(n);
    }
}

#[test]
fn varint_round_trip_extremes() {
    for n in [i64::MAX, i64::MIN, -4, -5, 0x1F_FFFF, 0x20_0000, 0x0FFF_FFFF, 0x1000_0000] {
        round_trip(n);
    }
}

#[test]
fn varint_exact_bytes() {
    assert_eq!(varint_to_bytes(0), vec![0x00]);
    assert_eq!(varint_to_bytes(127), vec![0x7F]);
    assert_eq!(varint_to_bytes(128), vec![0x80, 0x80]);
    assert_eq!(varint_to_bytes(16383), vec![0xBF, 0xFF]);
    assert_eq!(varint_to_bytes(16384), vec![0xC0, 0x40, 0x00]);
    assert_eq!(varint_to_bytes(0x1000_0000), vec![0xF0, 0x10, 0x00, 0x00, 0x00]);
    assert_eq!(varint_to_bytes(1i64 << 32), vec![0xF4, 0, 0, 0, 1, 0, 0, 0, 0]);
    assert_eq!(varint_to_bytes(-1), vec![0xFC]);
    assert_eq!(varint_to_bytes(-4), vec![0xFF]);
    assert_eq!(varint_to_bytes(-42), vec![0xF8, 41]);
}

#[test]
fn varint_appends_after_existing_bytes() {
    let mut out = vec![9u8, 9];
    encode_varint(300, &mut out);
    assert_eq!(out, vec![9, 9, 0x81, 0x2C]);
    assert_eq!(decode_varint(&out, 2), Some((300, 4)));
}

#[test]
fn varint_truncated_input_is_rejected() {
    assert_eq!(decode_varint(&[0x80], 0), None);
    assert_eq!(decode_varint(&[0xF0, 1, 2], 0), None);
    assert_eq!(decode_varint(&[], 0), None);
    assert_eq!(decode_varint(&[0xF8], 0), None);
}

#[test]
fn varint_top_bit_of_long_form_reads_negative() {
    let bytes = [0xF4u8, 0xFF, 0xFF, 0xFF, 0xFF, 0xFF, 0xFF, 0xFF, 0xFF];
    assert_eq!(decode_varint(&bytes, 0), Some((-1, 9)));
}
