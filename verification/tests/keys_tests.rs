use seglog::keys::{decode_key, encode_key};

#[test]
fn encodes_big_endian_fixed_width() {
    assert_eq!(encode_key(1), vec![0, 0, 0, 0, 0, 0, 0, 1]);
    assert_eq!(encode_key(256), vec![0, 0, 0, 0, 0, 0, 1, 0]);
    assert_eq!(encode_key(0), vec![0; 8]);
    assert_eq!(
        encode_key(i64::MAX),
        vec![0x7f, 0xff, 0xff, 0xff, 0xff, 0xff, 0xff, 0xff]
    );
    assert_eq!(encode_key(-1), vec![0xff; 8]);
}

#[test]
fn decode_inverts_encode() {
    for n in [0i64, 1, 2, 255, 256, 65535, 1 << 40, i64::MAX, -1, i64::MIN] {
        let k = encode_key(n);
        assert_eq!(decode_key(&k), Some(n));
    }
}

#[test]
fn decode_rejects_wrong_length() {
    assert_eq!(decode_key(&[]), None);
    assert_eq!(decode_key(&[1, 2, 3]), None);
    assert_eq!(decode_key(&[0; 9]), None);
}

#[test]
fn byte_order_matches_numeric_order() {
    let mut prev = encode_key(0);
    for n in [1i64, 2, 255, 256, 257, 65536, 1 << 30, 1 << 50, i64::MAX] {
        let cur = encode_key(n);
        assert!(prev.as_slice() < cur.as_slice());
        prev = cur;
    }
}
