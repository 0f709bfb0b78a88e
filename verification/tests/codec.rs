use kamilata::codec::{
    decode_bytes, decode_le, decode_str, decode_varint, encode_bytes, encode_le, encode_str,
    encode_varint,
};

#[test]
fn varint_roundtrip() {
    for v in [0u64, 1, 127, 128, 300, 16_383, 16_384, u64::MAX] {
        let mut out: Vec<u8> = Vec::new();
        encode_varint(&mut out, v);
        let (back, pos) = decode_varint(&out, 0).expect("own encoding decodes");
        assert_eq!(back, v);
        assert_eq!(pos, out.len());
    }
}

#[test]
fn varint_known_bytes() {
    let mut out: Vec<u8> = Vec::new();
    encode_varint(&mut out, 300);
    assert_eq!(out, vec![0b1010_1100, 0b0000_0010]);
    let mut out: Vec<u8> = Vec::new();
    encode_varint(&mut out, 1);
    assert_eq!(out, vec![1]);
}

#[test]
fn varint_empty_input() {
    let buf: Vec<u8> = Vec::new();
    assert!(decode_varint(&buf, 0).is_none());
}

#[test]
fn le_roundtrip() {
    let mut out: Vec<u8> = Vec::new();
    encode_le(&mut out, 0x0102_0304, 4);
    assert_eq!(out, vec![4, 3, 2, 1]);
    let (back, pos) = decode_le(&out, 0, 4).expect("four bytes are there");
    assert_eq!(back, 0x0102_0304);
    assert_eq!(pos, 4);
    assert!(decode_le(&out, 1, 4).is_none());
}

#[test]
fn bytes_roundtrip() {
    let payload = vec![9u8, 8, 7, 6, 5];
    let mut out: Vec<u8> = Vec::new();
    encode_bytes(&mut out, &payload);
    let (back, pos) = decode_bytes(&out, 0).expect("own encoding decodes");
    assert_eq!(back, payload);
    assert_eq!(pos, out.len());

    let truncated: Vec<u8> = out[..out.len() - 1].to_vec();
    assert!(decode_bytes(&truncated, 0).is_none());
}

#[test]
fn str_roundtrip() {
    let mut out: Vec<u8> = Vec::new();
    encode_str(&mut out, "for Vendetta");
    let (back, pos) = decode_str(&out, 0).expect("own encoding decodes");
    assert_eq!(back, "for Vendetta");
    assert_eq!(pos, out.len());
}
