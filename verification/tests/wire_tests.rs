use mcserv::wire;
use mcserv::wire::Wire;
use mcserv::types::V3;

fn encode_varint(n: u32) -> Vec<u8> {
    let mut out: Vec<u8> = Vec::new();
    wire::put_varint(&mut out, n);
    out
}

#[test]
fn varint_encode_small() {
    assert_eq!(encode_varint(0), vec![0]);
    assert_eq!(encode_varint(1), vec![1]);
    assert_eq!(encode_varint(127), vec![127]);
    assert_eq!(encode_varint(128), vec![0x80, 0x01]);
    assert_eq!(encode_varint(300), vec![0xAC, 0x02]);
    assert_eq!(encode_varint(0xFFFF_FFFF), vec![0xFF, 0xFF, 0xFF, 0xFF, 0x0F]);
}

#[test]
fn varint_round_trip_many() {
    let samples: [u32; 12] = [
        0,
        1,
        127,
        128,
        255,
        300,
        16383,
        16384,
        2097151,
        2097152,
        0x0FFF_FFFF,
        0xFFFF_FFFF,
    ];
    for &n in samples.iter() {
        let enc = encode_varint(n);
        assert!(enc.len() <= 5);
        let (m, rest) = wire::varint(&enc).expect("round trip decodes");
        assert_eq!(m, n);
        assert!(rest.is_empty());
    }
}

#[test]
fn varint_round_trip_with_tail() {
    let mut enc = encode_varint(777);
    enc.push(0xAB);
    enc.push(0xCD);
    let (m, rest) = wire::varint(&enc).expect("decodes");
    assert_eq!(m, 777);
    assert_eq!(rest, &[0xAB, 0xCD]);
}

#[test]
fn varint_truncated_continuation_fails() {
    // four continuation bytes and nothing after them: not enough input
    assert!(wire::varint(&[0x80, 0x80, 0x80, 0x80]).is_none());
    assert!(wire::varint(&[]).is_none());
}

#[test]
fn varint_five_bytes_all_continuation_stops() {
    // a fifth byte ends the read even with its high bit set
    let (n, rest) = wire::varint(&[0xFF, 0xFF, 0xFF, 0xFF, 0xFF, 0x01]).expect("stops at 5");
    assert_eq!(n, 0xFFFF_FFFF);
    assert_eq!(rest, &[0x01]);
}

#[test]
fn byte_and_flag() {
    assert_eq!(wire::byte(&[9, 1]), Some((9u8, &[1u8][..])));
    assert!(wire::byte(&[]).is_none());
    assert_eq!(wire::bool(&[0, 7]), Some((false, &[7u8][..])));
    assert_eq!(wire::bool(&[2]), Some((true, &[][..])));
}

#[test]
fn big_endian_decoders() {
    let (x, rest) = wire::be_u16(&[0x12, 0x34, 0x56]).unwrap();
    assert_eq!(x, 0x1234);
    assert_eq!(rest, &[0x56]);
    let (y, _) = wire::be_i16(&[0xFF, 0xFE]).unwrap();
    assert_eq!(y, -2);
    let (z, _) = wire::be_u64(&[1, 2, 3, 4, 5, 6, 7, 8]).unwrap();
    assert_eq!(z, 0x0102030405060708);
    assert!(wire::be_u64(&[1, 2, 3]).is_none());
}

#[test]
fn str_decoding() {
    // varint length 3, then the payload, then a tail
    let buf = [3u8, 10, 20, 30, 40];
    let (payload, rest) = wire::str(&buf).unwrap();
    assert_eq!(payload, &[10, 20, 30]);
    assert_eq!(rest, &[40]);
    // declared length exceeds what is left
    assert!(wire::str(&[5u8, 1, 2]).is_none());
}

#[test]
fn packed_position_round_trip() {
    let cases = [
        V3 { x: 0, y: 0, z: 0 },
        V3 { x: 100, y: 64, z: -100 },
        V3 { x: -1, y: -1, z: -1 },
        V3 { x: 0x1FF_FFFF, y: 0x7FF, z: -0x200_0000 },
        V3 { x: -0x200_0000, y: -0x800, z: 0x1FF_FFFF },
    ];
    for &p in cases.iter() {
        let word = wire::pos_encode(p);
        let mut bytes: Vec<u8> = Vec::new();
        wire::put_u64(&mut bytes, word);
        let (q, rest) = wire::pos(&bytes).unwrap();
        assert_eq!(q, p);
        assert!(rest.is_empty());
    }
}

#[test]
fn pos_needs_eight_bytes() {
    assert!(wire::pos(&[0, 0, 0]).is_none());
}

#[test]
fn put_encoders_exact() {
    let mut out: Vec<u8> = Vec::new();
    wire::put_u16(&mut out, 0xABCD);
    assert_eq!(out, vec![0xAB, 0xCD]);
    out.clear();
    wire::put_u32(&mut out, 0x01020304);
    assert_eq!(out, vec![1, 2, 3, 4]);
    out.clear();
    wire::put_i32(&mut out, -1);
    assert_eq!(out, vec![0xFF, 0xFF, 0xFF, 0xFF]);
    out.clear();
    wire::put_u64(&mut out, 0x1122334455667788);
    assert_eq!(out, vec![0x11, 0x22, 0x33, 0x44, 0x55, 0x66, 0x77, 0x88]);
    out.clear();
    wire::put_str(&mut out, &[7, 8]);
    assert_eq!(out, vec![2, 7, 8]);
}

#[test]
fn var_byte_len_matches_encoding() {
    for &n in [0u32, 127, 128, 16383, 16384, 0xFFFF_FFFF].iter() {
        let v = wire::var(n);
        assert_eq!(v.byte_len(), encode_varint(n).len());
        let mut out: Vec<u8> = Vec::new();
        v.encode(&mut out);
        assert_eq!(out, encode_varint(n));
    }
}

#[test]
fn typed_decode_through_the_trait() {
    let (b, rest) = <u8 as Wire>::decode(&[7, 1]).unwrap();
    assert_eq!((b, rest), (7u8, &[1u8][..]));
    assert!(<u8 as Wire>::decode(&[]).is_err());
    assert_eq!(<bool as Wire>::decode(&[1]).unwrap().0, true);
    assert_eq!(<bool as Wire>::decode(&[0]).unwrap().0, false);
    // the typed flag is strict: two does not name a truth value
    assert!(<bool as Wire>::decode(&[2]).is_err());
    assert_eq!(<u16 as Wire>::decode(&[1, 2]).unwrap().0, 0x0102);
    assert_eq!(<i16 as Wire>::decode(&[0xFF, 0xFF]).unwrap().0, -1);
    let v = <mcserv::wire::var as Wire>::decode(&[0xAC, 0x02]).unwrap().0;
    assert_eq!(v.0, 300);
    assert!(matches!(
        <mcserv::types::Hand as Wire>::decode(&[1]).unwrap().0,
        mcserv::types::Hand::Secondary
    ));
    assert!(<mcserv::types::Hand as Wire>::decode(&[9]).is_err());
    let word = mcserv::wire::pos_encode(V3 { x: 3, y: -2, z: -7 });
    let p = <mcserv::wire::Position as Wire>::decode(&word.to_be_bytes()).unwrap().0;
    assert_eq!(p.0, V3 { x: 3, y: -2, z: -7 });
}
