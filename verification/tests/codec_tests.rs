use candy_typed::codec::Codec;
use databuf::config::num::LE;

fn db_enc<T: databuf::Encode>(v: &T) -> Vec<u8> {
    databuf::Encode::to_bytes::<LE>(v)
}

#[test]
fn round_trip_unsigned() {
    for v in [0u8, 1, 127, 255] {
        assert_eq!(u8::decode(&v.encode()).unwrap(), v);
    }
    for v in [0u16, 1, 0xC0DE, u16::MAX] {
        assert_eq!(u16::decode(&v.encode()).unwrap(), v);
    }
    for v in [0u32, 1, 0xDEAD_BEEF, u32::MAX] {
        assert_eq!(u32::decode(&v.encode()).unwrap(), v);
    }
    for v in [0u64, 1, 0x0123_4567_89AB_CDEF, u64::MAX] {
        assert_eq!(u64::decode(&v.encode()).unwrap(), v);
    }
    for v in [0u128, 1, u128::MAX] {
        assert_eq!(u128::decode(&v.encode()).unwrap(), v);
    }
    for v in [0usize, 1, usize::MAX] {
        assert_eq!(usize::decode(&v.encode()).unwrap(), v);
    }
}

#[test]
fn round_trip_signed() {
    for v in [i8::MIN, -1, 0, 1, i8::MAX] {
        assert_eq!(i8::decode(&v.encode()).unwrap(), v);
    }
    for v in [i16::MIN, -1, 0, 1, i16::MAX] {
        assert_eq!(i16::decode(&v.encode()).unwrap(), v);
    }
    for v in [i32::MIN, -1, 0, 1, i32::MAX] {
        assert_eq!(i32::decode(&v.encode()).unwrap(), v);
    }
    for v in [i64::MIN, -1, 0, 1, i64::MAX] {
        assert_eq!(i64::decode(&v.encode()).unwrap(), v);
    }
    for v in [i128::MIN, -1, 0, 1, i128::MAX] {
        assert_eq!(i128::decode(&v.encode()).unwrap(), v);
    }
    for v in [isize::MIN, -1, 0, 1, isize::MAX] {
        assert_eq!(isize::decode(&v.encode()).unwrap(), v);
    }
}

#[test]
fn round_trip_misc() {
    for v in [true, false] {
        assert_eq!(bool::decode(&v.encode()).unwrap(), v);
    }
    for v in ['\0', 'A', 'é', '☃', '🦀'] {
        assert_eq!(char::decode(&v.encode()).unwrap(), v);
    }
    for v in ["", "hi", "caffè", "日本語", "a longer string with spaces"] {
        let s = v.to_string();
        assert_eq!(String::decode(&s.encode()).unwrap(), s);
    }
    for v in [vec![], vec![0u8], vec![1, 2, 3, 255]] {
        assert_eq!(<Vec<u8>>::decode(&v.encode()).unwrap(), v);
    }
}

#[test]
fn exact_bytes() {
    assert_eq!(1u32.encode(), vec![1, 0, 0, 0]);
    assert_eq!(0xC0DEu16.encode(), vec![0xDE, 0xC0]);
    assert_eq!((-1i32).encode(), vec![0xFF, 0xFF, 0xFF, 0xFF]);
    assert_eq!(true.encode(), vec![1]);
    assert_eq!(false.encode(), vec![0]);
    assert_eq!('A'.encode(), vec![65, 0, 0, 0]);
    assert_eq!("hi".to_string().encode(), vec![2, b'h', b'i']);
    assert_eq!(vec![1u8, 2, 3].encode(), vec![3, 1, 2, 3]);
    // A 100-byte string takes the two-byte big-endian length form.
    let long = "a".repeat(100);
    let enc = long.encode();
    assert_eq!(enc[0], 0x40);
    assert_eq!(enc[1], 100);
    assert_eq!(enc.len(), 102);
}

#[test]
fn agrees_with_databuf_encoding() {
    assert_eq!(200u8.encode(), db_enc(&200u8));
    assert_eq!(0xC0DEu16.encode(), db_enc(&0xC0DEu16));
    assert_eq!(0xDEAD_BEEFu32.encode(), db_enc(&0xDEAD_BEEFu32));
    assert_eq!(u64::MAX.encode(), db_enc(&u64::MAX));
    assert_eq!(u128::MAX.encode(), db_enc(&u128::MAX));
    assert_eq!(12345usize.encode(), db_enc(&12345usize));
    assert_eq!((-5i8).encode(), db_enc(&(-5i8)));
    assert_eq!((-5i16).encode(), db_enc(&(-5i16)));
    assert_eq!((-5i32).encode(), db_enc(&(-5i32)));
    assert_eq!((-5i64).encode(), db_enc(&(-5i64)));
    assert_eq!((-5i128).encode(), db_enc(&(-5i128)));
    assert_eq!((-5isize).encode(), db_enc(&(-5isize)));
    assert_eq!(true.encode(), db_enc(&true));
    assert_eq!('☃'.encode(), db_enc(&'☃'));
    assert_eq!("héllo".to_string().encode(), db_enc(&"héllo".to_string()));
    let long = "x".repeat(20000);
    assert_eq!(long.encode(), db_enc(&long));
}

#[test]
fn decodes_databuf_encoding() {
    let b = db_enc(&0xDEAD_BEEFu32);
    assert_eq!(u32::decode(&b).unwrap(), 0xDEAD_BEEF);
    let b = db_enc(&"round trip".to_string());
    assert_eq!(String::decode(&b).unwrap(), "round trip");
    let b = db_enc(&(-77i64));
    assert_eq!(i64::decode(&b).unwrap(), -77);
    // And the other way: databuf reads back what this codec wrote.
    let b = "both ways".to_string().encode();
    assert_eq!(<String as databuf::Decode>::from_bytes::<LE>(&b).unwrap(), "both ways");
}

#[test]
fn decode_failures() {
    assert!(u32::decode(&[1, 2, 3]).is_err());
    assert!(u32::decode(&[1, 2, 3, 4, 5]).is_err());
    assert!(bool::decode(&[2]).is_err());
    assert!(bool::decode(&[]).is_err());
    // 0xD800 is a surrogate, not a scalar value.
    assert!(char::decode(&[0x00, 0xD8, 0, 0]).is_err());
    // Length prefix says one byte, but it is not valid UTF-8.
    assert!(String::decode(&[1, 0xFF]).is_err());
    // Length prefix disagrees with the remaining byte count.
    assert!(<Vec<u8>>::decode(&[5, 1, 2]).is_err());
    assert!(<Vec<u8>>::decode(&[1, 2, 3]).is_err());
    assert!(String::decode(&[]).is_err());
}

#[test]
fn round_trip_sixteen_byte_keys() {
    let id: [u8; 16] = [1, 2, 3, 4, 5, 6, 7, 8, 9, 10, 11, 12, 13, 14, 15, 16];
    assert_eq!(id.encode(), id.to_vec());
    assert_eq!(<[u8; 16]>::decode(&id.encode()).unwrap(), id);
    assert_eq!(id.encode(), db_enc(&id));
    assert!(<[u8; 16]>::decode(&[0u8; 15]).is_err());
    assert!(<[u8; 16]>::decode(&[0u8; 17]).is_err());
}
