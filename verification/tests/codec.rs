use cachekv::AdaptToDb;

#[test]
fn u64_round_trip() {
    for x in [0u64, 1, 255, 256, u64::MAX, 0x0123_4567_89ab_cdef] {
        let bytes = x.to_db();
        assert_eq!(bytes.len(), 8);
        assert_eq!(u64::from_db(&bytes).unwrap(), x);
    }
}

#[test]
fn u64_exact_bytes() {
    assert_eq!((0x0102_0304_0506_0708u64).to_db(), vec![1, 2, 3, 4, 5, 6, 7, 8]);
    assert_eq!((0u64).to_db(), vec![0; 8]);
    assert_eq!(u64::MAX.to_db(), vec![0xff; 8]);
}

#[test]
fn u32_u16_u8_round_trip() {
    assert_eq!(u32::from_db(&0xdead_beefu32.to_db()).unwrap(), 0xdead_beef);
    assert_eq!(u16::from_db(&0xbeefu16.to_db()).unwrap(), 0xbeef);
    assert_eq!(u8::from_db(&0x7fu8.to_db()).unwrap(), 0x7f);
    assert_eq!(0xbeefu16.to_db(), vec![0xbe, 0xef]);
}

#[test]
fn signed_round_trip() {
    for x in [i64::MIN, -1, 0, 1, i64::MAX, -123_456_789] {
        assert_eq!(i64::from_db(&x.to_db()).unwrap(), x);
    }
    for x in [i32::MIN, -1, 0, 1, i32::MAX] {
        assert_eq!(i32::from_db(&x.to_db()).unwrap(), x);
    }
}

#[test]
fn narrow_signed_round_trip() {
    for x in [i16::MIN, -1i16, 0, 1, i16::MAX] {
        assert_eq!(i16::from_db(&x.to_db()).unwrap(), x);
    }
    for x in [i8::MIN, -1i8, 0, 1, i8::MAX] {
        assert_eq!(i8::from_db(&x.to_db()).unwrap(), x);
    }
    assert!((-5i16).to_db() < 5i16.to_db());
    assert!((-5i8).to_db() < 5i8.to_db());
}

#[test]
fn string_round_trip() {
    for s in ["", "a", "hello world", "naïve — ünïcødé", "zero\u{0}inside"] {
        let owned = s.to_string();
        let bytes = owned.to_db();
        assert_eq!(String::from_db(&bytes).unwrap(), owned);
    }
}

#[test]
fn bytes_round_trip() {
    for v in [vec![], vec![0u8], vec![0, 1, 2, 255, 254], vec![0, 0, 255, 0]] {
        let bytes = v.to_db();
        assert_eq!(<Vec<u8>>::from_db(&bytes).unwrap(), v);
    }
}

#[test]
fn bytes_exact_wire_form() {
    // Plain bytes stand as themselves; zero bytes are escaped; a two-byte
    // terminator ends the payload.
    assert_eq!(vec![97u8, 98].to_db(), vec![97, 98, 0, 0]);
    assert_eq!(Vec::<u8>::new().to_db(), vec![0, 0]);
    assert_eq!(vec![0u8].to_db(), vec![0, 255, 0, 0]);
    assert_eq!("ab".to_string().to_db(), vec![97, 98, 0, 0]);
}

#[test]
fn order_preserved_bytes_and_strings() {
    // Domain order is plain byte-lexicographic order, and the encodings
    // order the same way: a shorter key that is a prefix of a longer one
    // comes first, and contents decide otherwise.
    assert!(vec![97u8, 97] < vec![98u8]);
    assert!(vec![97u8, 97].to_db() < vec![98u8].to_db());
    assert!(vec![97u8].to_db() < vec![97u8, 97].to_db());
    assert!(vec![0u8].to_db() < vec![0u8, 0].to_db());
    assert!(vec![0u8, 5].to_db() < vec![1u8].to_db());

    let samples = ["", "a", "aa", "ab", "b", "ba", "z"];
    for x in samples {
        for y in samples {
            assert_eq!(
                x < y,
                x.to_string().to_db() < y.to_string().to_db(),
                "order mismatch for {x:?} vs {y:?}"
            );
        }
    }
}

#[test]
fn pair_round_trip() {
    let p = ("section one".to_string(), 42u64);
    let bytes = p.to_db();
    let back: (String, u64) = <(String, u64)>::from_db(&bytes).unwrap();
    assert_eq!(back, p);

    let q = ((1u64, 2u64), "x".to_string());
    let back2: ((u64, u64), String) = <((u64, u64), String)>::from_db(&q.to_db()).unwrap();
    assert_eq!(back2, q);
}

#[test]
fn order_preserved_unsigned() {
    // Domain order equals byte-lexicographic order of the encodings.
    let samples = [0u64, 1, 2, 255, 256, 65535, 1 << 32, u64::MAX - 1, u64::MAX];
    for a in samples {
        for b in samples {
            assert_eq!(a < b, a.to_db() < b.to_db(), "order mismatch for {a} vs {b}");
        }
    }
}

#[test]
fn order_preserved_signed() {
    let samples = [i64::MIN, -1_000_000, -1, 0, 1, 1_000_000, i64::MAX];
    for a in samples {
        for b in samples {
            assert_eq!(a < b, a.to_db() < b.to_db(), "order mismatch for {a} vs {b}");
        }
    }
}

#[test]
fn order_preserved_pairs() {
    // Composite keys order by their first component, then the second.
    let a = (1u64, 9u64).to_db();
    let b = (2u64, 0u64).to_db();
    let c = (2u64, 1u64).to_db();
    assert!(a < b);
    assert!(b < c);
}

#[test]
fn decode_rejects_short_input() {
    assert!(u64::from_db(&[1, 2, 3]).is_err());
    assert!(String::from_db(&[0, 0, 0]).is_err());
    // An unterminated payload is rejected.
    assert!(String::from_db(&[104, 105]).is_err());
    assert!(<Vec<u8>>::from_db(&[104, 105, 0]).is_err());
    // So is a dangling or invalid escape.
    assert!(<Vec<u8>>::from_db(&[0]).is_err());
    assert!(<Vec<u8>>::from_db(&[0, 7, 0, 0]).is_err());
}

#[test]
fn decode_rejects_trailing_bytes() {
    let mut bytes = 7u64.to_db();
    bytes.push(0);
    assert!(u64::from_db(&bytes).is_err());
}

#[test]
fn decode_rejects_invalid_text() {
    // A well-delimited payload that is not UTF-8 is no string.
    assert!(String::from_db(&[0xff, 0xfe, 0, 0]).is_err());
    // The same bytes are a perfectly good raw-byte value.
    assert_eq!(<Vec<u8>>::from_db(&[0xff, 0xfe, 0, 0]).unwrap(), vec![0xff, 0xfe]);
}

#[test]
fn prefix_decode_consumes_exactly_one_value() {
    let mut bytes = 5u64.to_db();
    let mut rest = "tail".to_string().to_db();
    bytes.append(&mut rest);
    let (x, n) = u64::from_db_prefix(&bytes).unwrap();
    assert_eq!(x, 5);
    assert_eq!(n, 8);
    let (s, m) = String::from_db_prefix(&bytes[n..]).unwrap();
    assert_eq!(s, "tail");
    assert_eq!(n + m, bytes.len());
}
