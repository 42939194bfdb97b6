use numtoa::NumToA;

#[test]
fn base10_u32() {
    let mut buffer = [0u8; 20];
    let len = 162392u32.numtoa(10, &mut buffer);
    assert_eq!(&buffer[0..len], "162392".as_bytes());
    assert_eq!(len, 6);
}

#[test]
fn base10_negative_i32() {
    let mut buffer = [0u8; 20];
    let len = (-6235i32).numtoa(10, &mut buffer);
    assert_eq!(&buffer[0..len], "-6235".as_bytes());
    assert_eq!(len, 5);
}

#[test]
fn base10_u64_max() {
    let mut buffer = [0u8; 20];
    let len = 18446744073709551615u64.numtoa(10, &mut buffer);
    assert_eq!(&buffer[0..len], "18446744073709551615".as_bytes());
    assert_eq!(len, 20);
}

#[test]
fn base16_u8_max() {
    let mut buffer = [0u8; 20];
    let len = 255u8.numtoa(16, &mut buffer);
    assert_eq!(&buffer[0..len], "FF".as_bytes());
    assert_eq!(len, 2);
}

#[test]
fn base2_zero_i32() {
    let mut buffer = [0u8; 20];
    let len = 0i32.numtoa(2, &mut buffer);
    assert_eq!(&buffer[0..len], "0".as_bytes());
    assert_eq!(len, 1);
}

#[test]
fn zero_in_every_base() {
    for base in 2u32..=36 {
        let mut buffer = [0u8; 8];
        let len = 0u32.numtoa(base, &mut buffer);
        assert_eq!(len, 1);
        assert_eq!(&buffer[0..len], b"0");
    }
}

#[test]
fn round_trip_many_values_and_bases() {
    let values: [i64; 12] = [
        1,
        -1,
        7,
        -36,
        35,
        36,
        37,
        123456789,
        -987654321,
        i64::MAX,
        i64::MIN + 1,
        i64::MIN,
    ];
    for &value in values.iter() {
        for base in 2u32..=36 {
            let mut buffer = [0u8; 80];
            let len = value.numtoa(base as i64, &mut buffer);
            let text = std::str::from_utf8(&buffer[0..len]).unwrap();
            assert_eq!(i64::from_str_radix(text, base), Ok(value));
        }
    }
}

#[test]
fn round_trip_unsigned() {
    let values: [u64; 7] = [1, 9, 10, 255, 4096, 99999999, u64::MAX];
    for &value in values.iter() {
        for base in 2u32..=36 {
            let mut buffer = [0u8; 80];
            let len = value.numtoa(base as u64, &mut buffer);
            let text = std::str::from_utf8(&buffer[0..len]).unwrap();
            assert_eq!(u64::from_str_radix(text, base), Ok(value));
        }
    }
}

#[test]
fn sign_placement() {
    let values: [i32; 5] = [-1, -10, -6235, -99999, i32::MIN + 1];
    for &value in values.iter() {
        for base in 2u32..=36 {
            let mut with_sign = [0u8; 64];
            let mut without = [0u8; 64];
            let n = value.numtoa(base as i32, &mut with_sign);
            let m = (-value).numtoa(base as i32, &mut without);
            assert_eq!(with_sign[0], b'-');
            assert_eq!(n, m + 1);
            assert_eq!(&with_sign[1..n], &without[0..m]);
        }
    }
}

#[test]
fn length_matches_canonical_text() {
    for value in [1u32, 9, 10, 99, 100, 101, 162392, 4294967295] {
        let mut buffer = [0u8; 20];
        let len = value.numtoa(10, &mut buffer);
        let expected = value.to_string();
        assert_eq!(len, expected.len());
        assert_eq!(&buffer[0..len], expected.as_bytes());
    }
}

#[test]
fn signed_minimum_values() {
    let mut buffer = [0u8; 80];

    let len = i8::MIN.numtoa(10, &mut buffer);
    assert_eq!(&buffer[0..len], b"-128");

    let len = i16::MIN.numtoa(10, &mut buffer);
    assert_eq!(&buffer[0..len], b"-32768");

    let len = i32::MIN.numtoa(10, &mut buffer);
    assert_eq!(&buffer[0..len], b"-2147483648");

    let len = i64::MIN.numtoa(10, &mut buffer);
    assert_eq!(&buffer[0..len], b"-9223372036854775808");

    let len = isize::MIN.numtoa(10, &mut buffer);
    assert_eq!(&buffer[0..len], isize::MIN.to_string().as_bytes());

    let len = i8::MIN.numtoa(2, &mut buffer);
    assert_eq!(&buffer[0..len], b"-10000000");

    let len = i8::MIN.numtoa(16, &mut buffer);
    assert_eq!(&buffer[0..len], b"-80");
}

#[test]
fn unsigned_maximum_values() {
    let mut buffer = [0u8; 80];

    let len = u8::MAX.numtoa(10, &mut buffer);
    assert_eq!(&buffer[0..len], b"255");

    let len = u16::MAX.numtoa(10, &mut buffer);
    assert_eq!(&buffer[0..len], b"65535");

    let len = u32::MAX.numtoa(10, &mut buffer);
    assert_eq!(&buffer[0..len], b"4294967295");

    let len = u64::MAX.numtoa(10, &mut buffer);
    assert_eq!(&buffer[0..len], b"18446744073709551615");

    let len = usize::MAX.numtoa(10, &mut buffer);
    assert_eq!(&buffer[0..len], usize::MAX.to_string().as_bytes());
}

#[test]
fn base2_only_binary_digits() {
    for value in [1u32, 2, 3, 5, 128, 162392, u32::MAX] {
        let mut buffer = [0u8; 40];
        let len = value.numtoa(2, &mut buffer);
        let expected_len = 32 - value.leading_zeros() as usize;
        assert_eq!(len, expected_len);
        for &c in &buffer[0..len] {
            assert!(c == b'0' || c == b'1');
        }
    }
}

#[test]
fn base36_uses_letters() {
    let mut buffer = [0u8; 20];
    let len = 35u32.numtoa(36, &mut buffer);
    assert_eq!(&buffer[0..len], b"Z");

    let len = (36u32 * 10 + 11).numtoa(36, &mut buffer);
    assert_eq!(&buffer[0..len], b"AB");

    let len = (-35i32).numtoa(36, &mut buffer);
    assert_eq!(&buffer[0..len], b"-Z");
}

#[test]
fn all_types_base16() {
    let mut buffer = [0u8; 40];

    let len = 0x7Bu8.numtoa(16, &mut buffer);
    assert_eq!(&buffer[0..len], b"7B");

    let len = 0x1C8u16.numtoa(16, &mut buffer);
    assert_eq!(&buffer[0..len], b"1C8");

    let len = 0xDEADBEEFu32.numtoa(16, &mut buffer);
    assert_eq!(&buffer[0..len], b"DEADBEEF");

    let len = 0xCAFEBABEDEADBEEFu64.numtoa(16, &mut buffer);
    assert_eq!(&buffer[0..len], b"CAFEBABEDEADBEEF");

    let len = 0x7Fusize.numtoa(16, &mut buffer);
    assert_eq!(&buffer[0..len], b"7F");

    let len = (-0x7Bi8).numtoa(16, &mut buffer);
    assert_eq!(&buffer[0..len], b"-7B");

    let len = (-0x1C8i16).numtoa(16, &mut buffer);
    assert_eq!(&buffer[0..len], b"-1C8");

    let len = (-0x6EADBEEFi32).numtoa(16, &mut buffer);
    assert_eq!(&buffer[0..len], b"-6EADBEEF");

    let len = (-0x4AFEBABEDEADBEEFi64).numtoa(16, &mut buffer);
    assert_eq!(&buffer[0..len], b"-4AFEBABEDEADBEEF");

    let len = (-0x7Fisize).numtoa(16, &mut buffer);
    assert_eq!(&buffer[0..len], b"-7F");
}

#[test]
fn buffer_reuse_overwrites_stale_data() {
    let mut buffer = [0u8; 20];
    let len = 987654321u32.numtoa(10, &mut buffer);
    assert_eq!(&buffer[0..len], b"987654321");

    let len = 42u32.numtoa(10, &mut buffer);
    assert_eq!(&buffer[0..len], b"42");

    let len = 7u32.numtoa(2, &mut buffer);
    assert_eq!(&buffer[0..len], b"111");
}

#[test]
fn bytes_beyond_length_are_untouched() {
    let mut buffer = [0xAAu8; 20];
    let len = 255u8.numtoa(16, &mut buffer);
    assert_eq!(len, 2);
    for &c in &buffer[len..] {
        assert_eq!(c, 0xAA);
    }

    let mut buffer = [0x55u8; 20];
    let len = (-6235i32).numtoa(10, &mut buffer);
    assert_eq!(len, 5);
    for &c in &buffer[len..] {
        assert_eq!(c, 0x55);
    }
}
