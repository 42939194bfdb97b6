use numtoa::convert::convert_mag;
use numtoa::convert::lookup;
use numtoa::convert::reverse;
use numtoa::convert::write_digits_rev;
use numtoa::convert::write_digits_rev_base10;

/// The reference algorithm: one digit per division, least-significant
/// first, exactly as the generic path and the model define it.
fn naive_digits_rev(mut value: u64, base: u64) -> Vec<u8> {
    let table = b"0123456789ABCDEFGHIJKLMNOPQRSTUVWXYZ";
    let mut out = Vec::new();
    while value != 0 {
        out.push(table[(value % base) as usize]);
        value /= base;
    }
    out
}

#[test]
fn fast_path_matches_naive_reference() {
    let values: [u64; 12] = [
        1,
        9,
        10,
        99,
        100,
        9999,
        10000,
        10001,
        162392,
        99999999,
        12345678901234567,
        u64::MAX,
    ];
    for &value in values.iter() {
        let mut fast = [0u8; 24];
        let n = write_digits_rev_base10(value, &mut fast);
        assert_eq!(&fast[0..n], naive_digits_rev(value, 10).as_slice());
    }
}

#[test]
fn fast_path_matches_generic_path() {
    for value in 1u64..3000 {
        let mut fast = [0u8; 24];
        let mut slow = [0u8; 24];
        let n = write_digits_rev_base10(value, &mut fast);
        let m = write_digits_rev(value, 10, &mut slow);
        assert_eq!(n, m);
        assert_eq!(&fast[0..n], &slow[0..m]);
    }
}

#[test]
fn generic_path_matches_naive_reference() {
    for &base in [2u64, 8, 16, 36].iter() {
        for value in [1u64, 35, 36, 255, 162392, u64::MAX].iter().copied() {
            let mut out = [0u8; 64];
            let n = write_digits_rev(value, base, &mut out);
            assert_eq!(&out[0..n], naive_digits_rev(value, base).as_slice());
        }
    }
}

#[test]
fn reverse_swaps_only_the_prefix() {
    let mut buffer = [1u8, 2, 3, 4, 5, 6];
    reverse(&mut buffer, 4);
    assert_eq!(buffer, [4, 3, 2, 1, 5, 6]);

    let mut buffer = [1u8, 2, 3];
    reverse(&mut buffer, 3);
    assert_eq!(buffer, [3, 2, 1]);

    let mut buffer = [7u8, 8];
    reverse(&mut buffer, 0);
    assert_eq!(buffer, [7, 8]);

    let mut buffer = [7u8, 8];
    reverse(&mut buffer, 1);
    assert_eq!(buffer, [7, 8]);
}

#[test]
fn lookup_covers_the_whole_table() {
    let table = b"0123456789ABCDEFGHIJKLMNOPQRSTUVWXYZ";
    for digit in 0u64..36 {
        assert_eq!(lookup(digit), table[digit as usize]);
    }
}

#[test]
fn convert_mag_handles_sign_and_zero() {
    let mut buffer = [0u8; 24];

    let len = convert_mag(0, false, 36, &mut buffer);
    assert_eq!(&buffer[0..len], b"0");

    let len = convert_mag(6235, true, 10, &mut buffer);
    assert_eq!(&buffer[0..len], b"-6235");

    let len = convert_mag(9223372036854775808, true, 10, &mut buffer);
    assert_eq!(&buffer[0..len], b"-9223372036854775808");
}
