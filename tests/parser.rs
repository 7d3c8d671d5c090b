use dht::parser::{asset_name_to_bytes, fixed_from_decimal, to_asset_name, u256_to_string};
use dht::{Error, FIXED_ONE};

fn exp10(n: u32) -> u128 {
    10u128.pow(n)
}

#[test]
fn test_u256() {
    assert_eq!(fixed_from_decimal(&1.0f64.to_string()), Ok(exp10(18)));
    assert_eq!(fixed_from_decimal(&0.1f64.to_string()), Ok(exp10(17)));
    assert_eq!(fixed_from_decimal(&1.234f64.to_string()), Ok(1234 * exp10(15)));
    assert!(
        fixed_from_decimal(&1.0f64.to_string()).unwrap()
            < fixed_from_decimal(&2.123f64.to_string()).unwrap()
    );
}

#[test]
fn test_u256_to_f64() {
    let read = |v: u128| u256_to_string(v).parse::<f64>().unwrap();
    assert_eq!(read(1000000000000000000), 1.0);
    assert_eq!(read(100000000000000000), 0.1);
    assert_eq!(read(10000000000000000), 0.01);
}

#[test]
fn test_asset_name() {
    let s_usd_raw: [u8; 32] = [
        115, 85, 83, 68, 0, 0, 0, 0, 0, 0, 0, 0, 0, 0, 0, 0, 0, 0, 0, 0, 0, 0, 0, 0, 0, 0, 0, 0,
        0, 0, 0, 0,
    ];
    assert_eq!(to_asset_name(&s_usd_raw).unwrap(), "sUSD");
    assert_eq!(asset_name_to_bytes("sUSD".to_string()).unwrap(), s_usd_raw);
}

#[test]
fn fixed_text_keeps_leading_zeros_of_fraction() {
    assert_eq!(u256_to_string(10000000000000000), "0.010000000000000000");
    assert_eq!(u256_to_string(0), "0.000000000000000000");
    assert_eq!(u256_to_string(1234 * exp10(15)), "1.234000000000000000");
    assert_eq!(u256_to_string(42 * FIXED_ONE + 7), "42.000000000000000007");
}

#[test]
fn fixed_text_of_largest_value() {
    assert_eq!(
        u256_to_string(u128::MAX),
        "340282366920938463463.374607431768211455"
    );
}

#[test]
fn decimal_text_reads_back_fixed_text() {
    for v in [0u128, 1, 10000000000000000, 455 * exp10(15), 9100 * FIXED_ONE, u128::MAX] {
        assert_eq!(fixed_from_decimal(&u256_to_string(v)), Ok(v));
    }
}

#[test]
fn decimal_text_forms() {
    assert_eq!(fixed_from_decimal("7"), Ok(7 * FIXED_ONE));
    assert_eq!(fixed_from_decimal("0.455"), Ok(455 * exp10(15)));
    assert_eq!(fixed_from_decimal("3."), Ok(3 * FIXED_ONE));
    assert_eq!(fixed_from_decimal("0.000000000000000001"), Ok(1));
}

#[test]
fn decimal_text_rejected() {
    assert_eq!(fixed_from_decimal(""), Err(Error::Encode));
    assert_eq!(fixed_from_decimal(".5"), Err(Error::Encode));
    assert_eq!(fixed_from_decimal("-1.5"), Err(Error::Encode));
    assert_eq!(fixed_from_decimal("1.2.3"), Err(Error::Encode));
    assert_eq!(fixed_from_decimal("1e-7"), Err(Error::Encode));
    assert_eq!(fixed_from_decimal("0.0000000000000000001"), Err(Error::Encode));
    assert_eq!(fixed_from_decimal("340282366920938463464"), Err(Error::Encode));
    assert_eq!(
        fixed_from_decimal("340282366920938463463.374607431768211456"),
        Err(Error::Encode)
    );
}

#[test]
fn symbol_round_trip() {
    for name in ["", "sBTC", "iLINK", "sDEFI", "ä€", "abcdefghijklmnopqrstuvwxyz012345"] {
        let raw = asset_name_to_bytes(name.to_string()).unwrap();
        assert_eq!(to_asset_name(&raw).unwrap(), name);
    }
}

#[test]
fn symbol_bytes_are_left_aligned() {
    let raw = asset_name_to_bytes("ab".to_string()).unwrap();
    assert_eq!(raw[0], b'a');
    assert_eq!(raw[1], b'b');
    assert!(raw[2..].iter().all(|&b| b == 0));
}

#[test]
fn symbol_too_long() {
    let name = "abcdefghijklmnopqrstuvwxyz0123456".to_string();
    assert_eq!(asset_name_to_bytes(name), Err(Error::Encode));
}

#[test]
fn symbol_with_leading_zero_bytes_keeps_them() {
    let mut raw = [0u8; 32];
    raw[1] = b'x';
    assert_eq!(to_asset_name(&raw).unwrap(), "\u{0}x");
}

#[test]
fn symbol_not_utf8() {
    let mut raw = [0u8; 32];
    raw[0] = 0xff;
    raw[1] = b'a';
    assert_eq!(to_asset_name(&raw), Err(Error::Decode));
}
