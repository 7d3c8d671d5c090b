use dht::client::{exchange_calls, snapshot_from_chain};
use dht::parser::asset_name_to_bytes;
use dht::{Asset, Error, Swap, FIXED_ONE};

fn raw(name: &str) -> [u8; 32] {
    asset_name_to_bytes(name.to_string()).unwrap()
}

fn swap(from: &str, amount: u128, to: &str) -> Swap {
    Swap {
        from: from.to_string(),
        from_amount: amount,
        to: to.to_string(),
    }
}

#[test]
fn snapshot_zips_the_three_arrays() {
    let symbols = vec![raw("sBTC"), raw("sUSD")];
    let balances = vec![FIXED_ONE * 9 / 10, 100 * FIXED_ONE];
    let rates = vec![10000 * FIXED_ONE, FIXED_ONE];
    let snapshot = snapshot_from_chain(&symbols, &balances, &rates).unwrap();
    assert_eq!(snapshot.len(), 2);
    assert_eq!(snapshot[0].0, "sBTC");
    assert_eq!(snapshot[0].1, Asset::new((FIXED_ONE * 9 / 10) as i128, 10000 * FIXED_ONE));
    assert_eq!(snapshot[1].0, "sUSD");
    assert_eq!(snapshot[1].1, Asset::new((100 * FIXED_ONE) as i128, FIXED_ONE));
}

#[test]
fn snapshot_with_uneven_arrays() {
    let symbols = vec![raw("sBTC"), raw("sUSD")];
    let balances = vec![1];
    let rates = vec![1, 1];
    assert!(matches!(snapshot_from_chain(&symbols, &balances, &rates), Err(Error::Decode)));
}

#[test]
fn snapshot_with_bad_symbol() {
    let mut bad = [0u8; 32];
    bad[0] = 0xc3;
    let symbols = vec![raw("sBTC"), bad];
    let balances = vec![1, 2];
    let rates = vec![1, 2];
    assert!(matches!(snapshot_from_chain(&symbols, &balances, &rates), Err(Error::Decode)));
}

#[test]
fn calls_take_consecutive_nonces_in_order() {
    let swaps = vec![swap("sBTC", 5, "sUSD"), swap("sETH", 7, "sLTC")];
    let calls = exchange_calls(&swaps, 41).unwrap();
    assert_eq!(calls.len(), 2);
    assert_eq!(calls[0].from, raw("sBTC"));
    assert_eq!(calls[0].from_amount, 5);
    assert_eq!(calls[0].to, raw("sUSD"));
    assert_eq!(calls[0].nonce, 41);
    assert_eq!(calls[1].from, raw("sETH"));
    assert_eq!(calls[1].from_amount, 7);
    assert_eq!(calls[1].to, raw("sLTC"));
    assert_eq!(calls[1].nonce, 42);
}

#[test]
fn no_swaps_no_calls() {
    assert!(exchange_calls(&Vec::new(), u128::MAX).unwrap().is_empty());
}

#[test]
fn last_nonce_may_be_the_largest() {
    let swaps = vec![swap("a", 1, "b"), swap("c", 1, "d")];
    let calls = exchange_calls(&swaps, u128::MAX - 1).unwrap();
    assert_eq!(calls[1].nonce, u128::MAX);
}

#[test]
fn nonces_past_range() {
    let swaps = vec![swap("a", 1, "b"), swap("c", 1, "d")];
    assert!(matches!(exchange_calls(&swaps, u128::MAX), Err(Error::OutOfRange)));
}

#[test]
fn call_with_long_symbol() {
    let long = "abcdefghijklmnopqrstuvwxyz0123456";
    let swaps = vec![swap("a", 1, "b"), swap("c", 1, long)];
    assert!(matches!(exchange_calls(&swaps, 0), Err(Error::Encode)));
}

#[test]
fn snapshot_with_balance_past_range() {
    let symbols = vec![raw("sBTC")];
    let balances = vec![i128::MAX as u128 + 1];
    let rates = vec![1];
    assert!(matches!(snapshot_from_chain(&symbols, &balances, &rates), Err(Error::Decode)));
}
