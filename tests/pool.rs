use dht::{Asset, Error, Pool, Swap, FIXED_ONE};

fn asset(balance: u128, rate: u128) -> Asset {
    Asset::new(balance as i128, rate)
}

fn units(n: u128) -> u128 {
    n * FIXED_ONE
}

fn named<T>(entries: &[(&str, T)]) -> Vec<(String, T)>
where
    T: Copy,
{
    entries.iter().map(|(s, v)| (s.to_string(), *v)).collect()
}

fn plan(pool: &Pool) -> Vec<Swap> {
    pool.rebalance_plan().unwrap()
}

#[test]
fn test_pool() {
    let fifth = FIXED_ONE / 5;
    let expected_shares = named(&[
        ("sBTC", fifth),
        ("sETH", fifth),
        ("sUSD", fifth),
        ("sBNB", fifth),
        ("sLTC", fifth),
    ]);
    let assets = named(&[
        ("sBTC", asset(FIXED_ONE * 9 / 10, units(10000))),
        ("sETH", asset(FIXED_ONE * 202 / 10, units(200))),
        ("sUSD", asset(units(100), units(1))),
        ("sBNB", asset(units(50), units(18))),
        ("sLTC", asset(units(10), units(45))),
    ]);
    let min_trade_value = units(1);

    let mut pool = Pool::new(expected_shares, assets, min_trade_value).unwrap();
    for _ in 0..3 {
        pool.rebalance().unwrap();
    }
    assert!(pool.balanced());
}

#[test]
fn two_asset_plan() {
    let shares = named(&[("A", FIXED_ONE / 2), ("B", FIXED_ONE / 2)]);
    let assets = named(&[
        ("A", asset(FIXED_ONE * 9 / 10, units(10000))),
        ("B", asset(units(100), units(1))),
    ]);
    let pool = Pool::new(shares, assets, units(1)).unwrap();
    assert_eq!((pool.total_value() as u128), units(9100));
    let swaps = plan(&pool);
    assert_eq!(swaps.len(), 1);
    assert_eq!(swaps[0].from, "A");
    assert_eq!(swaps[0].to, "B");
    // A holds 9000 against a target of 4550, B holds 100 against 4550: both
    // imbalances are 4450, so A sells 4450 / 10000.
    assert_eq!(swaps[0].from_amount, 445 * FIXED_ONE / 1000);
    assert!(!pool.balanced());
}

fn even_pair(d: u128, min: u128) -> Pool {
    let shares = named(&[("A", FIXED_ONE / 2), ("B", FIXED_ONE / 2)]);
    let assets = named(&[
        ("A", asset(units(50) + d, units(1))),
        ("B", asset(units(50) - d, units(1))),
    ]);
    Pool::new(shares, assets, min).unwrap()
}

#[test]
fn imbalance_just_below_minimum_plans_nothing() {
    let pool = even_pair(FIXED_ONE - 1, FIXED_ONE);
    assert!(plan(&pool).is_empty());
    assert!(pool.balanced());
}

#[test]
fn imbalance_at_minimum_plans_one_swap() {
    let pool = even_pair(FIXED_ONE, FIXED_ONE);
    let swaps = plan(&pool);
    assert_eq!(swaps.len(), 1);
    assert_eq!(swaps[0].from, "A");
    assert_eq!(swaps[0].to, "B");
    assert_eq!(swaps[0].from_amount, FIXED_ONE);
}

#[test]
fn balanced_pool_plans_nothing() {
    let shares = named(&[("A", FIXED_ONE / 4), ("B", FIXED_ONE * 3 / 4)]);
    let assets = named(&[
        ("A", asset(units(1), units(25))),
        ("B", asset(units(75), units(1))),
    ]);
    let pool = Pool::new(shares, assets, 0).unwrap();
    assert!(plan(&pool).is_empty());
    assert!(pool.balanced());
}

#[test]
fn larger_imbalance_sets_the_trade() {
    // A must lose 30, C must gain 10, B must gain 20: A sells 30 to B (a few
    // units of 10^-18 more, as the thirds are rounded down).
    let third = FIXED_ONE / 3;
    let shares = named(&[("A", third), ("B", third), ("C", FIXED_ONE - 2 * third)]);
    let assets = named(&[
        ("A", asset(units(60), units(1))),
        ("B", asset(units(10), units(1))),
        ("C", asset(units(20), units(1))),
    ]);
    let pool = Pool::new(shares, assets, units(1)).unwrap();
    let swaps = plan(&pool);
    assert_eq!(swaps.len(), 1);
    assert_eq!(swaps[0].from, "A");
    assert_eq!(swaps[0].to, "B");
    assert!(swaps[0].from_amount >= units(30) && swaps[0].from_amount <= units(30) + 100);
}

#[test]
fn pairs_move_inwards() {
    let quarter = FIXED_ONE / 4;
    let shares = named(&[("A", quarter), ("B", quarter), ("C", quarter), ("D", quarter)]);
    let assets = named(&[
        ("A", asset(units(40), units(1))),
        ("B", asset(units(30), units(1))),
        ("C", asset(units(20), units(1))),
        ("D", asset(units(10), units(1))),
    ]);
    let pool = Pool::new(shares, assets, units(1)).unwrap();
    let swaps = plan(&pool);
    assert_eq!(swaps.len(), 2);
    assert_eq!((swaps[0].from.as_str(), swaps[0].to.as_str()), ("A", "D"));
    assert_eq!(swaps[0].from_amount, units(15));
    assert_eq!((swaps[1].from.as_str(), swaps[1].to.as_str()), ("B", "C"));
    assert_eq!(swaps[1].from_amount, units(5));
}

#[test]
fn rebalance_keeps_total_value_within_rounding() {
    let shares = named(&[("A", FIXED_ONE / 2), ("B", FIXED_ONE / 2)]);
    let assets = named(&[
        ("A", asset(FIXED_ONE * 9 / 10, units(10000))),
        ("B", asset(units(100), units(3))),
    ]);
    let mut pool = Pool::new(shares, assets, units(1)).unwrap();
    let before = (pool.total_value() as u128);
    pool.rebalance().unwrap();
    let after = (pool.total_value() as u128);
    assert!(after <= before);
    assert!(before - after <= 4);
    assert!(pool.balanced());
}

#[test]
fn missing_target_symbol() {
    let shares = named(&[("A", FIXED_ONE / 2), ("Z", FIXED_ONE / 2)]);
    let assets = named(&[("A", asset(units(1), units(1)))]);
    assert!(matches!(Pool::new(shares, assets, 0), Err(Error::Precondition)));
}

#[test]
fn empty_snapshot() {
    let shares: Vec<(String, u128)> = Vec::new();
    let assets: Vec<(String, Asset)> = Vec::new();
    assert!(matches!(Pool::new(shares, assets, 0), Err(Error::Precondition)));
}

#[test]
fn repeated_target_symbol() {
    let shares = named(&[("A", FIXED_ONE / 2), ("A", FIXED_ONE / 2)]);
    let assets = named(&[("A", asset(units(1), units(1)))]);
    assert!(matches!(Pool::new(shares, assets, 0), Err(Error::Precondition)));
}

#[test]
fn first_snapshot_entry_wins() {
    let shares = named(&[("A", FIXED_ONE)]);
    let assets = named(&[
        ("A", asset(units(2), units(1))),
        ("A", asset(units(5), units(1))),
    ]);
    let pool = Pool::new(shares, assets, 0).unwrap();
    assert_eq!((pool.total_value() as u128), units(2));
}

#[test]
fn snapshot_symbols_outside_targets_are_ignored() {
    let shares = named(&[("A", FIXED_ONE)]);
    let assets = named(&[
        ("B", asset(units(7), units(1))),
        ("A", asset(units(2), units(3))),
    ]);
    let pool = Pool::new(shares, assets, 0).unwrap();
    assert_eq!((pool.total_value() as u128), units(6));
}

#[test]
fn values_past_range_are_refused() {
    let shares = named(&[("A", FIXED_ONE)]);
    let assets = named(&[("A", Asset::new(i128::MAX, u128::MAX / 10))]);
    assert!(matches!(Pool::new(shares, assets, 0), Err(Error::OutOfRange)));
}

#[test]
fn sale_larger_than_holding_leaves_a_negative_balance() {
    // C must lose 90 and B must gain 95: C is asked to sell 95 it does not have.
    let shares = named(&[("A", FIXED_ONE / 20), ("B", FIXED_ONE * 19 / 20), ("C", 0)]);
    let assets = named(&[
        ("A", asset(units(10), units(1))),
        ("B", asset(0, units(1))),
        ("C", asset(units(90), units(1))),
    ]);
    let mut pool = Pool::new(shares, assets, units(1)).unwrap();
    let swaps = plan(&pool);
    assert_eq!(swaps[0].from, "C");
    assert_eq!(swaps[0].to, "B");
    assert_eq!(swaps[0].from_amount, units(95));
    let before = pool.total_value();
    pool.rebalance().unwrap();
    assert_eq!(pool.total_value(), before);
    // C now holds -5 and A still 5 too many: A sells 5 to C.
    let swaps = plan(&pool);
    assert_eq!(swaps.len(), 1);
    assert_eq!(swaps[0].from, "A");
    assert_eq!(swaps[0].to, "C");
    assert_eq!(swaps[0].from_amount, units(5));
}

fn tie_pool(order: &[&str]) -> Pool {
    let third = FIXED_ONE / 3;
    let share = |s: &str| if s == "Z" { FIXED_ONE - 2 * third } else { third };
    let holding = |s: &str| {
        if s == "Z" {
            asset(units(10), units(1))
        } else {
            asset(units(40), units(1))
        }
    };
    let shares: Vec<(String, u128)> = order.iter().map(|s| (s.to_string(), share(s))).collect();
    let assets: Vec<(String, Asset)> = order.iter().map(|s| (s.to_string(), holding(s))).collect();
    Pool::new(shares, assets, units(1)).unwrap()
}

#[test]
fn equal_imbalances_are_ordered_by_name() {
    // W and X must both lose the same value; W comes first by name and sells.
    for order in [["X", "W", "Z"], ["W", "X", "Z"], ["Z", "X", "W"]] {
        let swaps = plan(&tie_pool(&order));
        assert_eq!(swaps.len(), 1);
        assert_eq!(swaps[0].from, "W");
        assert_eq!(swaps[0].to, "Z");
    }
}

#[test]
fn amount_rounding_to_zero_stops_the_plan() {
    let shares = named(&[("A", FIXED_ONE / 2), ("B", FIXED_ONE / 2)]);
    let assets = named(&[
        ("A", asset(FIXED_ONE + 1, units(2))),
        ("B", asset(units(2), units(1))),
    ]);
    let pool = Pool::new(shares, assets, 1).unwrap();
    assert!(plan(&pool).is_empty());
    assert!(pool.balanced());
}

#[test]
fn coarse_buyer_credit_is_refused() {
    let shares = named(&[("A", FIXED_ONE / 2), ("B", FIXED_ONE / 2)]);
    let assets = named(&[
        ("A", asset(units(10), units(1))),
        ("B", asset(0, units(10_000_000_000_000_000_000))),
    ]);
    let mut pool = Pool::new(shares, assets, units(1)).unwrap();
    assert_eq!(plan(&pool).len(), 1);
    assert!(matches!(pool.rebalance(), Err(Error::OutOfRange)));
    assert_eq!((pool.total_value() as u128), units(10));
}
