use vstd::prelude::*;
use vstd::utf8::{decode_utf8, encode_utf8};

use crate::fixed::{div_fixed, fixed_div, fixed_mul, mul_fixed};
use crate::{Error, FIXED_ONE};

verus! {

/// A short textual identifier of a fund asset, such as `sBTC`.
pub type Symbol = String;

/// A holding: its balance and its price in a common unit, both 18-decimal
/// fixed-point numbers. The balance is signed: a simulated rebalance may
/// sell more of an asset than the pool holds.
#[derive(Debug, Clone, Copy, PartialEq, Eq, Structural)]
pub struct Asset {
    pub balance: i128,
    pub rate: u128,
}

impl Asset {
    /// A holding of `balance` units priced at `rate`.
    pub fn new(balance: i128, rate: u128) -> (r: Asset)
        ensures
            r.balance == balance,
            r.rate == rate,
    {
        Asset { balance, rate }
    }
}

/// Exchange `from_amount` units of `from` for the same value of `to`.
#[derive(Debug)]
pub struct Swap {
    pub from: Symbol,
    pub from_amount: u128,
    pub to: Symbol,
}

/// The fixed-point product of a signed amount and a rate, rounded toward zero.
pub open spec fn signed_mul(a: int, r: int) -> int {
    if a >= 0 {
        fixed_mul(a, r)
    } else {
        -fixed_mul(-a, r)
    }
}

/// The size of a signed amount.
pub open spec fn magnitude_of(a: int) -> int {
    if a >= 0 {
        a
    } else {
        -a
    }
}

/// The value of the `i`-th holding: balance times rate.
pub open spec fn value_of(assets: Seq<Asset>, i: int) -> int {
    signed_mul(assets[i].balance as int, assets[i].rate as int)
}

/// The size of the value of the `i`-th holding.
pub open spec fn size_of(assets: Seq<Asset>, i: int) -> int {
    fixed_mul(magnitude_of(assets[i].balance as int), assets[i].rate as int)
}

/// The sizes of the values of the first `k` holdings together.
pub open spec fn sum_sizes(assets: Seq<Asset>, k: int) -> int
    decreases k,
{
    if k <= 0 {
        0
    } else {
        sum_sizes(assets, k - 1) + size_of(assets, k - 1)
    }
}

/// Half the largest `i128`: the bound on every value the planner derives,
/// so that a difference of two of them fits.
pub const HALF_RANGE: i128 = 85070591730234615865843651857942052863;

/// The value of the first `k` holdings together.
pub open spec fn sum_values(assets: Seq<Asset>, k: int) -> int
    decreases k,
{
    if k <= 0 {
        0
    } else {
        sum_values(assets, k - 1) + value_of(assets, k - 1)
    }
}

/// The value of all holdings together.
pub open spec fn total_of(assets: Seq<Asset>) -> int {
    sum_values(assets, assets.len() as int)
}

/// The value the `i`-th holding should have under its target weight.
pub open spec fn expected_value_of(shares: Seq<u128>, assets: Seq<Asset>, i: int) -> int {
    signed_mul(total_of(assets), shares[i] as int)
}

/// How much value the `i`-th holding must gain (positive) or lose (negative).
pub open spec fn change_of(shares: Seq<u128>, assets: Seq<Asset>, i: int) -> int {
    expected_value_of(shares, assets, i) - value_of(assets, i)
}

/// Every quantity the planner derives fits in its machine types.
pub open spec fn in_range(shares: Seq<u128>, assets: Seq<Asset>) -> bool {
    &&& sum_sizes(assets, assets.len() as int) <= HALF_RANGE
    &&& forall|i: int|
        0 <= i < assets.len() ==> magnitude_of(expected_value_of(shares, assets, i))
            <= HALF_RANGE
    &&& forall|i: int| 0 <= i < assets.len() ==> assets[i].rate <= u128::MAX / 10
}

/// The first asset recorded under `sym` in a snapshot.
pub open spec fn lookup(snapshot: Seq<(Seq<char>, Asset)>, sym: Seq<char>) -> Option<Asset>
    decreases snapshot.len(),
{
    if snapshot.len() == 0 {
        None
    } else if snapshot[0].0 == sym {
        Some(snapshot[0].1)
    } else {
        lookup(snapshot.drop_first(), sym)
    }
}

/// The first asset recorded under `name` in a snapshot.
fn find_asset(snapshot: &Vec<(Symbol, Asset)>, name: &Symbol) -> (r: Option<Asset>)
    ensures
        r == lookup(snapshot_view(snapshot@), name@),
{
    let mut i: usize = 0;
    assert(snapshot_view(snapshot@).subrange(0, snapshot@.len() as int) =~= snapshot_view(snapshot@));
    while i < snapshot.len()
        invariant
            i <= snapshot@.len(),
            lookup(snapshot_view(snapshot@), name@) == lookup(
                snapshot_view(snapshot@).subrange(i as int, snapshot@.len() as int),
                name@,
            ),
        decreases snapshot.len() - i,
    {
        let ghost rest = snapshot_view(snapshot@).subrange(i as int, snapshot@.len() as int);
        assert(rest.drop_first() =~= snapshot_view(snapshot@).subrange(i + 1, snapshot@.len() as int));
        if snapshot[i].0 == *name {
            return Some(snapshot[i].1);
        }
        i = i + 1;
    }
    None
}

/// The names of a list of named entries.
pub open spec fn names_of<T>(entries: Seq<(String, T)>) -> Seq<Seq<char>> {
    entries.map_values(|e: (String, T)| e.0@)
}

/// A snapshot with its symbols as text.
pub open spec fn snapshot_view(snapshot: Seq<(String, Asset)>) -> Seq<(Seq<char>, Asset)> {
    snapshot.map_values(|e: (String, Asset)| (e.0@, e.1))
}

/// The target weights of a list of named weights.
pub open spec fn weights_of(entries: Seq<(String, u128)>) -> Seq<u128> {
    entries.map_values(|e: (String, u128)| e.1)
}

/// No name occurs twice.
pub open spec fn distinct(names: Seq<Seq<char>>) -> bool {
    forall|i: int, j: int| 0 <= i < j < names.len() ==> names[i] != names[j]
}

/// The snapshot is not empty, and holds each of the distinct target symbols.
pub open spec fn well_posed(targets: Seq<Seq<char>>, snapshot: Seq<(Seq<char>, Asset)>) -> bool {
    &&& snapshot.len() > 0
    &&& distinct(targets)
    &&& forall|i: int| 0 <= i < targets.len() ==> lookup(snapshot, targets[i]) is Some
}

/// The holding of each target symbol, as the snapshot records it.
pub open spec fn matched_assets(targets: Seq<Seq<char>>, snapshot: Seq<(Seq<char>, Asset)>) -> Seq<Asset> {
    Seq::new(targets.len(), |i: int| lookup(snapshot, targets[i])->0)
}

proof fn lemma_size_of_value(a: int, r: int)
    requires
        r >= 0,
    ensures
        fixed_mul(magnitude_of(a), r) >= 0,
        magnitude_of(signed_mul(a, r)) == fixed_mul(magnitude_of(a), r),
{
    let m = magnitude_of(a);
    assert(m * r >= 0) by (nonlinear_arith)
        requires
            m >= 0,
            r >= 0,
    ;
}

proof fn lemma_sum_sizes_bound(assets: Seq<Asset>, j: int, k: int)
    requires
        0 <= j <= k,
    ensures
        0 <= sum_sizes(assets, j) <= sum_sizes(assets, k),
        magnitude_of(sum_values(assets, k)) <= sum_sizes(assets, k),
    decreases k,
{
    if k > 0 {
        lemma_size_of_value(assets[k - 1].balance as int, assets[k - 1].rate as int);
        if j < k {
            lemma_sum_sizes_bound(assets, j, k - 1);
        } else {
            lemma_sum_sizes_bound(assets, 0, k - 1);
        }
    }
}

proof fn lemma_value_within(assets: Seq<Asset>, i: int)
    requires
        0 <= i < assets.len(),
    ensures
        magnitude_of(value_of(assets, i)) <= sum_sizes(assets, assets.len() as int),
        magnitude_of(total_of(assets)) <= sum_sizes(assets, assets.len() as int),
{
    lemma_sum_sizes_bound(assets, i + 1, assets.len() as int);
    lemma_sum_sizes_bound(assets, i, i);
    lemma_size_of_value(assets[i].balance as int, assets[i].rate as int);
}

/// The size of a signed amount, as an unsigned number.
fn magnitude(a: i128) -> (m: u128)
    ensures
        m == magnitude_of(a as int),
{
    if a >= 0 {
        a as u128
    } else {
        (-(a + 1)) as u128 + 1
    }
}

/// `m` with the sign of `a`.
fn with_sign(a: i128, m: u128) -> (v: i128)
    requires
        m <= HALF_RANGE,
    ensures
        v == if a >= 0 { m as int } else { -(m as int) },
{
    if a >= 0 {
        m as i128
    } else {
        -(m as i128)
    }
}

proof fn lemma_change_bounded(p: &Pool, i: int)
    requires
        p.wf(),
        0 <= i < p.len(),
    ensures
        -(i128::MAX as int) <= p.change(i) <= i128::MAX,
{
    lemma_value_within(p.assets_view(), i);
}

/// The total value of the holdings, when the sizes of their values together
/// stay within `HALF_RANGE`.
fn checked_total(assets: &Vec<Asset>) -> (r: Option<i128>)
    ensures
        r is Some <==> sum_sizes(assets@, assets@.len() as int) <= HALF_RANGE,
        r matches Some(t) ==> t == total_of(assets@),
{
    let mut total: i128 = 0;
    let mut size: u128 = 0;
    let mut i: usize = 0;
    while i < assets.len()
        invariant
            i <= assets@.len(),
            total == sum_values(assets@, i as int),
            size == sum_sizes(assets@, i as int),
            size <= HALF_RANGE,
        decreases assets.len() - i,
    {
        proof {
            lemma_sum_sizes_bound(assets@, i + 1, assets@.len() as int);
            lemma_sum_sizes_bound(assets@, i + 1, i + 1);
            lemma_size_of_value(assets@[i as int].balance as int, assets@[i as int].rate as int);
        }
        let v = match mul_fixed(magnitude(assets[i].balance), assets[i].rate) {
            Some(v) => v,
            None => return None,
        };
        if v > HALF_RANGE as u128 - size {
            return None;
        }
        size = size + v;
        total = total + with_sign(assets[i].balance, v);
        i = i + 1;
    }
    Some(total)
}

/// `steps` are the plan's swaps: seller, buyer and amount, by position.
pub open spec fn positions_match(steps: Seq<(usize, usize, u128)>, plan: Seq<(int, int, int)>) -> bool {
    &&& steps.len() == plan.len()
    &&& forall|k: int|
        0 <= k < plan.len() ==> steps[k].0 == plan[k].0 && steps[k].1 == plan[k].1 && steps[k].2
            == plan[k].2
}

/// `a` comes before `b` in lexicographic byte order.
pub open spec fn bytes_before(a: Seq<u8>, b: Seq<u8>) -> bool
    decreases a.len(),
{
    if a.len() == 0 {
        b.len() > 0
    } else if b.len() == 0 {
        false
    } else if a[0] != b[0] {
        a[0] < b[0]
    } else {
        bytes_before(a.drop_first(), b.drop_first())
    }
}

proof fn lemma_bytes_before_irreflexive(a: Seq<u8>)
    ensures
        !bytes_before(a, a),
    decreases a.len(),
{
    if a.len() > 0 {
        lemma_bytes_before_irreflexive(a.drop_first());
    }
}

proof fn lemma_bytes_before_transitive(a: Seq<u8>, b: Seq<u8>, c: Seq<u8>)
    requires
        bytes_before(a, b),
        bytes_before(b, c),
    ensures
        bytes_before(a, c),
    decreases a.len(),
{
    if a.len() > 0 && b.len() > 0 && c.len() > 0 && a[0] == b[0] && b[0] == c[0] {
        lemma_bytes_before_transitive(a.drop_first(), b.drop_first(), c.drop_first());
    }
}

proof fn lemma_bytes_before_total(a: Seq<u8>, b: Seq<u8>)
    requires
        a != b,
    ensures
        bytes_before(a, b) || bytes_before(b, a),
    decreases a.len(),
{
    if a.len() > 0 && b.len() > 0 && a[0] == b[0] {
        if a.drop_first() == b.drop_first() {
            assert(a =~= seq![a[0]] + a.drop_first());
            assert(b =~= seq![b[0]] + b.drop_first());
        }
        lemma_bytes_before_total(a.drop_first(), b.drop_first());
    } else if a.len() == 0 && b.len() == 0 {
        assert(a =~= b);
    }
}

/// Whether `a` comes before `b` in lexicographic order of their UTF-8 bytes.
fn name_before(a: &String, b: &String) -> (r: bool)
    ensures
        r == bytes_before(encode_utf8(a@), encode_utf8(b@)),
{
    let x = a.as_str().as_bytes();
    let y = b.as_str().as_bytes();
    let mut i: usize = 0;
    assert(x@.subrange(0, x@.len() as int) =~= x@);
    assert(y@.subrange(0, y@.len() as int) =~= y@);
    while i < x.len() && i < y.len() && x[i] == y[i]
        invariant
            x@ == encode_utf8(a@),
            y@ == encode_utf8(b@),
            i <= x@.len(),
            i <= y@.len(),
            bytes_before(x@, y@) == bytes_before(
                x@.subrange(i as int, x@.len() as int),
                y@.subrange(i as int, y@.len() as int),
            ),
        decreases x.len() - i,
    {
        assert(x@.subrange(i as int, x@.len() as int).drop_first() =~= x@.subrange(
            i + 1,
            x@.len() as int,
        ));
        assert(y@.subrange(i as int, y@.len() as int).drop_first() =~= y@.subrange(
            i + 1,
            y@.len() as int,
        ));
        i = i + 1;
    }
    if i == x.len() {
        i < y.len()
    } else if i == y.len() {
        false
    } else {
        x[i] < y[i]
    }
}

/// In the order of `keys`, `i` comes before `j`: a smaller key, or an equal
/// key and a name that comes first.
pub open spec fn key_before(keys: Seq<int>, names: Seq<Seq<u8>>, i: int, j: int) -> bool {
    keys[i] < keys[j] || (keys[i] == keys[j] && bytes_before(names[i], names[j]))
}

/// `ord` lists every position of `keys` once, in the order of `key_before`.
pub open spec fn sorted_positions(keys: Seq<int>, names: Seq<Seq<u8>>, ord: Seq<usize>) -> bool {
    &&& ord.len() == keys.len()
    &&& forall|k: int| 0 <= k < ord.len() ==> ord[k] < keys.len()
    &&& forall|a: int, b: int|
        0 <= a < b < ord.len() ==> key_before(keys, names, ord[a] as int, ord[b] as int)
}

/// The UTF-8 bytes of each name.
pub open spec fn name_bytes(names: Seq<String>) -> Seq<Seq<u8>> {
    names.map_values(|s: String| encode_utf8(s@))
}

fn before(c: &Vec<i128>, names: &Vec<Symbol>, i: usize, j: usize) -> (r: bool)
    requires
        i < c@.len(),
        j < c@.len(),
        names@.len() == c@.len(),
    ensures
        r == key_before(
            c@.map_values(|x: i128| x as int),
            name_bytes(names@),
            i as int,
            j as int,
        ),
{
    c[i] < c[j] || (c[i] == c[j] && name_before(&names[i], &names[j]))
}

/// The positions of `c`, ordered by their value, ties by name.
fn sort_positions(c: &Vec<i128>, names: &Vec<Symbol>, Ghost(keys): Ghost<Seq<int>>) -> (ord: Vec<
    usize,
>)
    requires
        keys == c@.map_values(|x: i128| x as int),
        names@.len() == c@.len(),
        forall|i: int, j: int|
            0 <= i < j < names@.len() ==> name_bytes(names@)[i] != name_bytes(names@)[j],
    ensures
        sorted_positions(keys, name_bytes(names@), ord@),
{
    let ghost nb = name_bytes(names@);
    let mut ord: Vec<usize> = Vec::new();
    let mut i: usize = 0;
    while i < c.len()
        invariant
            keys == c@.map_values(|x: i128| x as int),
            nb == name_bytes(names@),
            names@.len() == c@.len(),
            forall|a: int, b: int| 0 <= a < b < names@.len() ==> nb[a] != nb[b],
            i <= c@.len(),
            ord@.len() == i,
            forall|k: int| 0 <= k < ord@.len() ==> ord@[k] < i,
            forall|a: int, b: int|
                0 <= a < b < ord@.len() ==> key_before(keys, nb, ord@[a] as int, ord@[b] as int),
        decreases c.len() - i,
    {
        let mut p: usize = 0;
        while p < ord.len() && before(c, names, ord[p], i)
            invariant
                keys == c@.map_values(|x: i128| x as int),
                nb == name_bytes(names@),
                names@.len() == c@.len(),
                i < c@.len(),
                ord@.len() == i,
                forall|k: int| 0 <= k < ord@.len() ==> ord@[k] < i,
                p <= ord@.len(),
                forall|k: int| 0 <= k < p ==> key_before(keys, nb, ord@[k] as int, i as int),
            decreases ord.len() - p,
        {
            p = p + 1;
        }
        let ghost prev = ord@;
        proof {
            if p < prev.len() {
                let q = prev[p as int] as int;
                assert(!key_before(keys, nb, q, i as int));
                assert(nb[q] != nb[i as int]);
                lemma_bytes_before_total(nb[q], nb[i as int]);
                assert(key_before(keys, nb, i as int, q));
                assert forall|k: int| p <= k < prev.len() implies key_before(
                    keys,
                    nb,
                    i as int,
                    #[trigger] prev[k] as int,
                ) by {
                    if k > p {
                        let r = prev[k] as int;
                        assert(key_before(keys, nb, q, r));
                        if keys[i as int] == keys[q] && keys[q] == keys[r] {
                            lemma_bytes_before_transitive(nb[i as int], nb[q], nb[r]);
                        }
                    }
                }
            }
        }
        ord.insert(p, i);
        assert forall|a: int, b: int| 0 <= a < b < ord@.len() implies key_before(
            keys,
            nb,
            #[trigger] ord@[a] as int,
            #[trigger] ord@[b] as int,
        ) by {
            if b < p {
                assert(ord@[a] == prev[a] && ord@[b] == prev[b]);
            } else if b == p {
                assert(ord@[a] == prev[a]);
            } else if a < p {
                assert(ord@[a] == prev[a] && ord@[b] == prev[b - 1]);
            } else if a == p {
                assert(ord@[b] == prev[b - 1]);
            } else {
                assert(ord@[a] == prev[a - 1] && ord@[b] == prev[b - 1]);
            }
        }
        i = i + 1;
    }
    ord
}

/// Whether every quantity the planner derives from these holdings fits.
fn range_ok(shares: &Vec<u128>, held: &Vec<Asset>) -> (r: bool)
    requires
        shares@.len() == held@.len(),
    ensures
        r == in_range(shares@, held@),
{
    let total = match checked_total(held) {
        Some(t) => t,
        None => return false,
    };
    let mut k: usize = 0;
    while k < held.len()
        invariant
            k <= held@.len(),
            held@.len() == shares@.len(),
            total == total_of(held@),
            sum_sizes(held@, held@.len() as int) <= HALF_RANGE,
            forall|m: int|
                0 <= m < k ==> magnitude_of(expected_value_of(shares@, held@, m)) <= HALF_RANGE,
            forall|m: int| 0 <= m < k ==> held@[m].rate <= u128::MAX / 10,
        decreases held.len() - k,
    {
        proof {
            lemma_size_of_value(total as int, shares@[k as int] as int);
        }
        match mul_fixed(magnitude(total), shares[k]) {
            Some(e) => {
                if e > HALF_RANGE as u128 {
                    assert(magnitude_of(expected_value_of(shares@, held@, k as int)) > HALF_RANGE);
                    return false;
                }
            },
            None => {
                assert(magnitude_of(expected_value_of(shares@, held@, k as int)) > HALF_RANGE);
                return false;
            },
        }
        if held[k].rate > u128::MAX / 10 {
            assert(held@[k as int].rate > u128::MAX / 10);
            return false;
        }
        k = k + 1;
    }
    true
}

/// The amount of the buyer's asset worth `amount` of the seller's, at the
/// given rates, rounded down.
pub open spec fn received(amount: int, from_rate: int, to_rate: int) -> int {
    fixed_div(fixed_mul(amount, from_rate), to_rate)
}

/// The largest rounding a swap may cost the pool, in units of 10^-36: a
/// billionth of the pool's value (less one fixed-point unit per holding, for
/// the rounding in that value).
pub open spec fn loss_tolerance(assets: Seq<Asset>) -> int {
    1_000_000_000 * (total_of(assets) - assets.len())
}

/// The holdings after the seller `step.0` gives `step.2` units to the buyer
/// `step.1`, the seller's balance going below zero where it holds less;
/// `None` when a balance or an amount would leave the `i128` range, the
/// buyer's rate is zero, or rounding the buyer's credit down could cost more
/// than `tolerance` (less than one unit of the buyer's asset plus one
/// fixed-point unit is lost).
pub open spec fn apply_swap(assets: Seq<Asset>, step: (int, int, int), tolerance: int) -> Option<
    Seq<Asset>,
> {
    let s = assets[step.0];
    let b = assets[step.1];
    let x = step.2;
    if x > i128::MAX || s.balance - x < i128::MIN || b.rate == 0 || b.rate + FIXED_ONE
        > tolerance || fixed_mul(x, s.rate as int) > u128::MAX || received(
        x,
        s.rate as int,
        b.rate as int,
    ) > i128::MAX || b.balance + received(
        x,
        s.rate as int,
        b.rate as int,
    ) > i128::MAX {
        None
    } else {
        Some(
            assets.update(step.0, Asset { balance: (s.balance - x) as i128, rate: s.rate }).update(
                step.1,
                Asset {
                    balance: (b.balance + received(x, s.rate as int, b.rate as int)) as i128,
                    rate: b.rate,
                },
            ),
        )
    }
}

/// The holdings after every swap of `plan`, in order.
pub open spec fn apply_plan(assets: Seq<Asset>, plan: Seq<(int, int, int)>, tolerance: int) -> Option<
    Seq<Asset>,
>
    decreases plan.len(),
{
    if plan.len() == 0 {
        Some(assets)
    } else {
        match apply_swap(assets, plan[0], tolerance) {
            Some(next) => apply_plan(next, plan.drop_first(), tolerance),
            None => None,
        }
    }
}

/// A fund snapshot together with target weights and a minimum trade value.
pub struct Pool {
    symbols: Vec<Symbol>,
    expected_shares: Vec<u128>,
    assets: Vec<Asset>,
    min_trade_value: u128,
}

impl Pool {
    /// The target symbols, in the order the pool keeps them.
    pub closed spec fn symbols_view(&self) -> Seq<Seq<char>> {
        self.symbols@.map_values(|s: String| s@)
    }

    /// The target weight of each symbol.
    pub closed spec fn shares_view(&self) -> Seq<u128> {
        self.expected_shares@
    }

    /// The holding of each symbol.
    pub closed spec fn assets_view(&self) -> Seq<Asset> {
        self.assets@
    }

    /// Imbalances smaller than this are left alone.
    pub closed spec fn min_trade_view(&self) -> u128 {
        self.min_trade_value
    }

    /// How many target symbols the pool has.
    pub open spec fn len(&self) -> nat {
        self.symbols_view().len()
    }

    /// How much value the `i`-th symbol must gain (positive) or lose (negative).
    pub open spec fn change(&self, i: int) -> int {
        change_of(self.shares_view(), self.assets_view(), i)
    }

    /// The value of all target holdings together.
    pub open spec fn spec_total_value(&self) -> int {
        total_of(self.assets_view())
    }

    /// The pool's invariant: parallel lists, distinct symbols, quantities in range.
    pub open spec fn wf(&self) -> bool {
        &&& self.shares_view().len() == self.len()
        &&& self.assets_view().len() == self.len()
        &&& forall|i: int, j: int|
            0 <= i < j < self.len() ==> self.symbols_view()[i] != self.symbols_view()[j]
        &&& in_range(self.shares_view(), self.assets_view())
    }

    /// The imbalance of every symbol, by position.
    pub open spec fn changes(&self) -> Seq<int> {
        Seq::new(self.len(), |i: int| self.change(i))
    }

    /// `ord` is the order in which the planner considers the symbols: from
    /// the one that must lose the most value to the one that must gain the
    /// most, ties by symbol name.
    pub open spec fn is_order(&self, ord: Seq<usize>) -> bool {
        sorted_positions(self.changes(), self.names(), ord)
    }

    /// The UTF-8 bytes of every target symbol, by position.
    pub open spec fn names(&self) -> Seq<Seq<u8>> {
        Seq::new(self.len(), |i: int| encode_utf8(self.symbols_view()[i]))
    }

    /// The value traded when `s` sells to `b`: the larger of the two imbalances.
    pub open spec fn trade_value(&self, s: int, b: int) -> int {
        if -self.change(s) > self.change(b) {
            -self.change(s)
        } else {
            self.change(b)
        }
    }

    /// The swaps that pairing `ord[lo]` with `ord[hi]`, then moving inwards,
    /// produces: seller, buyer and amount sold, by position.
    pub open spec fn greedy(&self, ord: Seq<usize>, lo: int, hi: int) -> Seq<(int, int, int)>
        decreases hi - lo + 1,
    {
        if lo >= hi {
            Seq::empty()
        } else {
            let s = ord[lo] as int;
            let b = ord[hi] as int;
            if self.change(b) <= 0 || self.change(s) >= 0 || self.trade_value(s, b)
                < self.min_trade_view() || self.assets_view()[s].rate == 0 || fixed_div(
                self.trade_value(s, b),
                self.assets_view()[s].rate as int,
            ) == 0 {
                Seq::empty()
            } else {
                seq![(s, b, fixed_div(self.trade_value(s, b), self.assets_view()[s].rate as int))]
                    + self.greedy(ord, lo + 1, hi - 1)
            }
        }
    }

    /// The plan for the order `ord`.
    pub open spec fn plan(&self, ord: Seq<usize>) -> Seq<(int, int, int)> {
        self.greedy(ord, 0, self.len() - 1)
    }

    /// Every amount in the plan fits in a `u128`.
    pub open spec fn plan_fits(plan: Seq<(int, int, int)>) -> bool {
        forall|k: int| 0 <= k < plan.len() ==> plan[k].2 <= u128::MAX
    }

    /// `swaps` are the plan's swaps, with symbols in place of positions.
    pub open spec fn swaps_match(&self, swaps: Seq<Swap>, plan: Seq<(int, int, int)>) -> bool {
        &&& swaps.len() == plan.len()
        &&& forall|k: int|
            0 <= k < plan.len() ==> {
                &&& swaps[k].from@ == self.symbols_view()[plan[k].0]
                &&& swaps[k].to@ == self.symbols_view()[plan[k].1]
                &&& swaps[k].from_amount == plan[k].2
            }
    }

    /// What `rebalance_plan` returns for the order `ord`.
    pub open spec fn plan_outcome(&self, ord: Seq<usize>, r: Result<Vec<Swap>, Error>) -> bool {
        match r {
            Ok(v) => {
                &&& Self::plan_fits(self.plan(ord))
                &&& self.swaps_match(v@, self.plan(ord))
                &&& forall|k: int| 0 <= k < v@.len() ==> #[trigger] v@[k].from_amount > 0
            },
            Err(e) => e == Error::OutOfRange && !Self::plan_fits(self.plan(ord)),
        }
    }

    /// Builds a pool from target weights, a snapshot and a minimum trade value.
    /// The pool keeps the target symbols in the order given, each with the
    /// first holding the snapshot records under it.
    pub fn new(
        expected_shares: Vec<(Symbol, u128)>,
        assets: Vec<(Symbol, Asset)>,
        min_trade_value: u128,
    ) -> (r: Result<Pool, Error>)
        ensures
            !well_posed(names_of(expected_shares@), snapshot_view(assets@)) <==> r == Err::<
                Pool,
                Error,
            >(Error::Precondition),
            well_posed(names_of(expected_shares@), snapshot_view(assets@)) ==> (r is Ok
                <==> in_range(
                weights_of(expected_shares@),
                matched_assets(names_of(expected_shares@), snapshot_view(assets@)),
            )),
            r matches Err(e) ==> e == Error::Precondition || e == Error::OutOfRange,
            r matches Ok(p) ==> {
                &&& p.wf()
                &&& p.symbols_view() == names_of(expected_shares@)
                &&& p.shares_view() == weights_of(expected_shares@)
                &&& p.assets_view() == matched_assets(
                    names_of(expected_shares@),
                    snapshot_view(assets@),
                )
                &&& p.min_trade_view() == min_trade_value
            },
    {
        let ghost targets = names_of(expected_shares@);
        let ghost snap = snapshot_view(assets@);
        if assets.len() == 0 {
            return Err(Error::Precondition);
        }
        let mut symbols: Vec<Symbol> = Vec::new();
        let mut shares: Vec<u128> = Vec::new();
        let mut held: Vec<Asset> = Vec::new();
        let mut i: usize = 0;
        while i < expected_shares.len()
            invariant
                targets == names_of(expected_shares@),
                snap == snapshot_view(assets@),
                i <= expected_shares@.len(),
                symbols@.len() == i,
                symbols@.map_values(|s: String| s@) =~= targets.subrange(0, i as int),
                shares@ =~= weights_of(expected_shares@).subrange(0, i as int),
                held@ =~= matched_assets(targets, snap).subrange(0, i as int),
                distinct(targets.subrange(0, i as int)),
                forall|k: int| 0 <= k < i ==> lookup(snap, targets[k]) is Some,
            decreases expected_shares.len() - i,
        {
            let name = &expected_shares[i].0;
            assert(targets[i as int] == name@);
            let mut j: usize = 0;
            while j < i
                invariant
                    i < expected_shares@.len(),
                    j <= i,
                    symbols@.len() == i,
                    targets[i as int] == name@,
                    *name == expected_shares@[i as int].0,
                    targets == names_of(expected_shares@),
                    symbols@.map_values(|s: String| s@) =~= targets.subrange(0, i as int),
                    forall|k: int| 0 <= k < j ==> targets[k] != targets[i as int],
                decreases i - j,
            {
                if symbols[j] == *name {
                    assert(symbols@.map_values(|s: String| s@)[j as int] == targets[j as int]);
                    assert(targets[j as int] == targets[i as int]);
                    assert(!distinct(targets));
                    return Err(Error::Precondition);
                }
                assert(symbols@.map_values(|s: String| s@)[j as int] == targets[j as int]);
                j = j + 1;
            }
            let found = match find_asset(&assets, name) {
                Some(a) => a,
                None => {
                    assert(lookup(snap, targets[i as int]) is None);
                    return Err(Error::Precondition);
                },
            };
            symbols.push(name.clone());
            shares.push(expected_shares[i].1);
            held.push(found);
            assert(symbols@.map_values(|s: String| s@) =~= targets.subrange(0, i + 1));
            assert(shares@ =~= weights_of(expected_shares@).subrange(0, i + 1));
            assert(held@ =~= matched_assets(targets, snap).subrange(0, i + 1));
            assert(distinct(targets.subrange(0, i + 1))) by {
                let t = targets.subrange(0, i + 1);
                assert forall|a: int, b: int| 0 <= a < b < i + 1 implies #[trigger] t[a] != #[trigger] t[b] by {
                    if b < i {
                        assert(targets.subrange(0, i as int)[a] != targets.subrange(0, i as int)[b]);
                    }
                }
            }
            i = i + 1;
        }
        assert(targets.subrange(0, i as int) =~= targets);
        assert(distinct(targets));
        assert(held@ =~= matched_assets(targets, snap));
        assert(shares@ =~= weights_of(expected_shares@));
        assert(well_posed(targets, snap));
        if !range_ok(&shares, &held) {
            return Err(Error::OutOfRange);
        }
        let pool = Pool { symbols, expected_shares: shares, assets: held, min_trade_value };
        assert(pool.symbols_view() =~= targets);
        Ok(pool)
    }

    /// The value of all target holdings together.
    pub fn total_value(&self) -> (r: i128)
        requires
            self.wf(),
        ensures
            r == self.spec_total_value(),
    {
        match checked_total(&self.assets) {
            Some(t) => t,
            None => 0,
        }
    }

    /// The imbalance of every symbol, by position.
    fn value_changes(&self) -> (c: Vec<i128>)
        requires
            self.wf(),
        ensures
            c@.len() == self.len(),
            forall|i: int| 0 <= i < self.len() ==> c@[i] == self.change(i),
    {
        let total = self.total_value();
        let mut c: Vec<i128> = Vec::new();
        let mut i: usize = 0;
        while i < self.assets.len()
            invariant
                self.wf(),
                total == self.spec_total_value(),
                i <= self.len(),
                c@.len() == i,
                forall|k: int| 0 <= k < i ==> c@[k] == self.change(k),
            decreases self.assets.len() - i,
        {
            proof {
                lemma_value_within(self.assets@, i as int);
                lemma_size_of_value(
                    self.assets@[i as int].balance as int,
                    self.assets@[i as int].rate as int,
                );
                lemma_size_of_value(total as int, self.expected_shares@[i as int] as int);
                assert(magnitude_of(expected_value_of(self.expected_shares@, self.assets@, i as int))
                    <= HALF_RANGE);
                assert(size_of(self.assets@, i as int) <= HALF_RANGE);
            }
            let v = match mul_fixed(magnitude(self.assets[i].balance), self.assets[i].rate) {
                Some(v) => v,
                None => 0,
            };
            let e = match mul_fixed(magnitude(total), self.expected_shares[i]) {
                Some(e) => e,
                None => 0,
            };
            c.push(with_sign(total, e) - with_sign(self.assets[i].balance, v));
            i = i + 1;
        }
        c
    }

    /// The plan by position, with the order it was computed in.
    fn planned(&self) -> (r: (Vec<usize>, Result<Vec<(usize, usize, u128)>, Error>))
        requires
            self.wf(),
        ensures
            self.is_order(r.0@),
            match r.1 {
                Ok(v) => Self::plan_fits(self.plan(r.0@)) && positions_match(v@, self.plan(r.0@)),
                Err(e) => e == Error::OutOfRange && !Self::plan_fits(self.plan(r.0@)),
            },
            r.1 matches Ok(v) ==> forall|k: int|
                0 <= k < v@.len() ==> v@[k].0 < self.len() && v@[k].1 < self.len() && v@[k].2 > 0,
    {
        let c = self.value_changes();
        proof {
            assert(self.changes() =~= c@.map_values(|x: i128| x as int));
            assert(name_bytes(self.symbols@) =~= self.names());
            assert forall|i: int, j: int| 0 <= i < j < self.symbols@.len() implies name_bytes(
                self.symbols@,
            )[i] != name_bytes(self.symbols@)[j] by {
                broadcast use vstd::utf8::group_utf8_lib;

                assert(self.symbols_view()[i] != self.symbols_view()[j]);
                assert(decode_utf8(encode_utf8(self.symbols_view()[i])) == self.symbols_view()[i]);
                assert(decode_utf8(encode_utf8(self.symbols_view()[j])) == self.symbols_view()[j]);
            }
        }
        let ord = sort_positions(&c, &self.symbols, Ghost(self.changes()));
        let ghost full = self.plan(ord@);
        let mut steps: Vec<(usize, usize, u128)> = Vec::new();
        if ord.len() == 0 {
            return (ord, Ok(steps));
        }
        let mut lo: usize = 0;
        let mut hi: usize = ord.len() - 1;
        let mut done = false;
        while lo < hi && !done
            invariant
                self.wf(),
                self.is_order(ord@),
                full == self.plan(ord@),
                c@.len() == self.len(),
                forall|i: int| 0 <= i < self.len() ==> c@[i] == self.change(i),
                hi < ord@.len(),
                lo <= hi + 1,
                Self::plan_fits(full.subrange(0, steps@.len() as int)),
                positions_match(steps@, full.subrange(0, steps@.len() as int)),
                forall|k: int|
                    0 <= k < steps@.len() ==> steps@[k].0 < self.len() && steps@[k].1 < self.len()
                        && steps@[k].2 > 0,
                done ==> full =~= full.subrange(0, steps@.len() as int),
                !done ==> full =~= full.subrange(0, steps@.len() as int) + self.greedy(
                    ord@,
                    lo as int,
                    hi as int,
                ),
            decreases hi - lo + if done { 0int } else { 1int },
        {
            let s = ord[lo];
            let b = ord[hi];
            let cs = c[s];
            let cb = c[b];
            let ghost before = steps@.len() as int;
            if cb <= 0 || cs >= 0 {
                done = true;
            } else {
                proof {
                    lemma_change_bounded(self, s as int);
                }
                let trade: u128 = if -cs > cb {
                    (-cs) as u128
                } else {
                    cb as u128
                };
                if trade < self.min_trade_value || self.assets[s].rate == 0 {
                    done = true;
                } else {
                    let amount = match div_fixed(trade, self.assets[s].rate) {
                        Some(a) => a,
                        None => {
                            assert(full[before].2 > u128::MAX);
                            return (ord, Err(Error::OutOfRange));
                        },
                    };
                    if amount == 0 {
                        done = true;
                    } else {
                        steps.push((s, b, amount));
                        assert(full.subrange(0, steps@.len() as int) =~= full.subrange(0, before)
                            + seq![full[before]]);
                        lo = lo + 1;
                        hi = hi - 1;
                    }
                }
            }
        }
        assert(full =~= full.subrange(0, steps@.len() as int));
        (ord, Ok(steps))
    }

    /// The ordered list of swaps that moves the pool towards its target
    /// weights; `OutOfRange` when an amount to sell does not fit in a `u128`.
    pub fn rebalance_plan(&self) -> (r: Result<Vec<Swap>, Error>)
        requires
            self.wf(),
        ensures
            exists|ord: Seq<usize>| self.is_order(ord) && self.plan_outcome(ord, r),
    {
        let (ord, planned) = self.planned();
        let steps = match planned {
            Ok(v) => v,
            Err(e) => return Err(e),
        };
        let ghost full = self.plan(ord@);
        let mut swaps: Vec<Swap> = Vec::new();
        let mut k: usize = 0;
        while k < steps.len()
            invariant
                self.wf(),
                k <= steps@.len(),
                positions_match(steps@, full),
                forall|m: int|
                    0 <= m < steps@.len() ==> steps@[m].0 < self.len() && steps@[m].1 < self.len()
                        && steps@[m].2 > 0,
                self.swaps_match(swaps@, full.subrange(0, k as int)),
                forall|m: int| 0 <= m < swaps@.len() ==> #[trigger] swaps@[m].from_amount > 0,
            decreases steps.len() - k,
        {
            let (s, b, amount) = steps[k];
            assert(self.symbols@.map_values(|x: String| x@)[s as int] == self.symbols@[s as int]@);
            assert(self.symbols@.map_values(|x: String| x@)[b as int] == self.symbols@[b as int]@);
            swaps.push(Swap { from: self.symbols[s].clone(), from_amount: amount, to: self.symbols[b].clone() });
            k = k + 1;
        }
        assert(full.subrange(0, k as int) =~= full);
        assert(self.plan_outcome(ord@, Ok(swaps)));
        Ok(swaps)
    }

    /// What `rebalance` leaves for the order `ord`: the holdings after the
    /// plan when every amount fits, every swap can be carried out within the
    /// loss tolerance and the result is in range; the old holdings and
    /// `OutOfRange` otherwise. Rounding then costs each swap at most a
    /// billionth of the pool's value.
    pub open spec fn rebalance_outcome(
        &self,
        ord: Seq<usize>,
        after: Seq<Asset>,
        r: Result<(), Error>,
    ) -> bool {
        let plan = self.plan(ord);
        let applied = apply_plan(self.assets_view(), plan, loss_tolerance(self.assets_view()));
        let ok = Self::plan_fits(plan) && applied is Some && in_range(
            self.shares_view(),
            applied->0,
        );
        let before = exact_total(self.assets_view());
        &&& r is Ok <==> ok
        &&& r is Ok ==> after == applied->0
        &&& r is Ok ==> exact_total(after) <= before
        &&& r is Ok ==> before - exact_total(after) <= plan.len() * (before / 1_000_000_000)
        &&& r matches Err(e) ==> e == Error::OutOfRange && after == self.assets_view()
    }

    /// Carries out the plan on the pool's own holdings, at unchanged rates.
    /// On `Err` the pool is left as it was.
    pub fn rebalance(&mut self) -> (r: Result<(), Error>)
        requires
            old(self).wf(),
        ensures
            final(self).wf(),
            final(self).symbols_view() == old(self).symbols_view(),
            final(self).shares_view() == old(self).shares_view(),
            final(self).min_trade_view() == old(self).min_trade_view(),
            exists|ord: Seq<usize>|
                old(self).is_order(ord) && old(self).rebalance_outcome(
                    ord,
                    final(self).assets_view(),
                    r,
                ),
    {
        let (ord, planned) = self.planned();
        let steps = match planned {
            Ok(v) => v,
            Err(e) => return Err(e),
        };
        let ghost full = self.plan(ord@);
        let mut held: Vec<Asset> = Vec::new();
        let mut i: usize = 0;
        while i < self.assets.len()
            invariant
                i <= self.assets@.len(),
                held@ =~= self.assets@.subrange(0, i as int),
            decreases self.assets.len() - i,
        {
            held.push(self.assets[i]);
            i = i + 1;
        }
        assert(held@ =~= self.assets@);
        assert(full.subrange(0, full.len() as int) =~= full);
        let total = self.total_value();
        let ghost tol = loss_tolerance(self.assets@);
        proof {
            lemma_sum_sizes_bound(self.assets@, self.assets@.len() as int, self.assets@.len() as int);
        }
        let base: i128 = total - self.assets.len() as i128;
        let limit: Option<u128> = if base <= 0 {
            Some(0)
        } else {
            (base as u128).checked_mul(1_000_000_000)
        };
        let mut k: usize = 0;
        while k < steps.len()
            invariant
                *self == *old(self),
                self.wf(),
                self.is_order(ord@),
                full == self.plan(ord@),
                k <= steps@.len(),
                positions_match(steps@, full),
                forall|m: int|
                    0 <= m < steps@.len() ==> steps@[m].0 < self.len() && steps@[m].1 < self.len(),
                held@.len() == self.len(),
                forall|m: int| 0 <= m < self.len() ==> held@[m].rate == self.assets@[m].rate,
                tol == loss_tolerance(self.assets@),
                limit matches Some(l) ==> (l == tol || (l == 0 && tol <= 0)),
                limit is None ==> tol > u128::MAX,
                apply_plan(self.assets@, full, tol) == apply_plan(
                    held@,
                    full.subrange(k as int, full.len() as int),
                    tol,
                ),
            decreases steps.len() - k,
        {
            let (s, b, x) = steps[k];
            let ghost rest = full.subrange(k as int, full.len() as int);
            assert(rest[0] == full[k as int]);
            assert(rest.drop_first() =~= full.subrange(k + 1, full.len() as int));
            let seller = held[s];
            let buyer = held[b];
            let ghost stuck = apply_swap(held@, full[k as int], tol) is None && apply_plan(
                held@,
                rest,
                tol,
            ) is None;
            assert(buyer.rate <= u128::MAX / 10);
            let too_coarse = match limit {
                Some(l) => buyer.rate > l || l - buyer.rate < FIXED_ONE,
                None => false,
            };
            if x > i128::MAX as u128 || buyer.rate == 0 || too_coarse {
                assert(stuck);
                assert(apply_plan(self.assets_view(), self.plan(ord@), tol) is None);
                assert(self.rebalance_outcome(ord@, self.assets_view(), Err(Error::OutOfRange)));
                return Err(Error::OutOfRange);
            }
            let left = match seller.balance.checked_sub(x as i128) {
                Some(v) => v,
                None => {
                    assert(stuck);
                    assert(apply_plan(self.assets_view(), self.plan(ord@), tol) is None);
                    assert(self.rebalance_outcome(ord@, self.assets_view(), Err(Error::OutOfRange)));
                    return Err(Error::OutOfRange);
                },
            };
            let worth = match mul_fixed(x, seller.rate) {
                Some(v) => v,
                None => {
                    assert(stuck);
                    assert(apply_plan(self.assets_view(), self.plan(ord@), tol) is None);
                    assert(self.rebalance_outcome(ord@, self.assets_view(), Err(Error::OutOfRange)));
                    return Err(Error::OutOfRange);
                },
            };
            let got = match div_fixed(worth, buyer.rate) {
                Some(v) => v,
                None => {
                    assert(stuck);
                    assert(apply_plan(self.assets_view(), self.plan(ord@), tol) is None);
                    assert(self.rebalance_outcome(ord@, self.assets_view(), Err(Error::OutOfRange)));
                    return Err(Error::OutOfRange);
                },
            };
            if got > i128::MAX as u128 {
                assert(stuck);
                assert(apply_plan(self.assets_view(), self.plan(ord@), tol) is None);
                assert(self.rebalance_outcome(ord@, self.assets_view(), Err(Error::OutOfRange)));
                return Err(Error::OutOfRange);
            }
            let gained = match buyer.balance.checked_add(got as i128) {
                Some(v) => v,
                None => {
                    assert(stuck);
                    assert(apply_plan(self.assets_view(), self.plan(ord@), tol) is None);
                    assert(self.rebalance_outcome(ord@, self.assets_view(), Err(Error::OutOfRange)));
                    return Err(Error::OutOfRange);
                },
            };
            held.set(s, Asset { balance: left, rate: seller.rate });
            held.set(b, Asset { balance: gained, rate: buyer.rate });
            k = k + 1;
        }
        assert(full.subrange(k as int, full.len() as int) =~= Seq::<(int, int, int)>::empty());
        if !range_ok(&self.expected_shares, &held) {
            return Err(Error::OutOfRange);
        }
        proof {
            lemma_plan_conserves_value(self, ord@);
        }
        self.assets = held;
        Ok(())
    }

    /// Whether the plan is empty.
    pub fn balanced(&self) -> (r: bool)
        requires
            self.wf(),
        ensures
            exists|ord: Seq<usize>| self.is_order(ord) && (r <==> self.plan(ord).len() == 0),
    {
        match self.rebalance_plan() {
            Ok(v) => v.len() == 0,
            Err(_) => false,
        }
    }
}


/// When every holding already has exactly its target value, the plan is
/// empty whatever the order, so `balanced` holds.
pub proof fn lemma_balanced_pool_plans_nothing(p: &Pool)
    requires
        p.wf(),
        forall|i: int| 0 <= i < p.len() ==> p.change(i) == 0,
    ensures
        forall|ord: Seq<usize>| p.is_order(ord) ==> p.plan(ord).len() == 0,
{
    assert forall|ord: Seq<usize>| p.is_order(ord) implies p.plan(ord).len() == 0 by {
        if p.len() >= 2 {
            let hi = p.len() - 1;
            assert(ord[hi] < p.len());
            assert(p.change(ord[hi] as int) == 0);
        }
    }
}

/// When every holding is within the minimum trade value of its target
/// value, the plan is empty whatever the order, so `balanced` holds.
pub proof fn lemma_near_balanced_pool_plans_nothing(p: &Pool)
    requires
        p.wf(),
        forall|i: int|
            0 <= i < p.len() ==> -(p.min_trade_view() as int) < #[trigger] p.change(i)
                < p.min_trade_view(),
    ensures
        forall|ord: Seq<usize>| p.is_order(ord) ==> p.plan(ord).len() == 0,
{
    assert forall|ord: Seq<usize>| p.is_order(ord) implies p.plan(ord).len() == 0 by {
        if p.len() >= 2 {
            let hi = p.len() - 1;
            assert(ord[0] < p.len() && ord[hi] < p.len());
            assert(p.change(ord[0] as int) > -(p.min_trade_view() as int));
            assert(p.change(ord[hi] as int) < p.min_trade_view());
        }
    }
}

proof fn lemma_greedy_trades_at_least_min(p: &Pool, ord: Seq<usize>, lo: int, hi: int)
    ensures
        forall|k: int|
            0 <= k < p.greedy(ord, lo, hi).len() ==> p.trade_value(
                #[trigger] p.greedy(ord, lo, hi)[k].0,
                p.greedy(ord, lo, hi)[k].1,
            ) >= p.min_trade_view(),
    decreases hi - lo + 1,
{
    if lo < hi {
        lemma_greedy_trades_at_least_min(p, ord, lo + 1, hi - 1);
        let g = p.greedy(ord, lo, hi);
        let rest = p.greedy(ord, lo + 1, hi - 1);
        if g.len() > 0 {
            assert forall|k: int| 0 <= k < g.len() implies p.trade_value(
                #[trigger] g[k].0,
                g[k].1,
            ) >= p.min_trade_view() by {
                if k > 0 {
                    assert(g[k] == rest[k - 1]);
                }
            }
        }
    }
}

/// No swap of a plan trades less value than the pool's minimum trade value.
pub proof fn lemma_plan_respects_min_trade(p: &Pool, ord: Seq<usize>)
    requires
        p.wf(),
        p.is_order(ord),
    ensures
        forall|k: int|
            0 <= k < p.plan(ord).len() ==> p.trade_value(
                #[trigger] p.plan(ord)[k].0,
                p.plan(ord)[k].1,
            ) >= p.min_trade_view(),
{
    lemma_greedy_trades_at_least_min(p, ord, 0, p.len() - 1);
}

/// The value of the first `k` holdings, balance times rate without rounding
/// (in units of 10^-36).
pub open spec fn exact_sum(assets: Seq<Asset>, k: int) -> int
    decreases k,
{
    if k <= 0 {
        0
    } else {
        exact_sum(assets, k - 1) + assets[k - 1].balance * assets[k - 1].rate
    }
}

/// The value of all holdings, without rounding (in units of 10^-36).
pub open spec fn exact_total(assets: Seq<Asset>) -> int {
    exact_sum(assets, assets.len() as int)
}

proof fn lemma_exact_sum_update(assets: Seq<Asset>, i: int, a: Asset, k: int)
    requires
        0 <= i < assets.len(),
        0 <= k <= assets.len(),
    ensures
        exact_sum(assets.update(i, a), k) == exact_sum(assets, k) + if i < k {
            a.balance * a.rate - assets[i].balance * assets[i].rate
        } else {
            0
        },
    decreases k,
{
    if k > 0 {
        lemma_exact_sum_update(assets, i, a, k - 1);
    }
}

/// Carrying out a swap at unchanged rates keeps the pool's total value, up
/// to rounding: the value never grows, and it drops by less than one unit of
/// the buyer's asset plus one fixed-point unit (in units of 10^-36: less than
/// the buyer's rate plus 10^18).
pub proof fn lemma_swap_conserves_value(assets: Seq<Asset>, step: (int, int, int), tolerance: int)
    requires
        0 <= step.0 < assets.len(),
        0 <= step.1 < assets.len(),
        step.0 != step.1,
        step.2 >= 0,
        apply_swap(assets, step, tolerance) is Some,
    ensures
        exact_total(apply_swap(assets, step, tolerance)->0) <= exact_total(assets),
        exact_total(assets) < exact_total(apply_swap(assets, step, tolerance)->0) + assets[step.1].rate
            + FIXED_ONE,
{
    let s = assets[step.0];
    let b = assets[step.1];
    let x = step.2;
    let fr = s.rate as int;
    let rt = b.rate as int;
    let sc = FIXED_ONE as int;
    let v = fixed_mul(x, fr);
    let y = received(x, fr, rt);
    let mid = assets.update(step.0, Asset { balance: (s.balance - x) as i128, rate: s.rate });
    let after = mid.update(
        step.1,
        Asset { balance: (b.balance + y) as i128, rate: b.rate },
    );
    lemma_exact_sum_update(assets, step.0, mid[step.0], assets.len() as int);
    lemma_exact_sum_update(mid, step.1, after[step.1], assets.len() as int);
    assert(x * fr >= 0) by (nonlinear_arith)
        requires
            x >= 0,
            fr >= 0,
    ;
    assert(v * sc <= x * fr < v * sc + sc) by (nonlinear_arith)
        requires
            v == x * fr / sc,
            sc > 0,
    ;
    assert(y * rt <= v * sc < y * rt + rt) by (nonlinear_arith)
        requires
            y == v * sc / rt,
            rt > 0,
    ;
    assert((s.balance - x) * fr == s.balance * fr - x * fr) by (nonlinear_arith);
    assert((b.balance + y) * rt == b.balance * rt + y * rt) by (nonlinear_arith);
}

/// The rounding a plan may cost: for each swap, one unit of the buyer's
/// asset plus one fixed-point unit (in units of 10^-36).
pub open spec fn rounding_allowance(rates: Seq<u128>, plan: Seq<(int, int, int)>) -> int
    decreases plan.len(),
{
    if plan.len() == 0 {
        0
    } else {
        rates[plan[0].1] + FIXED_ONE + rounding_allowance(rates, plan.drop_first())
    }
}

/// The rate of each holding.
pub open spec fn rates_of(assets: Seq<Asset>) -> Seq<u128> {
    assets.map_values(|a: Asset| a.rate)
}

/// Each step sells from one holding to another, a non-negative amount.
pub open spec fn steps_valid(n: int, plan: Seq<(int, int, int)>) -> bool {
    forall|k: int|
        0 <= k < plan.len() ==> {
            &&& 0 <= #[trigger] plan[k].0 < n
            &&& 0 <= plan[k].1 < n
            &&& plan[k].0 != plan[k].1
            &&& plan[k].2 >= 0
        }
}

proof fn lemma_apply_plan_value(assets: Seq<Asset>, plan: Seq<(int, int, int)>, tolerance: int)
    requires
        steps_valid(assets.len() as int, plan),
        apply_plan(assets, plan, tolerance) is Some,
    ensures
        apply_plan(assets, plan, tolerance)->0.len() == assets.len(),
        rates_of(apply_plan(assets, plan, tolerance)->0) == rates_of(assets),
        exact_total(apply_plan(assets, plan, tolerance)->0) <= exact_total(assets),
        exact_total(assets) <= exact_total(apply_plan(assets, plan, tolerance)->0)
            + rounding_allowance(rates_of(assets), plan),
        rounding_allowance(rates_of(assets), plan) <= plan.len() * tolerance,
    decreases plan.len(),
{
    if plan.len() > 0 {
        let next = apply_swap(assets, plan[0], tolerance)->0;
        let rest = plan.drop_first();
        assert(steps_valid(assets.len() as int, rest)) by {
            assert forall|k: int| 0 <= k < rest.len() implies 0 <= #[trigger] rest[k].0
                < assets.len() by {
                assert(rest[k] == plan[k + 1]);
            }
            assert forall|k: int| 0 <= k < rest.len() implies {
                &&& 0 <= #[trigger] rest[k].0 < assets.len()
                &&& 0 <= rest[k].1 < assets.len()
                &&& rest[k].0 != rest[k].1
                &&& rest[k].2 >= 0
            } by {
                assert(rest[k] == plan[k + 1]);
            }
        }
        lemma_swap_conserves_value(assets, plan[0], tolerance);
        assert(rates_of(next) =~= rates_of(assets));
        lemma_apply_plan_value(next, rest, tolerance);
        assert(rounding_allowance(rates_of(assets), plan) == rates_of(assets)[plan[0].1] + FIXED_ONE
            + rounding_allowance(rates_of(assets), rest));
        assert(plan.len() * tolerance == tolerance + rest.len() * tolerance) by (nonlinear_arith)
            requires
                rest.len() == plan.len() - 1,
        ;
    } else {
        assert(apply_plan(assets, plan, tolerance)->0 == assets);
    }
}

proof fn lemma_greedy_steps_valid(p: &Pool, ord: Seq<usize>, lo: int, hi: int)
    requires
        p.wf(),
        p.is_order(ord),
        0 <= lo,
        hi < ord.len(),
    ensures
        steps_valid(p.len() as int, p.greedy(ord, lo, hi)),
    decreases hi - lo + 1,
{
    if lo < hi {
        let g = p.greedy(ord, lo, hi);
        lemma_greedy_steps_valid(p, ord, lo + 1, hi - 1);
        if g.len() > 0 {
            let rest = p.greedy(ord, lo + 1, hi - 1);
            let s = ord[lo] as int;
            let b = ord[hi] as int;
            assert(key_before(p.changes(), p.names(), s, b));
            lemma_bytes_before_irreflexive(p.names()[s]);
            let t = p.trade_value(s, b);
            let r = p.assets_view()[s].rate as int;
            assert(t * FIXED_ONE as int >= 0) by (nonlinear_arith)
                requires
                    t >= 0,
            ;
            if r > 0 {
                assert(fixed_div(t, r) >= 0) by (nonlinear_arith)
                    requires
                        t * FIXED_ONE as int >= 0,
                        r > 0,
                ;
            }
            assert forall|k: int| 0 <= k < g.len() implies {
                &&& 0 <= #[trigger] g[k].0 < p.len()
                &&& 0 <= g[k].1 < p.len()
                &&& g[k].0 != g[k].1
                &&& g[k].2 >= 0
            } by {
                if k > 0 {
                    assert(g[k] == rest[k - 1]);
                }
            }
        }
    }
}

proof fn lemma_sum_le_exact(assets: Seq<Asset>, k: int)
    requires
        0 <= k <= assets.len(),
    ensures
        (sum_values(assets, k) - k) * FIXED_ONE <= exact_sum(assets, k),
    decreases k,
{
    if k > 0 {
        lemma_sum_le_exact(assets, k - 1);
        let bal = assets[k - 1].balance as int;
        let rt = assets[k - 1].rate as int;
        let sc = FIXED_ONE as int;
        let m = magnitude_of(bal);
        let y = m * rt;
        assert(y >= 0) by (nonlinear_arith)
            requires
                m >= 0,
                rt >= 0,
                y == m * rt,
        ;
        let q = y / sc;
        assert(q * sc <= y < q * sc + sc) by (nonlinear_arith)
            requires
                y >= 0,
                q == y / sc,
                sc > 0,
        ;
        let v = value_of(assets, k - 1);
        if bal >= 0 {
            assert(v == q);
            assert(bal * rt == y);
        } else {
            assert(v == -q);
            assert(bal * rt == -y) by (nonlinear_arith)
                requires
                    m == -bal,
                    y == m * rt,
            ;
        }
        assert(v * sc - sc <= bal * rt);
        let p = sum_values(assets, k - 1);
        assert((p + v - k) * sc == (p - (k - 1)) * sc + v * sc - sc) by (nonlinear_arith);
    }
}

/// Carrying out a plan at unchanged rates, with the loss tolerance that
/// `rebalance` uses, keeps the pool's total value up to rounding: the value
/// never grows, and each swap costs less than one unit of the buyer's asset
/// plus one fixed-point unit, which is at most a billionth of the value.
pub proof fn lemma_plan_conserves_value(p: &Pool, ord: Seq<usize>)
    requires
        p.wf(),
        p.is_order(ord),
        apply_plan(p.assets_view(), p.plan(ord), loss_tolerance(p.assets_view())) is Some,
    ensures
        ({
            let before = exact_total(p.assets_view());
            let after = exact_total(
                apply_plan(p.assets_view(), p.plan(ord), loss_tolerance(p.assets_view()))->0,
            );
            &&& after <= before
            &&& before <= after + rounding_allowance(rates_of(p.assets_view()), p.plan(ord))
            &&& before - after <= p.plan(ord).len() * (before / 1_000_000_000)
        }),
{
    let a = p.assets_view();
    let plan = p.plan(ord);
    let tol = loss_tolerance(a);
    if p.len() > 0 {
        lemma_greedy_steps_valid(p, ord, 0, p.len() - 1);
    }
    lemma_apply_plan_value(a, plan, tol);
    lemma_sum_le_exact(a, a.len() as int);
    let before = exact_total(a);
    let t = total_of(a);
    let base = t - a.len();
    assert(tol <= before / 1_000_000_000) by (nonlinear_arith)
        requires
            base * 1_000_000_000_000_000_000 <= before,
            tol == 1_000_000_000 * base,
    ;
    let n = plan.len() as int;
    assert(n * tol <= n * (before / 1_000_000_000)) by (nonlinear_arith)
        requires
            tol <= before / 1_000_000_000,
            n >= 0,
    ;
}

} // verus!
