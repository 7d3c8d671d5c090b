use vstd::prelude::*;
use vstd::utf8::{encode_utf8, valid_utf8};

use crate::parser::{asset_name_to_bytes, pad32, strip_trailing_zeros, to_asset_name};
use crate::pool::{Asset, Swap, Symbol};
use crate::Error;

verus! {

/// One `exchange(fromAsset, fromAmount, toAsset)` transaction, with the nonce
/// it is sent under.
pub struct ExchangeCall {
    pub from: [u8; 32],
    pub from_amount: u128,
    pub to: [u8; 32],
    pub nonce: u128,
}

/// Turns the three parallel arrays that `getFundComposition` returns into a
/// snapshot: the `i`-th symbol with the `i`-th balance and rate. `Decode`
/// when the arrays differ in length, a symbol is not UTF-8 text, or a
/// balance is past the `i128` range.
pub fn snapshot_from_chain(symbols: &Vec<[u8; 32]>, balances: &Vec<u128>, rates: &Vec<u128>) -> (r:
    Result<Vec<(Symbol, Asset)>, Error>)
    ensures
        r is Ok <==> {
            &&& balances@.len() == symbols@.len()
            &&& rates@.len() == symbols@.len()
            &&& forall|i: int|
                0 <= i < symbols@.len() ==> valid_utf8(strip_trailing_zeros(symbols@[i]@))
            &&& forall|i: int| 0 <= i < balances@.len() ==> balances@[i] <= i128::MAX
        },
        r matches Err(e) ==> e == Error::Decode,
        r matches Ok(v) ==> {
            &&& v@.len() == symbols@.len()
            &&& forall|i: int|
                0 <= i < v@.len() ==> {
                    &&& encode_utf8(v@[i].0@) == strip_trailing_zeros(symbols@[i]@)
                    &&& v@[i].1 == Asset { balance: balances@[i] as i128, rate: rates@[i] }
                }
        },
{
    if balances.len() != symbols.len() || rates.len() != symbols.len() {
        return Err(Error::Decode);
    }
    let mut out: Vec<(Symbol, Asset)> = Vec::new();
    let mut i: usize = 0;
    while i < symbols.len()
        invariant
            balances@.len() == symbols@.len(),
            rates@.len() == symbols@.len(),
            i <= symbols@.len(),
            out@.len() == i,
            forall|k: int| 0 <= k < i ==> valid_utf8(strip_trailing_zeros(symbols@[k]@)),
            forall|k: int| 0 <= k < i ==> balances@[k] <= i128::MAX,
            forall|k: int|
                0 <= k < i ==> {
                    &&& encode_utf8(out@[k].0@) == strip_trailing_zeros(symbols@[k]@)
                    &&& out@[k].1 == Asset { balance: balances@[k] as i128, rate: rates@[k] }
                },
        decreases symbols.len() - i,
    {
        let name = match to_asset_name(&symbols[i]) {
            Ok(n) => n,
            Err(e) => return Err(e),
        };
        if balances[i] > i128::MAX as u128 {
            return Err(Error::Decode);
        }
        out.push((name, Asset { balance: balances[i] as i128, rate: rates[i] }));
        i = i + 1;
    }
    Ok(out)
}

/// The symbols of every swap fit in 32 bytes.
pub open spec fn symbols_fit(swaps: Seq<Swap>) -> bool {
    forall|k: int|
        0 <= k < swaps.len() ==> encode_utf8(swaps[k].from@).len() <= 32 && encode_utf8(
            swaps[k].to@,
        ).len() <= 32
}

/// The transactions that carry out `swaps` in order: the `k`-th swap with its
/// symbols in on-chain form, under nonce `first_nonce + k`. `OutOfRange` when
/// the nonces would pass 128 bits; otherwise `Encode` when a symbol is longer
/// than 32 bytes.
pub fn exchange_calls(swaps: &Vec<Swap>, first_nonce: u128) -> (r: Result<Vec<ExchangeCall>, Error>)
    ensures
        first_nonce + swaps@.len() > u128::MAX + 1 ==> r == Err::<Vec<ExchangeCall>, Error>(
            Error::OutOfRange,
        ),
        first_nonce + swaps@.len() <= u128::MAX + 1 ==> (r is Ok <==> symbols_fit(swaps@)),
        first_nonce + swaps@.len() <= u128::MAX + 1 && r is Err ==> r == Err::<
            Vec<ExchangeCall>,
            Error,
        >(Error::Encode),
        r matches Ok(v) ==> {
            &&& v@.len() == swaps@.len()
            &&& forall|k: int|
                0 <= k < v@.len() ==> {
                    &&& v@[k].from@ == pad32(encode_utf8(swaps@[k].from@))
                    &&& v@[k].from_amount == swaps@[k].from_amount
                    &&& v@[k].to@ == pad32(encode_utf8(swaps@[k].to@))
                    &&& v@[k].nonce == first_nonce + k
                }
        },
{
    if swaps.len() > 0 && swaps.len() as u128 - 1 > u128::MAX - first_nonce {
        return Err(Error::OutOfRange);
    }
    let mut calls: Vec<ExchangeCall> = Vec::new();
    let mut nonce: u128 = first_nonce;
    let mut k: usize = 0;
    while k < swaps.len()
        invariant
            first_nonce + swaps@.len() <= u128::MAX + 1,
            k <= swaps@.len(),
            k < swaps@.len() ==> nonce == first_nonce + k,
            calls@.len() == k,
            symbols_fit(swaps@.subrange(0, k as int)),
            forall|m: int|
                0 <= m < k ==> {
                    &&& calls@[m].from@ == pad32(encode_utf8(swaps@[m].from@))
                    &&& calls@[m].from_amount == swaps@[m].from_amount
                    &&& calls@[m].to@ == pad32(encode_utf8(swaps@[m].to@))
                    &&& calls@[m].nonce == first_nonce + m
                },
        decreases swaps.len() - k,
    {
        let swap = &swaps[k];
        let from = match asset_name_to_bytes(swap.from.clone()) {
            Ok(b) => b,
            Err(e) => {
                assert(!symbols_fit(swaps@));
                return Err(e);
            },
        };
        let to = match asset_name_to_bytes(swap.to.clone()) {
            Ok(b) => b,
            Err(e) => {
                assert(!symbols_fit(swaps@));
                return Err(e);
            },
        };
        calls.push(ExchangeCall { from, from_amount: swap.from_amount, to, nonce });
        assert(symbols_fit(swaps@.subrange(0, k + 1))) by {
            assert forall|m: int| 0 <= m < k + 1 implies encode_utf8(
                #[trigger] swaps@.subrange(0, k + 1)[m].from@,
            ).len() <= 32 && encode_utf8(swaps@.subrange(0, k + 1)[m].to@).len() <= 32 by {
                if m < k {
                    assert(swaps@.subrange(0, k + 1)[m] == swaps@.subrange(0, k as int)[m]);
                }
            }
        }
        k = k + 1;
        if k < swaps.len() {
            nonce = nonce + 1;
        }
    }
    assert(swaps@.subrange(0, k as int) =~= swaps@);
    Ok(calls)
}

} // verus!
