use vstd::prelude::*;
use vstd::arithmetic::div_mod::lemma_mod_breakdown;
use vstd::utf8::{decode_utf8, encode_utf8, is_ascii_chars, is_ascii_chars_encode_utf8, valid_utf8};

use crate::fixed::pow10;
use vstd::string::StringExecFns;
use crate::{Error, FIXED_ONE};

verus! {

broadcast use vstd::utf8::group_utf8_lib;

/// The bytes left once every trailing zero byte is removed.
pub open spec fn strip_trailing_zeros(b: Seq<u8>) -> Seq<u8>
    decreases b.len(),
{
    if b.len() > 0 && b.last() == 0 {
        strip_trailing_zeros(b.drop_last())
    } else {
        b
    }
}

/// `b` followed by zero bytes up to a length of 32.
pub open spec fn pad32(b: Seq<u8>) -> Seq<u8> {
    b + Seq::new((32 - b.len()) as nat, |i: int| 0u8)
}

/// Relies on std::str::from_utf8: it accepts exactly the valid UTF-8 byte
/// strings, and the text it returns is made of those bytes.
#[verifier::external_body]
fn utf8_text(b: &[u8]) -> (r: Option<String>)
    ensures
        r is Some <==> valid_utf8(b@),
        r matches Some(s) ==> encode_utf8(s@) == b@,
{
    std::str::from_utf8(b).ok().map(|s| s.to_string())
}

/// Reads a left-aligned, zero-padded 32-byte symbol.
pub fn to_asset_name(raw: &[u8; 32]) -> (r: Result<String, Error>)
    ensures
        valid_utf8(strip_trailing_zeros(raw@)) <==> r is Ok,
        r matches Ok(s) ==> encode_utf8(s@) == strip_trailing_zeros(raw@),
        r matches Err(e) ==> e == Error::Decode,
{
    let mut end: usize = 32;
    assert(raw@.subrange(0, 32) =~= raw@);
    while end > 0 && raw[end - 1] == 0
        invariant
            end <= 32,
            strip_trailing_zeros(raw@) == strip_trailing_zeros(raw@.subrange(0, end as int)),
        decreases end,
    {
        assert(raw@.subrange(0, end as int).drop_last() =~= raw@.subrange(0, end - 1));
        end = end - 1;
    }
    let mut bytes: Vec<u8> = Vec::new();
    let mut i: usize = 0;
    while i < end
        invariant
            i <= end <= 32,
            bytes@ =~= raw@.subrange(0, i as int),
        decreases end - i,
    {
        bytes.push(raw[i]);
        i = i + 1;
    }
    assert(strip_trailing_zeros(raw@.subrange(0, end as int)) == raw@.subrange(0, end as int));
    match utf8_text(bytes.as_slice()) {
        Some(s) => Ok(s),
        None => Err(Error::Decode),
    }
}

/// Writes a symbol as its UTF-8 bytes, left-aligned and zero-padded to 32 bytes.
pub fn asset_name_to_bytes(name: String) -> (r: Result<[u8; 32], Error>)
    ensures
        encode_utf8(name@).len() <= 32 <==> r is Ok,
        r matches Ok(a) ==> a@ == pad32(encode_utf8(name@)),
        r matches Err(e) ==> e == Error::Encode,
{
    let bytes = name.as_str().as_bytes();
    if bytes.len() > 32 {
        return Err(Error::Encode);
    }
    let mut result = [0u8; 32];
    let mut i: usize = 0;
    while i < bytes.len()
        invariant
            bytes@ == encode_utf8(name@),
            bytes@.len() <= 32,
            i <= bytes@.len(),
            forall|j: int| 0 <= j < i ==> result@[j] == bytes@[j],
            forall|j: int| i <= j < 32 ==> result@[j] == 0,
        decreases bytes.len() - i,
    {
        result[i] = bytes[i];
        i = i + 1;
    }
    assert(result@ =~= pad32(encode_utf8(name@)));
    Ok(result)
}

/// The character of a decimal digit.
pub open spec fn digit_char(d: nat) -> char {
    if d == 0 { '0' }
    else if d == 1 { '1' }
    else if d == 2 { '2' }
    else if d == 3 { '3' }
    else if d == 4 { '4' }
    else if d == 5 { '5' }
    else if d == 6 { '6' }
    else if d == 7 { '7' }
    else if d == 8 { '8' }
    else { '9' }
}

/// The last `k` decimal digits of `n`, most significant first, zeros in front.
pub open spec fn padded_digits(n: nat, k: nat) -> Seq<char>
    decreases k,
{
    if k == 0 {
        Seq::empty()
    } else {
        padded_digits(n / 10, (k - 1) as nat).push(digit_char(n % 10))
    }
}

/// How many decimal digits `n` is written with (one for zero).
pub open spec fn num_digits(n: nat) -> nat
    decreases n,
{
    if n < 10 {
        1
    } else {
        1 + num_digits(n / 10)
    }
}

/// `n` in decimal, without leading zeros.
pub open spec fn decimal(n: nat) -> Seq<char> {
    padded_digits(n, num_digits(n))
}

/// A fixed-point value as text: its integer part, a dot, and exactly eighteen
/// fractional digits.
pub open spec fn fixed_text(v: nat) -> Seq<char> {
    decimal(v / FIXED_ONE as nat) + seq!['.'] + padded_digits(v % FIXED_ONE as nat, 18)
}

/// The one-character text of a decimal digit.
fn digit(d: u128) -> (c: &'static str)
    requires
        d < 10,
    ensures
        c@ == seq![digit_char(d as nat)],
{
    proof {
        reveal_strlit("0");
        reveal_strlit("1");
        reveal_strlit("2");
        reveal_strlit("3");
        reveal_strlit("4");
        reveal_strlit("5");
        reveal_strlit("6");
        reveal_strlit("7");
        reveal_strlit("8");
        reveal_strlit("9");
    }
    if d == 0 { "0" }
    else if d == 1 { "1" }
    else if d == 2 { "2" }
    else if d == 3 { "3" }
    else if d == 4 { "4" }
    else if d == 5 { "5" }
    else if d == 6 { "6" }
    else if d == 7 { "7" }
    else if d == 8 { "8" }
    else { "9" }
}

fn push_padded(out: &mut String, n: u128, k: u128)
    ensures
        final(out)@ == old(out)@ + padded_digits(n as nat, k as nat),
    decreases k,
{
    if k > 0 {
        push_padded(out, n / 10, k - 1);
        out.append(digit(n % 10));
        assert(final(out)@ =~= old(out)@ + padded_digits(n as nat, k as nat));
    } else {
        assert(final(out)@ =~= old(out)@ + padded_digits(n as nat, k as nat));
    }
}

fn count_digits(n: u128) -> (r: u128)
    ensures
        r == num_digits(n as nat),
        r <= n as nat + 1,
    decreases n,
{
    if n < 10 {
        1
    } else {
        1 + count_digits(n / 10)
    }
}

/// Renders a fixed-point value: integer part, a dot, and the fractional part
/// with its leading zeros kept, eighteen digits long.
pub fn u256_to_string(value: u128) -> (r: String)
    ensures
        r@ == fixed_text(value as nat),
{
    let whole = value / FIXED_ONE;
    let frac = value % FIXED_ONE;
    let mut out = String::new();
    push_padded(&mut out, whole, count_digits(whole));
    proof {
        reveal_strlit(".");
    }
    out.append(".");
    push_padded(&mut out, frac, 18);
    assert(out@ =~= fixed_text(value as nat));
    out
}

/// An ASCII decimal digit.
pub open spec fn is_digit(c: u8) -> bool {
    48 <= c <= 57
}

pub open spec fn all_digits(b: Seq<u8>) -> bool {
    forall|i: int| 0 <= i < b.len() ==> is_digit(b[i])
}

/// The number that decimal digits spell.
pub open spec fn digits_value(b: Seq<u8>) -> nat
    decreases b.len(),
{
    if b.len() == 0 {
        0
    } else {
        digits_value(b.drop_last()) * 10 + (b.last() - 48) as nat
    }
}

/// The position of the first dot at or after `i`, or the length.
pub open spec fn dot_from(b: Seq<u8>, i: int) -> int
    decreases b.len() - i,
{
    if i >= b.len() {
        b.len() as int
    } else if b[i] == 46 {
        i
    } else {
        dot_from(b, i + 1)
    }
}

/// The digits before the first dot.
pub open spec fn whole_digits(b: Seq<u8>) -> Seq<u8> {
    b.subrange(0, dot_from(b, 0))
}

/// The digits after the first dot; none where there is no dot.
pub open spec fn fraction_digits(b: Seq<u8>) -> Seq<u8> {
    if dot_from(b, 0) < b.len() {
        b.subrange(dot_from(b, 0) + 1, b.len() as int)
    } else {
        Seq::empty()
    }
}

/// Decimal text that reads as a fixed-point number: digits, then optionally
/// a dot and at most eighteen more digits.
pub open spec fn is_fixed_text(b: Seq<u8>) -> bool {
    &&& whole_digits(b).len() > 0
    &&& all_digits(whole_digits(b))
    &&& all_digits(fraction_digits(b))
    &&& fraction_digits(b).len() <= 18
}

/// The fixed-point number that such text spells.
pub open spec fn fixed_value(b: Seq<u8>) -> nat {
    digits_value(whole_digits(b)) * FIXED_ONE as nat + digits_value(fraction_digits(b)) * pow10(
        (18 - fraction_digits(b).len()) as nat,
    )
}

proof fn lemma_digits_prefix_le(b: Seq<u8>, i: int)
    requires
        0 <= i <= b.len(),
        all_digits(b),
    ensures
        digits_value(b.subrange(0, i)) <= digits_value(b),
    decreases b.len(),
{
    if i < b.len() {
        assert(all_digits(b.drop_last()));
        lemma_digits_prefix_le(b.drop_last(), i);
        assert(b.drop_last().subrange(0, i) =~= b.subrange(0, i));
    } else {
        assert(b.subrange(0, i) =~= b);
    }
}

/// The number spelled by `b[lo..hi]`, when it is all digits and fits.
fn parse_digits(b: &[u8], lo: usize, hi: usize) -> (r: Option<u128>)
    requires
        lo <= hi <= b@.len(),
    ensures
        r is Some <==> all_digits(b@.subrange(lo as int, hi as int)) && digits_value(
            b@.subrange(lo as int, hi as int),
        ) <= u128::MAX,
        r matches Some(v) ==> v == digits_value(b@.subrange(lo as int, hi as int)),
{
    let ghost whole = b@.subrange(lo as int, hi as int);
    let mut v: u128 = 0;
    let mut i: usize = lo;
    while i < hi
        invariant
            lo <= i <= hi <= b@.len(),
            whole == b@.subrange(lo as int, hi as int),
            all_digits(b@.subrange(lo as int, i as int)),
            v == digits_value(b@.subrange(lo as int, i as int)),
        decreases hi - i,
    {
        let ghost next = b@.subrange(lo as int, i + 1);
        assert(next.drop_last() =~= b@.subrange(lo as int, i as int));
        assert(whole.subrange(0, i + 1 - lo) =~= next);
        if b[i] < 48 || b[i] > 57 {
            assert(!is_digit(whole[i - lo]));
            return None;
        }
        let d = (b[i] - 48) as u128;
        let t = match v.checked_mul(10) {
            Some(t) => t,
            None => {
                proof {
                    if all_digits(whole) {
                        lemma_digits_prefix_le(whole, i + 1 - lo);
                    }
                }
                return None;
            },
        };
        v = match t.checked_add(d) {
            Some(n) => n,
            None => {
                proof {
                    if all_digits(whole) {
                        lemma_digits_prefix_le(whole, i + 1 - lo);
                    }
                }
                return None;
            },
        };
        i = i + 1;
    }
    assert(b@.subrange(lo as int, i as int) =~= whole);
    Some(v)
}

/// Reads decimal text such as `0.455` as an 18-decimal fixed-point number:
/// the whole part times 10^18 plus the fractional digits scaled up to
/// eighteen places. `Encode` for any other text, more than eighteen
/// fractional digits, or a value past 128 bits.
pub fn fixed_from_decimal(text: &str) -> (r: Result<u128, Error>)
    ensures
        r is Ok <==> is_fixed_text(encode_utf8(text@)) && fixed_value(encode_utf8(text@))
            <= u128::MAX,
        r matches Ok(v) ==> v == fixed_value(encode_utf8(text@)),
        r matches Err(e) ==> e == Error::Encode,
{
    let b = text.as_bytes();
    let ghost bs = b@;
    let mut p: usize = 0;
    while p < b.len() && b[p] != 46
        invariant
            p <= b@.len(),
            bs == b@,
            dot_from(bs, 0) == dot_from(bs, p as int),
        decreases b.len() - p,
    {
        assert(bs[p as int] != 46);
        p = p + 1;
    }
    let frac_lo: usize = if p < b.len() { p + 1 } else { b.len() };
    assert(fraction_digits(bs) =~= bs.subrange(frac_lo as int, bs.len() as int));
    if p == 0 || b.len() - frac_lo > 18 {
        return Err(Error::Encode);
    }
    let whole = match parse_digits(b, 0, p) {
        Some(w) => w,
        None => {
            proof {
                lemma_fixed_value_ge_whole(bs);
            }
            return Err(Error::Encode);
        },
    };
    let frac = match parse_digits(b, frac_lo, b.len()) {
        Some(f) => f,
        None => {
            proof {
                if all_digits(fraction_digits(bs)) {
                    lemma_digits_below_pow10(fraction_digits(bs));
                    crate::fixed::lemma_pow10_mono(fraction_digits(bs).len(), 18);
                    crate::fixed::lemma_pow10_18();
                }
            }
            return Err(Error::Encode);
        },
    };
    let flen: usize = b.len() - frac_lo;
    let mut scale: u128 = 1;
    let mut k: usize = flen;
    proof {
        lemma_pow10_pos((18 - flen) as nat);
        crate::fixed::lemma_pow10_mono((18 - flen) as nat, 18);
        crate::fixed::lemma_pow10_18();
    }
    while k < 18
        invariant
            flen <= k <= 18,
            scale == pow10((k - flen) as nat),
            scale <= pow10((18 - flen) as nat),
            pow10((18 - flen) as nat) <= FIXED_ONE,
        decreases 18 - k,
    {
        proof {
            lemma_pow10_step((k - flen) as nat, (18 - flen) as nat);
        }
        scale = scale * 10;
        k = k + 1;
    }
    proof {
        lemma_digits_below_pow10(fraction_digits(bs));
        crate::fixed::lemma_pow10_18();
        let f = frac as int;
        let sc = scale as int;
        let fl = flen as nat;
        assert(pow10(fl) * pow10((18 - fl) as nat) == pow10(18)) by {
            lemma_pow10_add(fl, (18 - fl) as nat);
        }
        lemma_pow10_pos((18 - fl) as nat);
        assert(f * sc < pow10(18)) by (nonlinear_arith)
            requires
                f < pow10(fl),
                sc == pow10((18 - fl) as nat),
                pow10(fl) * pow10((18 - fl) as nat) == pow10(18),
                sc >= 1,
        ;
        assert(f * sc >= 0) by (nonlinear_arith)
            requires
                f >= 0,
                sc >= 0,
        ;
    }
    let low = frac * scale;
    let high = match whole.checked_mul(FIXED_ONE) {
        Some(h) => h,
        None => return Err(Error::Encode),
    };
    match high.checked_add(low) {
        Some(v) => Ok(v),
        None => Err(Error::Encode),
    }
}

proof fn lemma_fixed_value_ge_whole(b: Seq<u8>)
    ensures
        fixed_value(b) >= digits_value(whole_digits(b)),
{
    let w = digits_value(whole_digits(b)) as int;
    let f = digits_value(fraction_digits(b)) as int;
    let q = pow10((18 - fraction_digits(b).len()) as nat) as int;
    assert(w * FIXED_ONE as int + f * q >= w) by (nonlinear_arith)
        requires
            w >= 0,
            f >= 0,
            q >= 0,
    ;
}

proof fn lemma_pow10_step(i: nat, j: nat)
    requires
        i < j,
    ensures
        pow10(i) * 10 <= pow10(j),
        pow10(i + 1) == pow10(i) * 10,
    decreases j - i,
{
    if i + 1 < j {
        lemma_pow10_step(i + 1, j);
        lemma_pow10_pos(i + 1);
    }
}

proof fn lemma_pow10_pos(i: nat)
    ensures
        pow10(i) >= 1,
    decreases i,
{
    if i > 0 {
        lemma_pow10_pos((i - 1) as nat);
    }
}

proof fn lemma_pow10_add(i: nat, j: nat)
    ensures
        pow10(i) * pow10(j) == pow10(i + j),
    decreases i,
{
    if i == 0 {
        assert(pow10(0) == 1);
    } else {
        let a = pow10((i - 1) as nat);
        let c = pow10(j);
        lemma_pow10_add((i - 1) as nat, j);
        assert(pow10(i + j) == 10 * pow10((i + j - 1) as nat));
        assert((i - 1) as nat + j == (i + j - 1) as nat);
        assert(pow10(i) == 10 * a);
        assert((10 * a) * c == 10 * (a * c)) by (nonlinear_arith);
    }
}

proof fn lemma_digits_below_pow10(b: Seq<u8>)
    requires
        all_digits(b),
    ensures
        digits_value(b) < pow10(b.len()),
    decreases b.len(),
{
    if b.len() > 0 {
        assert(all_digits(b.drop_last()));
        lemma_digits_below_pow10(b.drop_last());
        assert(pow10(b.len()) == 10 * pow10(b.drop_last().len()));
    }
}

/// The bytes of ASCII text, one per character.
pub open spec fn ascii_bytes(s: Seq<char>) -> Seq<u8> {
    Seq::new(s.len(), |i: int| s[i] as u8)
}

proof fn lemma_padded_digits_read_back(n: nat, k: nat)
    ensures
        padded_digits(n, k).len() == k,
        is_ascii_chars(padded_digits(n, k)),
        forall|i: int| 0 <= i < k ==> #[trigger] padded_digits(n, k)[i] != '.',
        all_digits(ascii_bytes(padded_digits(n, k))),
        digits_value(ascii_bytes(padded_digits(n, k))) == n % pow10(k),
    decreases k,
{
    if k > 0 {
        lemma_padded_digits_read_back(n / 10, (k - 1) as nat);
        let p = padded_digits(n / 10, (k - 1) as nat);
        let q = padded_digits(n, k);
        assert(q == p.push(digit_char(n % 10)));
        assert(ascii_bytes(q).drop_last() =~= ascii_bytes(p));
        assert(ascii_bytes(q).last() == digit_char(n % 10) as u8);
        assert(digit_char(n % 10) as u8 - 48 == n % 10);
        lemma_pow10_pos((k - 1) as nat);
        lemma_mod_breakdown(n as int, 10, pow10((k - 1) as nat) as int);
        assert(pow10(k) == 10 * pow10((k - 1) as nat));
        assert forall|i: int| 0 <= i < k implies #[trigger] q[i] != '.' by {
            if i < k - 1 {
                assert(q[i] == p[i]);
            }
        }
        assert forall|i: int| 0 <= i < ascii_bytes(q).len() implies is_digit(
            #[trigger] ascii_bytes(q)[i],
        ) by {
            if i < k - 1 {
                assert(ascii_bytes(q)[i] == ascii_bytes(p)[i]);
            }
        }
    } else {
        assert(n % pow10(0) == 0) by {
            assert(pow10(0) == 1);
        }
    }
}

proof fn lemma_below_pow10_num_digits(n: nat)
    ensures
        n < pow10(num_digits(n)),
    decreases n,
{
    if n >= 10 {
        lemma_below_pow10_num_digits(n / 10);
        assert(pow10(num_digits(n)) == 10 * pow10(num_digits(n / 10)));
    } else {
        assert(pow10(1) == 10 * pow10(0));
    }
}

proof fn lemma_dot_at(b: Seq<u8>, i: int, p: int)
    requires
        0 <= i <= p < b.len(),
        b[p] == 46,
        forall|j: int| i <= j < p ==> b[j] != 46,
    ensures
        dot_from(b, i) == p,
    decreases p - i,
{
    if i < p {
        lemma_dot_at(b, i + 1, p);
    }
}

/// Rendering a fixed-point value as text and reading that text back gives
/// the value again.
pub proof fn lemma_fixed_text_round_trip(v: u128)
    ensures
        is_fixed_text(encode_utf8(fixed_text(v as nat))),
        fixed_value(encode_utf8(fixed_text(v as nat))) == v,
{
    let sc = FIXED_ONE as nat;
    let w = v as nat / sc;
    let f = v as nat % sc;
    let a = decimal(w);
    let c = padded_digits(f, 18);
    let t = fixed_text(v as nat);
    lemma_padded_digits_read_back(w, num_digits(w));
    lemma_padded_digits_read_back(f, 18);
    assert(t =~= a + seq!['.'] + c);
    assert(is_ascii_chars(t)) by {
        assert forall|i: int| 0 <= i < t.len() implies '\0' <= #[trigger] t[i] <= '\u{7f}' by {
            if i < a.len() {
                assert(t[i] == a[i]);
            } else if i > a.len() {
                assert(t[i] == c[i - a.len() - 1]);
            }
        }
    }
    is_ascii_chars_encode_utf8(t);
    let b = encode_utf8(t);
    assert(b =~= ascii_bytes(a) + seq![46u8] + ascii_bytes(c)) by {
        assert forall|i: int| 0 <= i < b.len() implies b[i] == (ascii_bytes(a) + seq![46u8]
            + ascii_bytes(c))[i] by {
            assert(t[i] as u8 == b[i]);
            if i < a.len() {
                assert(t[i] == a[i]);
            } else if i > a.len() {
                assert(t[i] == c[i - a.len() - 1]);
            }
        }
    }
    assert forall|j: int| 0 <= j < a.len() implies b[j] != 46 by {
        assert(b[j] == ascii_bytes(a)[j]);
        assert(a[j] != '.');
    }
    lemma_dot_at(b, 0, a.len() as int);
    assert(whole_digits(b) =~= ascii_bytes(a));
    assert(fraction_digits(b) =~= ascii_bytes(c));
    lemma_below_pow10_num_digits(w);
    crate::fixed::lemma_pow10_18();
    assert(w % pow10(num_digits(w)) == w) by (nonlinear_arith)
        requires
            w < pow10(num_digits(w)),
    ;
    assert(f % pow10(18) == f) by (nonlinear_arith)
        requires
            f < pow10(18),
    ;
    assert(pow10(0) == 1);
    assert(digits_value(whole_digits(b)) == w);
    assert(digits_value(fraction_digits(b)) == f);
    assert(fraction_digits(b).len() == 18);
    assert((18 - fraction_digits(b).len()) as nat == 0);
    assert(f * pow10(0) == f) by (nonlinear_arith)
        requires
            pow10(0) == 1,
    ;
    assert(v == w * sc + f) by (nonlinear_arith)
        requires
            w == v as nat / sc,
            f == v as nat % sc,
            sc > 0,
    ;
}

proof fn lemma_strip_zero_tail(b: Seq<u8>, k: nat)
    requires
        b.len() == 0 || b.last() != 0,
    ensures
        strip_trailing_zeros(b + Seq::new(k, |i: int| 0u8)) == b,
    decreases k,
{
    let z = Seq::new(k, |i: int| 0u8);
    if k == 0 {
        assert(b + z =~= b);
    } else {
        assert((b + z).drop_last() =~= b + Seq::new((k - 1) as nat, |i: int| 0u8));
        lemma_strip_zero_tail(b, (k - 1) as nat);
    }
}

/// Writing a symbol of at most 32 bytes and reading it back gives the same
/// symbol, unless its encoding ends in a zero byte (which reads as padding).
pub proof fn lemma_symbol_round_trip(s: Seq<char>)
    requires
        encode_utf8(s).len() <= 32,
        encode_utf8(s).len() == 0 || encode_utf8(s).last() != 0,
    ensures
        valid_utf8(strip_trailing_zeros(pad32(encode_utf8(s)))),
        forall|t: Seq<char>|
            encode_utf8(t) == strip_trailing_zeros(pad32(encode_utf8(s))) ==> t == s,
{
    let b = encode_utf8(s);
    lemma_strip_zero_tail(b, (32 - b.len()) as nat);
    assert forall|t: Seq<char>| encode_utf8(t) == strip_trailing_zeros(pad32(b)) implies t == s by {
        assert(decode_utf8(encode_utf8(t)) == t);
        assert(decode_utf8(encode_utf8(s)) == s);
    }
}

} // verus!
