//! Decimal text for scaled integers.
//!
//! A value scaled by `10^k` is written as its integer part, a dot, and
//! exactly `k` fraction digits; parsing accepts any number of fraction
//! digits and keeps the first `k`. The formats are exact, so writing and
//! re-parsing a value is the identity (see `lemma_scaled_round_trip`).

use vstd::prelude::*;

use crate::fixed::{lemma_pow10_exact, lemma_pow10_mono, lemma_pow10_pos, pow10};

verus! {

/// Is `c` one of the ten ASCII digits?
pub open spec fn is_digit(c: char) -> bool {
    48 <= c as int <= 57
}

/// The digit character for `d` (meaningful for `0 <= d < 10`).
pub open spec fn digit_char(d: int) -> char {
    if d == 0 {
        '0'
    } else if d == 1 {
        '1'
    } else if d == 2 {
        '2'
    } else if d == 3 {
        '3'
    } else if d == 4 {
        '4'
    } else if d == 5 {
        '5'
    } else if d == 6 {
        '6'
    } else if d == 7 {
        '7'
    } else if d == 8 {
        '8'
    } else {
        '9'
    }
}

/// The numeric value of a digit character.
pub open spec fn digit_val(c: char) -> int {
    c as int - 48
}

/// Every character of `s` is a digit.
pub open spec fn all_digits(s: Seq<char>) -> bool {
    forall|i: int| 0 <= i < s.len() ==> is_digit(#[trigger] s[i])
}

/// The value of a digit string, most significant digit first.
pub open spec fn val_of_digits(s: Seq<char>) -> int
    decreases s.len(),
{
    if s.len() == 0 {
        0
    } else {
        val_of_digits(s.drop_last()) * 10 + digit_val(s.last())
    }
}

/// The shortest decimal notation of a non-negative integer.
pub open spec fn dec_of(n: int) -> Seq<char>
    recommends
        n >= 0,
    decreases n,
{
    if n < 10 {
        seq![digit_char(n)]
    } else {
        dec_of(n / 10) + seq![digit_char(n % 10)]
    }
}

/// Exactly `k` digits giving the value `r` (meaningful for `r < 10^k`),
/// zero-padded on the left.
pub open spec fn padded_digits(r: int, k: nat) -> Seq<char>
    decreases k,
{
    if k == 0 {
        Seq::empty()
    } else {
        padded_digits(r / 10, (k - 1) as nat) + seq![digit_char(r % 10)]
    }
}

/// A value scaled by `10^k`, written as integer part, dot, `k` digits.
pub open spec fn fmt_scaled_spec(v: int, k: nat) -> Seq<char> {
    if k == 0 {
        dec_of(v)
    } else {
        dec_of(v / pow10(k)) + seq!['.'] + padded_digits(v % pow10(k), k)
    }
}

/// Index of the first occurrence of `c` in `s`, or -1.
pub open spec fn find_char(s: Seq<char>, c: char) -> int
    decreases s.len(),
{
    if s.len() == 0 {
        -1
    } else if s[0] == c {
        0
    } else {
        let r = find_char(s.subrange(1, s.len() as int), c);
        if r < 0 {
            -1
        } else {
            1 + r
        }
    }
}

/// `find_char` returns the least index holding `c`, or -1 when absent.
pub proof fn lemma_find_char(s: Seq<char>, c: char)
    ensures
        find_char(s, c) == -1 <==> (forall|i: int| 0 <= i < s.len() ==> s[i] != c),
        find_char(s, c) >= 0 ==> find_char(s, c) < s.len() && s[find_char(s, c)] == c && (forall|
            i: int,
        | 0 <= i < find_char(s, c) ==> s[i] != c),
    decreases s.len(),
{
    if s.len() > 0 && s[0] != c {
        lemma_find_char(s.subrange(1, s.len() as int), c);
        let tail = s.subrange(1, s.len() as int);
        assert(forall|i: int| 1 <= i < s.len() ==> s[i] == tail[i - 1]);
    }
}

/// An acceptable integer part: one to twelve digits.
pub open spec fn ok_int_part(s: Seq<char>) -> bool {
    1 <= s.len() <= 12 && all_digits(s)
}

/// The meaning of decimal text at scale `10^k`: `None` when the text is not
/// an unsigned decimal number of at most twelve integer digits, otherwise
/// the value scaled by `10^k` with fraction digits beyond `k` dropped.
pub open spec fn parse_scaled_spec(s: Seq<char>, k: nat) -> Option<int> {
    let d = find_char(s, '.');
    if d < 0 {
        if ok_int_part(s) {
            Some(val_of_digits(s) * pow10(k))
        } else {
            None
        }
    } else {
        let ip = s.subrange(0, d);
        let fp = s.subrange(d + 1, s.len() as int);
        if ok_int_part(ip) && 1 <= fp.len() && all_digits(fp) {
            let keep = if fp.len() <= k {
                fp.len() as nat
            } else {
                k
            };
            Some(
                val_of_digits(ip) * pow10(k) + val_of_digits(fp.subrange(0, keep as int)) * pow10(
                    (k - keep) as nat,
                ),
            )
        } else {
            None
        }
    }
}

/// Digit strings have the value their length bounds: `val < 10^len`.
pub proof fn lemma_val_of_digits_bound(s: Seq<char>)
    requires
        all_digits(s),
    ensures
        0 <= val_of_digits(s) < pow10(s.len()),
    decreases s.len(),
{
    if s.len() == 0 {
    } else {
        lemma_val_of_digits_bound(s.drop_last());
        let p = pow10((s.len() - 1) as nat);
        let v = val_of_digits(s.drop_last());
        assert(v * 10 + digit_val(s.last()) < p * 10) by (nonlinear_arith)
            requires
                v < p,
                digit_val(s.last()) <= 9,
        ;
        assert(v * 10 >= 0) by (nonlinear_arith)
            requires
                v >= 0,
        ;
        assert(pow10(s.len()) == 10 * p);
    }
}

/// The single digit string for `d`.
pub fn digit_str(d: u64) -> (r: &'static str)
    requires
        d < 10,
    ensures
        r@ =~= seq![digit_char(d as int)],
{
    proof {
        reveal_strlit("0");
        reveal_strlit("1");
        reveal_strlit("2");
        reveal_strlit("3");
        reveal_strlit("4");
        reveal_strlit("5");
        reveal_strlit("6");
        reveal_strlit("7");
        reveal_strlit("8");
        reveal_strlit("9");
    }
    match d {
        0 => "0",
        1 => "1",
        2 => "2",
        3 => "3",
        4 => "4",
        5 => "5",
        6 => "6",
        7 => "7",
        8 => "8",
        _ => "9",
    }
}

/// The shortest decimal notation of `n`.
pub fn u64_to_dec(n: u64) -> (r: String)
    ensures
        r@ == dec_of(n as int),
    decreases n,
{
    if n < 10 {
        digit_str(n).to_owned()
    } else {
        let mut s = u64_to_dec(n / 10);
        s.append(digit_str(n % 10));
        s
    }
}

/// `10^k` for small `k`.
pub fn pow10_exec(k: u8) -> (r: u64)
    requires
        k <= 8,
    ensures
        r == pow10(k as nat),
{
    proof {
        lemma_pow10_exact(k as nat);
    }
    match k {
        0 => 1,
        1 => 10,
        2 => 100,
        3 => 1000,
        4 => 10_000,
        5 => 100_000,
        6 => 1_000_000,
        7 => 10_000_000,
        _ => 100_000_000,
    }
}

/// Exactly `k` digits for `r`, zero-padded on the left.
pub fn padded_digits_exec(r: u64, k: u8) -> (s: String)
    ensures
        s@ == padded_digits(r as int, k as nat),
    decreases k,
{
    if k == 0 {
        String::new()
    } else {
        let mut s = padded_digits_exec(r / 10, k - 1);
        s.append(digit_str(r % 10));
        s
    }
}

/// Write `v` (scaled by `10^k`) as decimal text with `k` fraction digits.
pub fn fmt_scaled(v: u64, k: u8) -> (s: String)
    requires
        k <= 6,
    ensures
        s@ == fmt_scaled_spec(v as int, k as nat),
{
    if k == 0 {
        u64_to_dec(v)
    } else {
        let p = pow10_exec(k);
        proof {
            lemma_pow10_pos(k as nat);
        }
        let mut s = u64_to_dec(v / p);
        proof {
            reveal_strlit(".");
        }
        s.append(".");
        let frac = padded_digits_exec(v % p, k);
        s.append(frac.as_str());
        proof {
            assert(s@ =~= fmt_scaled_spec(v as int, k as nat));
        }
        s
    }
}

/// Parse decimal text at scale `10^k`.
pub fn parse_scaled(s: &str, k: u8) -> (r: Option<u64>)
    requires
        k <= 6,
    ensures
        match r {
            Some(v) => parse_scaled_spec(s@, k as nat) == Some(v as int),
            None => parse_scaled_spec(s@, k as nat) is None,
        },
{
    let n = s.unicode_len();
    let ghost view = s@;
    // locate the first dot
    let mut i: usize = 0;
    let mut dot: Option<usize> = None;
    while i < n && dot.is_none()
        invariant
            n == view.len(),
            view == s@,
            i <= n,
            match dot {
                Some(d) => d < n && view[d as int] == '.' && (forall|j: int|
                    0 <= j < d ==> view[j] != '.') && i == d + 1,
                None => forall|j: int| 0 <= j < i ==> view[j] != '.',
            },
        decreases n - i,
    {
        if s.get_char(i) == '.' {
            dot = Some(i);
        }
        i = i + 1;
    }
    proof {
        lemma_find_char(view, '.');
    }
    match dot {
        None => {
            proof {
                assert(find_char(view, '.') == -1);
            }
            if n < 1 || n > 12 {
                return None;
            }
            match parse_digits(s, 0, n) {
                Some(v) => {
                    proof {
                        assert(view.subrange(0, n as int) =~= view);
                        lemma_pow10_exact(k as nat);
                        lemma_val_of_digits_bound(view);
                        lemma_pow10_exact(12);
                        lemma_pow10_mono(view.len(), 12);
                    }
                    {
                        let p = pow10_exec(k);
                        proof {
                            assert(v * p <= 999_999_999_999 * 1_000_000) by (nonlinear_arith)
                                requires
                                    0 <= v <= 999_999_999_999,
                                    0 <= p <= 1_000_000,
                            ;
                            assert(v * p >= 0) by (nonlinear_arith)
                                requires
                                    v >= 0,
                                    p >= 0,
                            ;
                        }
                        Some(v * p)
                    }
                },
                None => {
                    proof {
                        assert(view.subrange(0, n as int) =~= view);
                    }
                    None
                },
            }
        },
        Some(d) => {
            proof {
                assert(find_char(view, '.') == d);
            }
            let ghost ip = view.subrange(0, d as int);
            let ghost fp = view.subrange(d as int + 1, n as int);
            if d < 1 || d > 12 || d + 1 >= n {
                proof {
                    if 1 <= d <= 12 {
                        assert(fp.len() == 0);
                    }
                }
                return None;
            }
            match parse_digits(s, 0, d) {
                None => None,
                Some(vi) => {
                    let keep: usize = if n - (d + 1) <= k as usize {
                        n - (d + 1)
                    } else {
                        k as usize
                    };
                    match parse_digits(s, d + 1, d + 1 + keep) {
                        None => {
                            // a non-digit among the kept fraction characters
                            proof {
                                let sub = view.subrange(d as int + 1, d as int + 1 + keep as int);
                                assert(exists|t: int| 0 <= t < sub.len() && !is_digit(sub[t]));
                                let t = choose|t: int| 0 <= t < sub.len() && !is_digit(sub[t]);
                                assert(sub[t] == view[d + 1 + t]);
                                assert(fp[t] == view[d + 1 + t]);
                                assert(!is_digit(fp[t]));
                            }
                            None
                        },
                        Some(vf) => {
                            // the dropped fraction tail must still be digits
                            let mut j: usize = d + 1 + keep;
                            while j < n
                                invariant
                                    view == s@,
                                    n == view.len(),
                                    d + 1 < n,
                                    find_char(view, '.') == d,
                                    fp == view.subrange(d as int + 1, n as int),
                                    d + 1 + keep <= j <= n,
                                    forall|t: int| d + 1 + keep <= t < j ==> is_digit(view[t]),
                                decreases n - j,
                            {
                                let c = s.get_char(j);
                                if !(c >= '0' && c <= '9') {
                                    proof {
                                        assert(fp.len() == n - d - 1);
                                        assert(0 <= j - d - 1 < fp.len());
                                        assert(fp[j - d - 1] == view[(d + 1) + (j - d - 1)]);
                                        assert(!is_digit(fp[j - d - 1]));
                                        assert(!all_digits(fp));
                                        assert(parse_scaled_spec(view, k as nat) is None);
                                    }
                                    return None;
                                }
                                j = j + 1;
                            }
                            proof {
                                assert(all_digits(ip)) by {
                                    assert(forall|t: int|
                                        0 <= t < d ==> ip[t] == view.subrange(0, d as int)[t]);
                                }
                                assert(all_digits(fp)) by {
                                    assert(forall|t: int|
                                        0 <= t < fp.len() ==> fp[t] == view[t + d + 1]);
                                }
                                lemma_val_of_digits_bound(ip);
                                lemma_pow10_exact(12);
                                lemma_pow10_mono(ip.len(), 12);
                                assert(fp.subrange(0, keep as int) =~= view.subrange(
                                    d as int + 1,
                                    d as int + 1 + keep as int,
                                ));
                                lemma_val_of_digits_bound(fp.subrange(0, keep as int));
                                lemma_pow10_exact(keep as nat);
                                lemma_pow10_exact(k as nat);
                                lemma_pow10_exact((k as nat - keep as nat) as nat);
                            }
                            if vi <= 999_999_999_999 {
                                let p = pow10_exec(k);
                                let q = pow10_exec(k - keep as u8);
                                proof {
                                    assert(vi * p + vf * q <= 999_999_999_999 * 1_000_000
                                        + 1_000_000 * 1_000_000) by (nonlinear_arith)
                                        requires
                                            0 <= vi <= 999_999_999_999,
                                            0 <= p <= 1_000_000,
                                            0 <= vf <= 1_000_000,
                                            0 <= q <= 1_000_000,
                                            vf < pow10(keep as nat),
                                            q == pow10((k as nat - keep as nat) as nat),
                                    ;
                                }
                                Some(vi * p + vf * q)
                            } else {
                                None
                            }
                        },
                    }
                },
            }
        },
    }
}

/// Parse the digit run `s[from..to]`; `None` when a non-digit occurs.
fn parse_digits(s: &str, from: usize, to: usize) -> (r: Option<u64>)
    requires
        from <= to <= s@.len(),
        to - from <= 13,
    ensures
        match r {
            Some(v) => all_digits(s@.subrange(from as int, to as int)) && v == val_of_digits(
                s@.subrange(from as int, to as int),
            ),
            None => !all_digits(s@.subrange(from as int, to as int)),
        },
{
    let ghost whole = s@.subrange(from as int, to as int);
    let mut v: u64 = 0;
    let mut i: usize = from;
    while i < to
        invariant
            from <= i <= to <= s@.len(),
            to - from <= 13,
            whole == s@.subrange(from as int, to as int),
            all_digits(s@.subrange(from as int, i as int)),
            v == val_of_digits(s@.subrange(from as int, i as int)),
            v < pow10((i - from) as nat),
        decreases to - i,
    {
        let c = s.get_char(i);
        if !(c >= '0' && c <= '9') {
            proof {
                assert(whole[i - from] == s@[i as int]);
                assert(!is_digit(whole[i - from]));
            }
            return None;
        }
        proof {
            lemma_pow10_exact((i - from) as nat);
            lemma_pow10_exact(13);
            assert(s@.subrange(from as int, i as int + 1).drop_last() =~= s@.subrange(
                from as int,
                i as int,
            ));
        }
        let d: u64 = (c as u32 as u64) - 48;
        v = v * 10 + d;
        i = i + 1;
    }
    proof {
        assert(s@.subrange(from as int, i as int) =~= whole);
    }
    Some(v)
}

/// Writing a value at scale `10^k` and parsing it back is the identity.
#[verifier::rlimit(60)]
pub proof fn lemma_scaled_round_trip(v: int, k: nat)
    requires
        0 <= v,
        v / pow10(k) <= 999_999_999_999,
        k <= 6,
    ensures
        parse_scaled_spec(fmt_scaled_spec(v, k), k) == Some(v),
{
    lemma_pow10_pos(k);
    let p = pow10(k);
    let q = v / p;
    let r = v % p;
    vstd::arithmetic::div_mod::lemma_fundamental_div_mod(v, p);
    lemma_dec_of_digits(q);
    lemma_dec_len(q);
    if k == 0 {
        assert(p == 1);
        assert(fmt_scaled_spec(v, 0) == dec_of(v));
        assert(v % 1 == 0) by (nonlinear_arith);
        assert(q == v);
        lemma_find_char(dec_of(q), '.');
        if find_char(dec_of(q), '.') >= 0 {
            assert(is_digit(dec_of(q)[find_char(dec_of(q), '.')]));
        }
        assert(val_of_digits(dec_of(q)) * pow10(0) == q) by {
            assert(pow10(0) == 1);
        }
    } else {
        let s = fmt_scaled_spec(v, k);
        let dec = dec_of(q);
        let frac = padded_digits(r, k);
        lemma_padded_digits(r, k);
        assert(s == dec + seq!['.'] + frac);
        // the first dot is right after the integer part
        lemma_find_char(s, '.');
        assert(s[dec.len() as int] == '.');
        assert(forall|i: int| 0 <= i < dec.len() ==> s[i] == dec[i] && s[i] != '.');
        let d = find_char(s, '.');
        assert(d >= 0);
        assert(d == dec.len()) by {
            if d < dec.len() {
                assert(s[d] == dec[d]);
            }
        }
        let ip = s.subrange(0, d);
        let fp = s.subrange(d + 1, s.len() as int);
        assert(ip =~= dec);
        assert(fp =~= frac);
        assert(fp.len() == k);
        let keep = if fp.len() <= k {
            fp.len() as nat
        } else {
            k
        };
        assert(keep == k);
        assert(fp.subrange(0, keep as int) =~= frac);
        assert(val_of_digits(ip) * pow10(k) + val_of_digits(fp.subrange(0, keep as int)) * pow10(
            (k - keep) as nat,
        ) == q * p + r) by {
            assert(pow10(0) == 1);
        }
    }
}

/// `dec_of(n)` is all digits and reads back as `n`.
pub proof fn lemma_dec_of_digits(n: int)
    requires
        n >= 0,
    ensures
        all_digits(dec_of(n)),
        dec_of(n).len() >= 1,
        val_of_digits(dec_of(n)) == n,
    decreases n,
{
    if n < 10 {
        let s = dec_of(n);
        assert(s =~= seq![digit_char(n)]);
        assert(s.drop_last() =~= Seq::<char>::empty());
        assert(val_of_digits(s.drop_last()) == 0);
        assert(s.last() == digit_char(n));
        assert(digit_val(digit_char(n)) == n);
        assert(is_digit(digit_char(n)));
        assert(forall|i: int| 0 <= i < s.len() ==> s[i] == digit_char(n));
    } else {
        lemma_dec_of_digits(n / 10);
        let s = dec_of(n);
        assert(s == dec_of(n / 10) + seq![digit_char(n % 10)]);
        assert(s.drop_last() =~= dec_of(n / 10));
        assert(s.last() == digit_char(n % 10));
        assert(digit_val(digit_char(n % 10)) == n % 10);
        assert(is_digit(digit_char(n % 10)));
        vstd::arithmetic::div_mod::lemma_fundamental_div_mod(n, 10);
        assert(forall|i: int| 0 <= i < s.len() - 1 ==> s[i] == dec_of(n / 10)[i]);
    }
}

/// At most twelve digits are needed below `10^12`.
pub proof fn lemma_dec_len(n: int)
    requires
        0 <= n <= 999_999_999_999,
    ensures
        dec_of(n).len() <= 12,
{
    lemma_pow10_exact(12);
    lemma_dec_len_pow(n, 12);
}

/// `n < 10^m` needs at most `m` digits (for positive `m`).
pub proof fn lemma_dec_len_pow(n: int, m: nat)
    requires
        0 <= n,
        m >= 1,
        n < pow10(m),
    ensures
        dec_of(n).len() <= m,
    decreases m,
{
    if n < 10 {
    } else {
        assert(m >= 2) by {
            if m == 1 {
                lemma_pow10_exact(1);
            }
        }
        assert(n / 10 < pow10((m - 1) as nat)) by {
            assert(pow10(m) == 10 * pow10((m - 1) as nat));
            vstd::arithmetic::div_mod::lemma_fundamental_div_mod(n, 10);
        }
        lemma_dec_len_pow(n / 10, (m - 1) as nat);
    }
}

/// `padded_digits(r, k)` is `k` digits and reads back as `r` below `10^k`.
pub proof fn lemma_padded_digits(r: int, k: nat)
    requires
        0 <= r < pow10(k),
    ensures
        padded_digits(r, k).len() == k,
        all_digits(padded_digits(r, k)),
        val_of_digits(padded_digits(r, k)) == r,
    decreases k,
{
    if k == 0 {
    } else {
        assert(pow10(k) == 10 * pow10((k - 1) as nat));
        assert(r / 10 < pow10((k - 1) as nat)) by {
            vstd::arithmetic::div_mod::lemma_fundamental_div_mod(r, 10);
        }
        lemma_padded_digits(r / 10, (k - 1) as nat);
        let s = padded_digits(r, k);
        assert(s.drop_last() =~= padded_digits(r / 10, (k - 1) as nat));
        assert(s.last() == digit_char(r % 10));
        assert(digit_val(digit_char(r % 10)) == r % 10);
        assert(is_digit(digit_char(r % 10)));
        vstd::arithmetic::div_mod::lemma_fundamental_div_mod(r, 10);
        assert(forall|i: int| 0 <= i < s.len() - 1 ==> s[i] == s.drop_last()[i]);
    }
}

} // verus!
