//! Decimal digit strings: values, canonical form, rendering and parsing.
//!
//! Event timestamps, block numbers and share amounts travel through the
//! system as decimal strings. This module gives those strings a mathematical
//! value (`dec_val`), a canonical form (`is_canon_dec`), and verified
//! conversions between machine integers and their decimal rendering.

use vstd::prelude::*;

verus! {

/// `c` is one of the characters `'0'` through `'9'`.
pub open spec fn is_dec_digit(c: char) -> bool {
    48 <= (c as u32) && (c as u32) <= 57
}

/// Numeric value of a digit character.
pub open spec fn digit_of(c: char) -> int {
    (c as u32) - 48
}

/// Every character of `s` is a decimal digit.
pub open spec fn all_digits(s: Seq<char>) -> bool {
    forall|i: int| 0 <= i < s.len() ==> is_dec_digit(#[trigger] s[i])
}

/// The number denoted by a digit string, most significant digit first.
pub open spec fn dec_val(s: Seq<char>) -> int
    decreases s.len(),
{
    if s.len() == 0 {
        0
    } else {
        dec_val(s.drop_last()) * 10 + digit_of(s.last())
    }
}

/// A canonical decimal rendering: nonempty, all digits, and no leading zero
/// except for `"0"` itself.
pub open spec fn is_canon_dec(s: Seq<char>) -> bool {
    &&& s.len() >= 1
    &&& all_digits(s)
    &&& (s.len() > 1 ==> s[0] != '0')
}

/// The canonical decimal rendering of a non-negative number, as characters.
pub open spec fn dec_digits(n: int) -> Seq<char>
    decreases n,
{
    if n < 10 {
        seq![(48 + n) as char]
    } else {
        dec_digits(n / 10).push((48 + n % 10) as char)
    }
}

/// The rendering of a signed number: a minus sign and the magnitude, or the
/// bare magnitude.
pub open spec fn dec_i64(v: int) -> Seq<char> {
    if v >= 0 {
        dec_digits(v)
    } else {
        seq!['-'] + dec_digits(-v)
    }
}

/// Relies on `String::push`: appends exactly one character at the end.
#[verifier::external_body]
pub fn push_char(s: &mut String, c: char)
    ensures
        final(s)@ == old(s)@.push(c),
{
    s.push(c);
}

proof fn lemma_dec_val_push(s: Seq<char>, c: char)
    ensures
        dec_val(s.push(c)) == dec_val(s) * 10 + digit_of(c),
{
    assert(s.push(c).drop_last() =~= s);
    assert(s.push(c).last() == c);
}

/// Renders `n` as its canonical decimal string.
pub fn u64_to_dec(n: u64) -> (r: String)
    ensures
        is_canon_dec(r@),
        dec_val(r@) == n,
        r@ == dec_digits(n as int),
    decreases n,
{
    if n < 10 {
        let mut s = String::new();
        let c: char = (48 + n as u8) as char;
        push_char(&mut s, c);
        proof {
            lemma_dec_val_push(Seq::<char>::empty(), c);
            assert(s@.len() == 1);
            assert(is_dec_digit(s@[0]));
            assert(s@ =~= dec_digits(n as int));
        }
        s
    } else {
        let mut s = u64_to_dec(n / 10);
        let c: char = (48 + (n % 10) as u8) as char;
        let ghost prefix = s@;
        push_char(&mut s, c);
        proof {
            lemma_dec_val_push(prefix, c);
            assert(s@[0] == prefix[0]);
            if prefix.len() == 1 {
                assert(prefix.drop_last() =~= Seq::<char>::empty());
                assert(dec_val(Seq::<char>::empty()) == 0);
                assert(prefix.last() == prefix[0]);
                assert(dec_val(prefix) == dec_val(prefix.drop_last()) * 10 + digit_of(prefix.last()));
                assert(dec_val(prefix) == digit_of(prefix[0]));
                assert(digit_of(prefix[0]) >= 1);
                assert(prefix[0] != '0');
            }
            assert forall|i: int| 0 <= i < s@.len() implies is_dec_digit(#[trigger] s@[i]) by {
                if i < prefix.len() {
                    assert(s@[i] == prefix[i]);
                } else {
                    assert(s@[i] == c);
                }
            }
            assert(s@ =~= dec_digits(n as int));
        }
        s
    }
}

/// Renders a signed value the way `i64`'s standard formatting does:
/// a minus sign followed by the magnitude, or the bare magnitude.
pub fn i64_to_dec(n: i64) -> (r: String)
    ensures
        n >= 0 ==> is_canon_dec(r@) && dec_val(r@) == n,
        n < 0 ==> r@.len() >= 2 && r@[0] == '-' && is_canon_dec(r@.skip(1)) && dec_val(r@.skip(1))
            == -(n as int),
        r@ == dec_i64(n as int),
{
    if n >= 0 {
        u64_to_dec(n as u64)
    } else {
        let mag: u64 = if n == i64::MIN {
            9223372036854775808u64
        } else {
            (-n) as u64
        };
        let digits = u64_to_dec(mag);
        let mut s = String::new();
        push_char(&mut s, '-');
        let ghost pre = s@;
        s.append(digits.as_str());
        proof {
            assert(s@.skip(1) =~= digits@);
            assert(s@ =~= seq!['-'] + dec_digits(-(n as int)));
        }
        s
    }
}

proof fn lemma_dec_val_nonneg(s: Seq<char>)
    requires
        all_digits(s),
    ensures
        dec_val(s) >= 0,
    decreases s.len(),
{
    if s.len() > 0 {
        let p = s.drop_last();
        assert forall|i: int| 0 <= i < p.len() implies is_dec_digit(#[trigger] p[i]) by {
            assert(p[i] == s[i]);
        }
        lemma_dec_val_nonneg(p);
        assert(is_dec_digit(s[s.len() - 1]));
    }
}

proof fn lemma_dec_val_take_le(s: Seq<char>, i: int)
    requires
        all_digits(s),
        0 <= i <= s.len(),
    ensures
        dec_val(s.take(i)) <= dec_val(s),
    decreases s.len(),
{
    if i == s.len() {
        assert(s.take(i) =~= s);
    } else {
        let p = s.drop_last();
        assert forall|j: int| 0 <= j < p.len() implies is_dec_digit(#[trigger] p[j]) by {
            assert(p[j] == s[j]);
        }
        lemma_dec_val_take_le(p, i);
        assert(s.take(i) =~= p.take(i));
        lemma_dec_val_nonneg(p);
        assert(is_dec_digit(s[s.len() - 1]));
        assert(dec_val(s) == dec_val(p) * 10 + digit_of(s.last()));
    }
}

/// `1` if `s` opens with a sign character, else `0`.
pub open spec fn sign_skip(s: Seq<char>) -> int {
    if s.len() >= 1 && (s[0] == '-' || s[0] == '+') {
        1int
    } else {
        0int
    }
}

/// `s` opens with a minus sign.
pub open spec fn is_neg_lit(s: Seq<char>) -> bool {
    s.len() >= 1 && s[0] == '-'
}

/// The digit run after an optional sign.
pub open spec fn digits_part(s: Seq<char>) -> Seq<char> {
    s.skip(sign_skip(s))
}

/// `s` is accepted by `i64`'s standard decimal parser.
pub open spec fn i64_parseable(s: Seq<char>) -> bool {
    let d = digits_part(s);
    &&& d.len() >= 1
    &&& all_digits(d)
    &&& (if is_neg_lit(s) {
        dec_val(d) <= 0x8000000000000000
    } else {
        dec_val(d) <= 0x7fffffffffffffff
    })
}

/// The value that `i64`'s standard decimal parser reads from `s`.
pub open spec fn i64_value(s: Seq<char>) -> int {
    if is_neg_lit(s) {
        -dec_val(digits_part(s))
    } else {
        dec_val(digits_part(s))
    }
}

/// `s` is accepted by `u64`'s standard decimal parser.
pub open spec fn u64_parseable(s: Seq<char>) -> bool {
    let d = digits_part(s);
    &&& !is_neg_lit(s)
    &&& d.len() >= 1
    &&& all_digits(d)
    &&& dec_val(d) <= 0xffffffffffffffff
}

/// The value that `u64`'s standard decimal parser reads from `s`.
pub open spec fn u64_value(s: Seq<char>) -> int {
    dec_val(digits_part(s))
}

/// Reads the digit run of `s` beginning at `start`, refusing values above
/// `limit`, non-digit characters and an empty run.
fn parse_digits_limited(s: &str, start: usize, limit: u64) -> (r: Option<u64>)
    requires
        start as int <= s@.len(),
        limit >= 9,
    ensures
        ({
            let d = s@.skip(start as int);
            match r {
                Some(v) => d.len() >= 1 && all_digits(d) && dec_val(d) == v && v <= limit,
                None => !(d.len() >= 1 && all_digits(d) && dec_val(d) <= limit),
            }
        }),
{
    let ghost d = s@.skip(start as int);
    let n = s.unicode_len();
    if start >= n {
        return None;
    }
    let mut acc: u64 = 0;
    let mut i = start;
    while i < n
        invariant
            start <= i <= n,
            n == s@.len(),
            d == s@.skip(start as int),
            acc == dec_val(d.take(i - start)),
            all_digits(d.take(i - start)),
            acc <= limit,
            limit >= 9,
        decreases n - i,
    {
        let ghost pre = d.take(i - start);
        let c = s.get_char(i);
        proof {
            assert(c == d[i - start]);
        }
        let cu = c as u32;
        if cu < 48 || cu > 57 {
            proof {
                assert(!is_dec_digit(d[i - start]));
            }
            return None;
        }
        let dv = (cu - 48) as u64;
        if acc > (limit - dv) / 10 {
            proof {
                let x = (limit - dv) as int;
                assert(x / 10 * 10 + x % 10 == x);
                assert(acc * 10 + dv > limit);
                assert(pre.push(c) =~= d.take(i - start + 1));
                lemma_dec_val_push(pre, c);
                assert(dec_val(d.take(i - start + 1)) > limit);
                if all_digits(d) {
                    lemma_dec_val_take_le(d, i - start + 1);
                    assert(dec_val(d) > limit);
                }
            }
            return None;
        }
        proof {
            let x = (limit - dv) as int;
            assert(x / 10 * 10 + x % 10 == x);
            assert(acc * 10 <= x);
            assert(pre.push(c) =~= d.take(i - start + 1));
            lemma_dec_val_push(pre, c);
            assert forall|k: int| 0 <= k < d.take(i - start + 1).len() implies is_dec_digit(
                #[trigger] d.take(i - start + 1)[k],
            ) by {
                if k < pre.len() {
                    assert(d.take(i - start + 1)[k] == pre[k]);
                } else {
                    assert(d.take(i - start + 1)[k] == c);
                }
            }
        }
        acc = acc * 10 + dv;
        i = i + 1;
    }
    proof {
        assert(d.take(i - start) =~= d);
    }
    Some(acc)
}

/// Reads `s` exactly as `i64`'s standard decimal parser does: an optional
/// sign, then at least one digit, rejecting values out of `i64`'s range.
pub fn parse_i64(s: &str) -> (r: Option<i64>)
    ensures
        r == if i64_parseable(s@) {
            Some(i64_value(s@) as i64)
        } else {
            None::<i64>
        },
{
    let n = s.unicode_len();
    if n == 0 {
        return None;
    }
    let c0 = s.get_char(0);
    let neg = c0 == '-';
    let has_sign = neg || c0 == '+';
    let start: usize = if has_sign {
        1
    } else {
        0
    };
    let limit: u64 = if neg {
        9223372036854775808
    } else {
        9223372036854775807
    };
    proof {
        assert(start as int == sign_skip(s@));
    }
    match parse_digits_limited(s, start, limit) {
        None => None,
        Some(mag) => {
            if neg {
                if mag == 9223372036854775808 {
                    Some(i64::MIN)
                } else {
                    Some(-(mag as i64))
                }
            } else {
                Some(mag as i64)
            }
        },
    }
}

/// Reads `s` exactly as `u64`'s standard decimal parser does.
pub fn parse_u64(s: &str) -> (r: Option<u64>)
    ensures
        r == if u64_parseable(s@) {
            Some(u64_value(s@) as u64)
        } else {
            None::<u64>
        },
{
    let n = s.unicode_len();
    if n == 0 {
        return None;
    }
    let c0 = s.get_char(0);
    if c0 == '-' {
        return None;
    }
    let start: usize = if c0 == '+' {
        1
    } else {
        0
    };
    proof {
        assert(start as int == sign_skip(s@));
    }
    parse_digits_limited(s, start, u64::MAX)
}

/// Renders ten to the `n`-th power: a one followed by `n` zeros.
pub fn pow10_dec(n: usize) -> (r: String)
    ensures
        is_canon_dec(r@),
        dec_val(r@) == vstd::arithmetic::power::pow(10, n as nat),
{
    let mut s = String::new();
    push_char(&mut s, '1');
    proof {
        lemma_dec_val_push(Seq::<char>::empty(), '1');
        vstd::arithmetic::power::lemma_pow0(10);
    }
    let mut i: usize = 0;
    while i < n
        invariant
            i <= n,
            is_canon_dec(s@),
            s@.len() == i + 1,
            s@[0] == '1',
            dec_val(s@) == vstd::arithmetic::power::pow(10, i as nat),
        decreases n - i,
    {
        let ghost pre = s@;
        push_char(&mut s, '0');
        proof {
            lemma_dec_val_push(pre, '0');
            vstd::arithmetic::power::lemma_pow1(10);
            vstd::arithmetic::power::lemma_pow_adds(10, i as nat, 1);
            assert(s@[0] == pre[0]);
            assert forall|k: int| 0 <= k < s@.len() implies is_dec_digit(#[trigger] s@[k]) by {
                if k < pre.len() {
                    assert(s@[k] == pre[k]);
                } else {
                    assert(s@[k] == '0');
                }
            }
        }
        i = i + 1;
    }
    s
}

/// Tests that `s` is a nonempty run of decimal digits.
pub fn check_digits(s: &str) -> (r: bool)
    ensures
        r == (s@.len() >= 1 && all_digits(s@)),
{
    let n = s.unicode_len();
    if n == 0 {
        return false;
    }
    let mut i: usize = 0;
    while i < n
        invariant
            i <= n,
            n == s@.len(),
            forall|k: int| 0 <= k < i ==> is_dec_digit(#[trigger] s@[k]),
        decreases n - i,
    {
        let c = s.get_char(i) as u32;
        if c < 48 || c > 57 {
            proof {
                assert(!is_dec_digit(s@[i as int]));
            }
            return false;
        }
        i = i + 1;
    }
    true
}

/// The lenient reading the ingestion paths use: a failed parse counts as `0`.
pub open spec fn i64_or_zero(s: Seq<char>) -> int {
    if i64_parseable(s) {
        i64_value(s)
    } else {
        0
    }
}

/// Parses `s` as an `i64`, falling back to `0` on any malformed input.
pub fn parse_i64_or_zero(s: &str) -> (r: i64)
    ensures
        r as int == i64_or_zero(s@),
{
    proof {
        if i64_parseable(s@) {
            lemma_dec_val_nonneg(digits_part(s@));
        }
    }
    match parse_i64(s) {
        Some(v) => v,
        None => 0,
    }
}

/// The lenient unsigned reading: a failed parse counts as `0`.
pub open spec fn u64_or_zero(s: Seq<char>) -> int {
    if u64_parseable(s) {
        u64_value(s)
    } else {
        0
    }
}

/// Parses `s` as a `u64`, falling back to `0` on any malformed input.
pub fn parse_u64_or_zero(s: &str) -> (r: u64)
    ensures
        r as int == u64_or_zero(s@),
{
    proof {
        if u64_parseable(s@) {
            lemma_dec_val_nonneg(digits_part(s@));
        }
    }
    match parse_u64(s) {
        Some(v) => v,
        None => 0,
    }
}

} // verus!
