//! Human-readable rendering of sizes, transfer speeds, durations and times.
use vstd::prelude::*;
use vstd::arithmetic::power2::{pow2, lemma2_to64, lemma2_to64_rest, lemma_pow2_unfold};
use vstd::arithmetic::div_mod::{lemma_div_denominator, lemma_fundamental_div_mod};
use crate::text::{int_text, nat_text, digit_char, push_char, push_i64, push_u64};

verus! {

/// What `format_eta` shows for a number of seconds: empty for `-1` (unknown),
/// `∞` for `-2` (never), otherwise the two most significant units among days,
/// hours, minutes and seconds (`"1d 3h"`, `"2h 5m"`, `"4m 0s"`, `"7s"`).
/// Other negative values show only their (negative) seconds part.
pub open spec fn eta_text(secs: int) -> Seq<char> {
    if secs == -1 {
        seq![]
    } else if secs == -2 {
        seq!['∞']
    } else if secs < 0 {
        int_text(-((-secs) % 60)) + seq!['s']
    } else if secs >= 86400 {
        nat_text((secs / 86400) as nat) + seq!['d', ' '] + nat_text(((secs % 86400) / 3600) as nat)
            + seq!['h']
    } else if secs >= 3600 {
        nat_text((secs / 3600) as nat) + seq!['h', ' '] + nat_text(((secs % 3600) / 60) as nat)
            + seq!['m']
    } else if secs >= 60 {
        nat_text((secs / 60) as nat) + seq!['m', ' '] + nat_text((secs % 60) as nat) + seq!['s']
    } else {
        nat_text(secs as nat) + seq!['s']
    }
}

proof fn lemma_eta_split(secs: int, days: int, hours: int, minutes: int, rest: int)
    requires
        secs != -1,
        secs != -2,
        secs >= 0 ==> days == secs / 86400,
        secs < 0 ==> days == -((-secs) / 86400),
        secs - days * 86400 >= 0 ==> hours == (secs - days * 86400) / 3600,
        secs - days * 86400 < 0 ==> hours == -((-(secs - days * 86400)) / 3600),
        secs - days * 86400 - hours * 3600 >= 0 ==> minutes == (secs - days * 86400 - hours * 3600) / 60,
        secs - days * 86400 - hours * 3600 < 0 ==> minutes == -((-(secs - days * 86400 - hours * 3600)) / 60),
        rest == secs - days * 86400 - hours * 3600 - minutes * 60,
    ensures
        secs < 0 ==> days <= 0 && hours <= 0 && minutes <= 0 && rest == -((-secs) % 60),
        secs >= 0 ==> days == secs / 86400 && hours == (secs % 86400) / 3600
            && minutes == (secs % 3600) / 60 && rest == secs % 60,
{
    if secs >= 0 {
        assert(secs - days * 86400 == secs % 86400);
        assert((secs % 86400) % 3600 == secs % 3600) by (nonlinear_arith)
            requires secs >= 0;
        assert(secs % 86400 - hours * 3600 == secs % 3600);
        assert((secs % 3600) % 60 == secs % 60) by (nonlinear_arith)
            requires secs >= 0;
    } else {
        let n = -secs;
        assert(n - (-days) * 86400 == n % 86400);
        assert((n % 86400) % 3600 == n % 3600) by (nonlinear_arith)
            requires n >= 0;
        assert((n % 3600) % 60 == n % 60) by (nonlinear_arith)
            requires n >= 0;
    }
}

/// Formats an estimated time of arrival given in seconds.
pub fn format_eta(secs: i64) -> (r: String)
    ensures
        r@ == eta_text(secs as int),
{
    let mut s = String::new();
    if secs == -1 {
        return s;
    } else if secs == -2 {
        push_char(&mut s, '∞');
        return s;
    }
    let days = secs / 86400;
    let secs1 = secs - days * 86400;
    let hours = secs1 / 3600;
    let secs2 = secs1 - hours * 3600;
    let minutes = secs2 / 60;
    let secs3 = secs2 - minutes * 60;
    proof {
        lemma_eta_split(secs as int, days as int, hours as int, minutes as int, secs3 as int);
    }
    if days > 0 {
        push_i64(&mut s, days);
        push_char(&mut s, 'd');
        push_char(&mut s, ' ');
        push_i64(&mut s, hours);
        push_char(&mut s, 'h');
    } else if hours > 0 {
        push_i64(&mut s, hours);
        push_char(&mut s, 'h');
        push_char(&mut s, ' ');
        push_i64(&mut s, minutes);
        push_char(&mut s, 'm');
    } else if minutes > 0 {
        push_i64(&mut s, minutes);
        push_char(&mut s, 'm');
        push_char(&mut s, ' ');
        push_i64(&mut s, secs3);
        push_char(&mut s, 's');
    } else {
        push_i64(&mut s, secs3);
        push_char(&mut s, 's');
    }
    assert(s@ =~= eta_text(secs as int));
    s
}

/// 2^53: integers of smaller magnitude are exactly representable in `f64`.
pub const F64_EXACT_LIMIT: u64 = 9007199254740992;

/// How many low bits an integer of magnitude `n` loses when converted to
/// `f64`, whose significand holds 53 bits.
pub open spec fn f64_dropped_bits(n: nat) -> nat
    decreases n,
{
    if n < F64_EXACT_LIMIT {
        0
    } else {
        1 + f64_dropped_bits(n / 2)
    }
}

/// The magnitude that `n` has after conversion to `f64`: rounded to the
/// nearest multiple of 2^dropped, ties to the even multiple.
pub open spec fn f64_nearest(n: nat) -> nat {
    let p = pow2(f64_dropped_bits(n));
    let q = n / p;
    let r = n % p;
    if r * 2 > p || (r * 2 == p && q % 2 == 1) {
        ((q + 1) * p) as nat
    } else {
        (q * p) as nat
    }
}

/// The value of an integer converted with `as f64`.
pub open spec fn f64_of_int(i: int) -> int {
    if i < 0 {
        -f64_nearest((-i) as nat)
    } else {
        f64_nearest(i as nat) as int
    }
}

/// `a / 2^k` in hundredths, rounded to the nearest integer with ties to even
/// (how `{:.2}` rounds the exact value of a binary fraction).
pub open spec fn hundredths(a: nat, k: nat) -> nat {
    let d = pow2(k);
    let q = (a * 100) / d;
    let r = (a * 100) % d;
    if r * 2 > d || (r * 2 == d && q % 2 == 1) {
        q + 1
    } else {
        q
    }
}

/// `v / 2^k` written with two fractional digits, as `format!("{:.2}", x)`
/// writes an `f64` `x` of that exact value: a `'-'` for negative values
/// (also when the rounded digits are all zero), the integer part, a dot and
/// two digits.
pub open spec fn fixed2_text(v: int, k: nat) -> Seq<char> {
    let c = hundredths((if v < 0 { -v } else { v }) as nat, k);
    (if v < 0 { seq!['-'] } else { seq![] }) + nat_text(c / 100) + seq![
        '.',
        digit_char(((c % 100) / 10) as int),
        digit_char((c % 10) as int),
    ]
}

/// The magnitude of an `i64` converted to `f64`.
fn f64_magnitude(n: u64) -> (r: u128)
    ensures
        r == f64_nearest(n as nat),
        r <= 2 * (n as int),
{
    let mut m: u64 = n;
    let mut p: u64 = 1;
    let ghost mut s: nat = 0;
    proof {
        lemma2_to64();
    }
    while m >= F64_EXACT_LIMIT
        invariant
            p == pow2(s),
            p >= 1,
            m == n / p,
            p * m <= n,
            p > 1 ==> m >= 1,
            f64_dropped_bits(n as nat) == s + f64_dropped_bits(m as nat),
        decreases m,
    {
        proof {
            lemma_fundamental_div_mod(n as int, p as int);
            assert(p * m >= 2 * p) by (nonlinear_arith)
                requires m >= 2, p >= 1;
            lemma_div_denominator(n as int, p as int, 2);
            lemma_pow2_unfold(s + 1);
        }
        m = m / 2;
        p = p * 2;
        proof {
            s = s + 1;
            lemma_fundamental_div_mod(n as int, p as int);
            assert(p * m <= n) by {
                lemma_fundamental_div_mod(n as int, p as int);
            }
        }
    }
    proof {
        lemma_fundamental_div_mod(n as int, p as int);
    }
    let q = m;
    let r = n % p;
    let r2: u128 = (r as u128) * 2;
    let up = r2 > p as u128 || (r2 == p as u128 && q % 2 == 1);
    let qq: u128 = if up { (q as u128) + 1 } else { q as u128 };
    assert(qq * (p as u128) <= 0x20000000000000 * 0x10000000000000000) by (nonlinear_arith)
        requires qq <= 0x20000000000000, p <= 0x10000000000000000;
    let res = qq * (p as u128);
    proof {
        assert(f64_dropped_bits(m as nat) == 0);
        assert(res <= 2 * (n as int)) by (nonlinear_arith)
            requires
                res == qq * p,
                qq <= q + 1,
                p * q <= n,
                n == p * q + r,
                r < p,
                q >= 1 || p == 1,
                p == 1 ==> r == 0 && qq == q,
        ;
    }
    res
}

/// Appends `±a / 2^k` with two fractional digits (`neg` gives the sign).
fn push_fixed2(s: &mut String, a: u128, neg: bool, den: u128, Ghost(k): Ghost<nat>)
    requires
        a <= 0x40000000000000000,
        den == pow2(k),
        den >= 1024,
        den <= 0x10000000000000000,
    ensures
        final(s)@ == old(s)@ + fixed2_text(if neg { -(a as int) } else { a as int }, k),
{
    let scaled: u128 = a * 100;
    let q = scaled / den;
    let r = scaled % den;
    let r2: u128 = r * 2;
    let up = r2 > den || (r2 == den && q % 2 == 1);
    assert(q <= 0x40000000000000000 * 100 / 1024) by (nonlinear_arith)
        requires q == scaled / den, scaled <= 0x40000000000000000 * 100, den >= 1024;
    let c: u128 = if up { q + 1 } else { q };
    let ghost v: int = if neg { -(a as int) } else { a as int };
    proof {
        assert(c == hundredths((if v < 0 { -v } else { v }) as nat, k)) by {
            if neg && a == 0 {
                assert(v == 0);
            }
        }
    }
    if neg && a > 0 {
        push_char(s, '-');
    }
    let whole: u64 = (c / 100) as u64;
    push_u64(s, whole);
    push_char(s, '.');
    let tenths = ((c % 100) / 10) as u8;
    let last = (c % 10) as u8;
    push_char(s, (48 + tenths) as char);
    push_char(s, (48 + last) as char);
    proof {
        assert(s@ =~= old(s)@ + fixed2_text(v, k));
    }
}

/// Appends `i as f64 / 2^k` formatted with `{:.2}`.
fn push_scaled(s: &mut String, i: i64, den: u128, Ghost(k): Ghost<nat>)
    requires
        den == pow2(k),
        den >= 1024,
        den <= 0x10000000000000000,
    ensures
        final(s)@ == old(s)@ + fixed2_text(f64_of_int(i as int), k),
{
    let neg = i < 0;
    let mag: u64 = if neg { ((-(i + 1)) as u64) + 1 } else { i as u64 };
    let a = f64_magnitude(mag);
    push_fixed2(s, a, neg, den, Ghost(k));
}

/// What `format_size` shows for a byte count: empty for zero, otherwise the
/// count in the largest binary unit it exceeds (`Tib`, `Gib`, `Mib`, else
/// `Kib`), computed as `f64` and written with two decimals.
pub open spec fn size_text(i: int) -> Seq<char> {
    if i == 0 {
        seq![]
    } else if i > 0x10000000000 {
        fixed2_text(f64_of_int(i), 40) + seq![' ', 'T', 'i', 'b']
    } else if i > 0x40000000 {
        fixed2_text(f64_of_int(i), 30) + seq![' ', 'G', 'i', 'b']
    } else if i > 0x100000 {
        fixed2_text(f64_of_int(i), 20) + seq![' ', 'M', 'i', 'b']
    } else {
        fixed2_text(f64_of_int(i), 10) + seq![' ', 'K', 'i', 'b']
    }
}

/// Formats a size in bytes.
pub fn format_size(i: i64) -> (r: String)
    ensures
        r@ == size_text(i as int),
{
    proof {
        lemma2_to64();
        lemma2_to64_rest();
        assert(pow2(40) == 0x10000000000);
        assert(pow2(30) == 0x40000000);
        assert(pow2(20) == 0x100000);
        assert(pow2(10) == 1024);
    }
    let mut s = String::new();
    if i == 0 {
        return s;
    } else if i > 0x10000000000 {
        push_scaled(&mut s, i, 0x10000000000, Ghost(40));
        push_char(&mut s, ' ');
        push_char(&mut s, 'T');
    } else if i > 0x40000000 {
        push_scaled(&mut s, i, 0x40000000, Ghost(30));
        push_char(&mut s, ' ');
        push_char(&mut s, 'G');
    } else if i > 0x100000 {
        push_scaled(&mut s, i, 0x100000, Ghost(20));
        push_char(&mut s, ' ');
        push_char(&mut s, 'M');
    } else {
        push_scaled(&mut s, i, 1024, Ghost(10));
        push_char(&mut s, ' ');
        push_char(&mut s, 'K');
    }
    push_char(&mut s, 'i');
    push_char(&mut s, 'b');
    assert(s@ =~= size_text(i as int));
    s
}

/// What `format_download_speed` shows for a rate in bytes per second: empty
/// for zero, otherwise `Mib/s` above one mebibyte per second, else `Kib/s`,
/// computed as `f64` and written with two decimals.
pub open spec fn speed_text(i: int) -> Seq<char> {
    if i == 0 {
        seq![]
    } else if i > 0x100000 {
        fixed2_text(f64_of_int(i), 20) + seq![' ', 'M', 'i', 'b', '/', 's']
    } else {
        fixed2_text(f64_of_int(i), 10) + seq![' ', 'K', 'i', 'b', '/', 's']
    }
}

/// Formats a transfer rate in bytes per second.
pub fn format_download_speed(i: i64) -> (r: String)
    ensures
        r@ == speed_text(i as int),
{
    proof {
        lemma2_to64();
    }
    let mut s = String::new();
    if i == 0 {
        return s;
    } else if i > 0x100000 {
        push_scaled(&mut s, i, 0x100000, Ghost(20));
        push_char(&mut s, ' ');
        push_char(&mut s, 'M');
    } else {
        push_scaled(&mut s, i, 1024, Ghost(10));
        push_char(&mut s, ' ');
        push_char(&mut s, 'K');
    }
    push_char(&mut s, 'i');
    push_char(&mut s, 'b');
    push_char(&mut s, '/');
    push_char(&mut s, 's');
    assert(s@ =~= speed_text(i as int));
    s
}

/// The pattern `format_time` renders with: `%Y-%m-%d %H:%M:%S`.
pub open spec fn time_pattern() -> Seq<char> {
    seq!['%', 'Y', '-', '%', 'm', '-', '%', 'd', ' ', '%', 'H', ':', '%', 'M', ':', '%', 'S']
}

/// What chrono writes for the UTC instant `secs` seconds after the Unix epoch
/// under a `strftime`-style pattern, or nothing when `DateTime::from_timestamp`
/// finds the instant out of its range.
pub uninterp spec fn utc_text(secs: int, pattern: Seq<char>) -> Option<Seq<char>>;

/// `chrono::DateTime::from_timestamp(secs, 0)` followed by `format(pattern)`.
/// The pattern is the one of `time_pattern`, whose specifiers chrono always
/// renders, so writing the text cannot fail.
#[verifier::external_body]
fn utc_format(secs: i64, pattern: &str) -> (r: Option<String>)
    requires
        pattern@ == time_pattern(),
    ensures
        r is Some <==> utc_text(secs as int, pattern@) is Some,
        r is Some ==> utc_text(secs as int, pattern@) == Some(r.unwrap()@),
{
    match chrono::DateTime::from_timestamp(secs, 0) {
        Some(t) => Some(t.format(pattern).to_string()),
        None => None,
    }
}

/// Formats a Unix time stamp as a UTC date and time, `YYYY-MM-DD HH:MM:SS`.
/// The stamp must fit in an `i64` and lie in the range of chrono's dates.
pub fn format_time(i: u64) -> (r: String)
    requires
        i <= i64::MAX,
        utc_text(i as int, time_pattern()) is Some,
    ensures
        r@ == utc_text(i as int, time_pattern()).unwrap(),
{
    let pattern = "%Y-%m-%d %H:%M:%S";
    proof {
        reveal_strlit("%Y-%m-%d %H:%M:%S");
        assert(pattern@ =~= time_pattern());
    }
    let r = utc_format(i as i64, pattern);
    match r {
        Some(t) => t,
        None => String::new(),
    }
}

/// `format_time` where it applies: `None` for a stamp beyond `i64` or outside
/// chrono's range of dates.
pub fn format_time_checked(i: u64) -> (r: Option<String>)
    ensures
        r is Some <==> (i <= i64::MAX && utc_text(i as int, time_pattern()) is Some),
        r is Some ==> r.unwrap()@ == utc_text(i as int, time_pattern()).unwrap(),
{
    if i > 0x7fff_ffff_ffff_ffff {
        return None;
    }
    let pattern = "%Y-%m-%d %H:%M:%S";
    proof {
        reveal_strlit("%Y-%m-%d %H:%M:%S");
        assert(pattern@ =~= time_pattern());
    }
    if utc_format(i as i64, pattern).is_none() {
        return None;
    }
    Some(format_time(i))
}

} // verus!
