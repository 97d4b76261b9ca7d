//! Compact text for sizes, durations and missing values.

use std::time::Duration;
use vstd::prelude::*;
use crate::text::{decimal, digit_char, push_char, push_decimal, push_str, push_two_digits, two_digits};

verus! {

/// `2^n`.
pub open spec fn two_to(n: nat) -> nat
    decreases n,
{
    if n == 0 { 1 } else { 2 * two_to((n - 1) as nat) }
}

/// The spacing of IEEE doubles at `v`, searching from `2^k`: the least
/// power of two `2^k` with `v < 2^(53 + k)` (at most `2^11`, enough for
/// every `u64`).
pub open spec fn spacing_from(v: nat, k: nat) -> nat
    decreases 11 - k,
{
    if v < two_to(53 + k) || k >= 11 { two_to(k) } else { spacing_from(v, k + 1) }
}

/// `v` rounded to a multiple of `m`, halfway cases to an even quotient.
pub open spec fn round_half_even(v: nat, m: nat) -> nat
    recommends
        m > 0,
{
    let q = v / m;
    let r = v % m;
    if 2 * r > m || (2 * r == m && q % 2 == 1) { q + 1 } else { q }
}

/// The integer value of `v as f64`: `v` rounded to the nearest double,
/// ties to even.
pub open spec fn as_double(v: nat) -> nat {
    let m = spacing_from(v, 0);
    round_half_even(v, m) * m
}

/// The binary unit that `bytes` picks: how often the value can be divided
/// by 1024 while it stays at least 1024, at most four times (TiB).
pub open spec fn byte_unit(f: nat) -> nat {
    if f >= 1099511627776 { 4 }
    else if f >= 1073741824 { 3 }
    else if f >= 1048576 { 2 }
    else if f >= 1024 { 1 }
    else { 0 }
}

/// `1024^unit` for the units `bytes` uses.
pub open spec fn unit_size(unit: nat) -> nat {
    if unit == 4 { 1099511627776 }
    else if unit == 3 { 1073741824 }
    else if unit == 2 { 1048576 }
    else if unit == 1 { 1024 }
    else { 1 }
}

/// The unit suffix.
pub open spec fn unit_name(unit: nat) -> Seq<char> {
    if unit == 4 { "TiB"@ }
    else if unit == 3 { "GiB"@ }
    else if unit == 2 { "MiB"@ }
    else if unit == 1 { "KiB"@ }
    else { "B"@ }
}

/// A size in binary units: whole bytes below 1 KiB, else the value in the
/// largest unit up to TiB with one decimal, rounded half to even as float
/// formatting does. The value is first rounded to a double, as the monitor
/// computes in `f64`.
pub open spec fn bytes_text(value: nat) -> Seq<char> {
    let f = as_double(value);
    let unit = byte_unit(f);
    if unit == 0 {
        decimal(f) + unit_name(0)
    } else {
        let tenths = round_half_even(f * 10, unit_size(unit));
        decimal(tenths / 10) + seq!['.', digit_char(tenths % 10)] + unit_name(unit)
    }
}

proof fn lemma_two_to_positive(n: nat)
    ensures
        two_to(n) >= 1,
    decreases n,
{
    if n > 0 {
        lemma_two_to_positive((n - 1) as nat);
    }
}

proof fn lemma_two_to_known()
    ensures
        two_to(0) == 1,
        two_to(53) == 9007199254740992,
        two_to(64) == 18446744073709551616,
{
    reveal_with_fuel(two_to, 65);
}

proof fn lemma_two_to_mono(a: nat, b: nat)
    requires
        a <= b,
    ensures
        two_to(a) <= two_to(b),
    decreases b,
{
    if a < b {
        lemma_two_to_mono(a, (b - 1) as nat);
        lemma_two_to_positive((b - 1) as nat);
    }
}

fn double_value(v: u64) -> (f: u128)
    ensures
        f == as_double(v as nat),
        f <= 18446744073709551616,
{
    let mut m: u128 = 1;
    let mut limit: u128 = 9007199254740992;
    let mut k: u64 = 0;
    proof {
        lemma_two_to_known();
    }
    while !((v as u128) < limit || k >= 11)
        invariant
            k <= 11,
            m == two_to(k as nat),
            limit == two_to(53 + k as nat),
            spacing_from(v as nat, 0) == spacing_from(v as nat, k as nat),
            limit == 9007199254740992 * m,
            limit <= 18446744073709551616,
        decreases 11 - k,
    {
        proof {
            assert(two_to(k as nat + 1) == 2 * two_to(k as nat));
            assert(two_to(53 + k as nat + 1) == 2 * two_to(53 + k as nat));
        }
        proof {
            lemma_two_to_mono(53 + k as nat + 1, 64);
            lemma_two_to_known();
        }
        m = m * 2;
        limit = limit * 2;
        k = k + 1;
    }
    proof {
        lemma_two_to_positive(k as nat);
        if k < 11 {
            assert((v as u128) < limit);
        } else {
            lemma_two_to_known();
        }
    }
    let q: u128 = (v as u128) / m;
    let r: u128 = (v as u128) % m;
    let rounded: u128 = if 2 * r > m || (2 * r == m && q % 2 == 1) { q + 1 } else { q };
    proof {
        assert(q * m <= v) by (nonlinear_arith) requires q == (v as u128) / m, m > 0;
        assert(q < 9007199254740992) by (nonlinear_arith)
            requires
                q * m <= v,
                v < 9007199254740992 * m,
                m > 0;
        assert(rounded * m <= 18446744073709551616) by (nonlinear_arith)
            requires
                rounded <= 9007199254740992,
                9007199254740992 * m <= 18446744073709551616,
                m > 0;
    }
    rounded * m
}

/// Formats a byte count (see `bytes_text`).
pub fn bytes(value: u64) -> (s: String)
    ensures
        s@ == bytes_text(value as nat),
{
    let f = double_value(value);
    let mut s = String::new();
    let unit: u128 = if f >= 1099511627776 { 4 } else if f >= 1073741824 { 3 } else if f >= 1048576 { 2 }
        else if f >= 1024 { 1 } else { 0 };
    if unit == 0 {
        push_decimal(&mut s, f as u64);
        push_str(&mut s, "B");
        return s;
    }
    let size: u128 = if unit == 4 { 1099511627776 } else if unit == 3 { 1073741824 } else if unit == 2 { 1048576 } else { 1024 };
    let q: u128 = f * 10 / size;
    let r: u128 = f * 10 % size;
    let tenths: u128 = if 2 * r > size || (2 * r == size && q % 2 == 1) { q + 1 } else { q };
    proof {
        assert(q * size <= f * 10);
        assert(q <= 180143985094819840) by (nonlinear_arith)
            requires
                q * size <= f * 10,
                size >= 1024,
                f <= 18446744073709551616;
    }
    push_decimal(&mut s, (tenths / 10) as u64);
    push_char(&mut s, '.');
    push_decimal(&mut s, (tenths % 10) as u64);
    let name = if unit == 4 { "TiB" } else if unit == 3 { "GiB" } else if unit == 2 { "MiB" } else { "KiB" };
    push_str(&mut s, name);
    proof {
        assert(decimal((tenths % 10) as nat) == seq![digit_char((tenths % 10) as nat)]);
        assert(name@ == unit_name(unit as nat));
    }
    s
}


/// What `Duration::as_secs` returns: the whole seconds of a duration.
pub uninterp spec fn whole_seconds(d: Duration) -> u64;

/// `Duration::as_secs`.
#[verifier::external_body]
fn duration_secs(d: &Duration) -> (s: u64)
    ensures
        s == whole_seconds(*d),
{
    d.as_secs()
}

/// An elapsed time: `1d 02:03` from one day on, else `02:03:04`.
pub open spec fn duration_text(seconds: nat) -> Seq<char> {
    let days = seconds / 86400;
    let hours = seconds / 3600 % 24;
    let minutes = seconds / 60 % 60;
    if days > 0 {
        decimal(days) + "d "@ + two_digits(hours) + ":"@ + two_digits(minutes)
    } else {
        two_digits(hours) + ":"@ + two_digits(minutes) + ":"@ + two_digits(seconds % 60)
    }
}

/// Formats an elapsed time given in whole seconds (see `duration_text`).
pub fn duration_from_secs(seconds: u64) -> (s: String)
    ensures
        s@ == duration_text(seconds as nat),
{
    let days = seconds / 86400;
    let hours = seconds / 3600 % 24;
    let minutes = seconds / 60 % 60;
    let mut s = String::new();
    if days > 0 {
        push_decimal(&mut s, days);
        push_str(&mut s, "d ");
        push_two_digits(&mut s, hours);
        push_str(&mut s, ":");
        push_two_digits(&mut s, minutes);
    } else {
        push_two_digits(&mut s, hours);
        push_str(&mut s, ":");
        push_two_digits(&mut s, minutes);
        push_str(&mut s, ":");
        push_two_digits(&mut s, seconds % 60);
    }
    s
}

/// Formats a duration by its whole seconds (see `duration_text`).
pub fn duration(value: Duration) -> (s: String)
    ensures
        s@ == duration_text(whole_seconds(value) as nat),
{
    duration_from_secs(duration_secs(&value))
}

/// A value, or `N/A` when it is empty.
pub fn fallback(value: &str) -> (r: &str)
    ensures
        r@ == if value@.len() == 0 { "N/A"@ } else { value@ },
{
    if value.is_empty() { "N/A" } else { value }
}

/// The chip name, or `Apple Silicon` before it is known.
pub fn soc_name(soc: &str) -> (r: &str)
    ensures
        r@ == if soc@.len() == 0 { "Apple Silicon"@ } else { soc@ },
{
    if soc.is_empty() { "Apple Silicon" } else { soc }
}

/// Sizes under 1 KiB show as whole bytes: the number, then `B`.
pub proof fn lemma_small_sizes(value: nat)
    requires
        value < 1024,
    ensures
        bytes_text(value) == decimal(value) + "B"@,
{
    lemma_two_to_known();
    assert(spacing_from(value, 0) == 1);
    assert(round_half_even(value, 1) == value);
}

/// A whole number `k` of KiB below 1 MiB shows as `k.0KiB`.
pub proof fn lemma_whole_kib(k: nat)
    requires
        1 <= k < 1024,
    ensures
        bytes_text(k * 1024) == decimal(k) + ".0KiB"@,
{
    lemma_two_to_known();
    let v = k * 1024;
    assert(v < 9007199254740992);
    assert(spacing_from(v, 0) == 1);
    vstd::arithmetic::div_mod::lemma_fundamental_div_mod_converse(v as int, 1, v as int, 0);
    assert(round_half_even(v, 1) == v);
    assert(as_double(v) == v);
    assert(byte_unit(v) == 1);
    vstd::arithmetic::div_mod::lemma_fundamental_div_mod_converse((v * 10) as int, 1024, (10 * k) as int, 0);
    assert(round_half_even(v * 10, 1024) == 10 * k);
    vstd::arithmetic::div_mod::lemma_fundamental_div_mod_converse((10 * k) as int, 10, k as int, 0);
    reveal_strlit(".0KiB");
    reveal_strlit("KiB");
    assert(".0KiB"@ =~= seq!['.', '0'] + "KiB"@);
    assert(digit_char(0) == '0');
}

/// An elapsed time of `d` days, `h` hours, `m` minutes and `s` seconds
/// reads `<d>d <hh>:<mm>` from one day on, and `<hh>:<mm>:<ss>` below a
/// day, each field of two digits.
pub proof fn lemma_duration_parts(d: nat, h: nat, m: nat, s: nat)
    requires
        h < 24,
        m < 60,
        s < 60,
    ensures
        d > 0 ==> duration_text(d * 86400 + h * 3600 + m * 60 + s)
            == decimal(d) + "d "@ + two_digits(h) + ":"@ + two_digits(m),
        duration_text(h * 3600 + m * 60 + s) == two_digits(h) + ":"@ + two_digits(m) + ":"@ + two_digits(s),
{
    let t = d * 86400 + h * 3600 + m * 60 + s;
    let day = h * 3600 + m * 60 + s;
    vstd::arithmetic::div_mod::lemma_fundamental_div_mod_converse(t as int, 86400, d as int, day as int);
    vstd::arithmetic::div_mod::lemma_fundamental_div_mod_converse(t as int, 3600, (d * 24 + h) as int, (m * 60 + s) as int);
    vstd::arithmetic::div_mod::lemma_fundamental_div_mod_converse((d * 24 + h) as int, 24, d as int, h as int);
    vstd::arithmetic::div_mod::lemma_fundamental_div_mod_converse(t as int, 60, (d * 1440 + h * 60 + m) as int, s as int);
    vstd::arithmetic::div_mod::lemma_fundamental_div_mod_converse((d * 1440 + h * 60 + m) as int, 60, (d * 24 + h) as int, m as int);
    vstd::arithmetic::div_mod::lemma_fundamental_div_mod_converse(day as int, 86400, 0, day as int);
    vstd::arithmetic::div_mod::lemma_fundamental_div_mod_converse(day as int, 3600, h as int, (m * 60 + s) as int);
    vstd::arithmetic::div_mod::lemma_fundamental_div_mod_converse(h as int, 24, 0, h as int);
    vstd::arithmetic::div_mod::lemma_fundamental_div_mod_converse(day as int, 60, (h * 60 + m) as int, s as int);
    vstd::arithmetic::div_mod::lemma_fundamental_div_mod_converse((h * 60 + m) as int, 60, h as int, m as int);
}

} // verus!
