//! LRC timestamps: `[mm:ss.xx]`, `[hh:mm:ss.xx]` and the `[offset:±N]` tag.
//!
//! Times are carried as nanoseconds in a `u128`, which holds every value of
//! `std::time::Duration` (`as_nanos`).  Each field is a decimal number in the
//! form that `f64::from_str` reads: an optional sign, digits with an optional
//! decimal point, and an optional exponent (`e` or `E`, an optional sign and
//! digits).  The seconds field may use `,` as its decimal point.
use vstd::prelude::*;
use crate::text::{
    all_digits, chars_of, decimal_digits, digit_char, digit_of, digit_value, digits_value,
    find_char, find_in, is_digit, is_ws, pad2, pow10, push_pad2, string_from_chars, trim,
    trim_range,
};

verus! {

/// `Duration::MAX` in nanoseconds.
pub const MAX_NANOS: u128 = 18_446_744_073_709_551_615_999_999_999;

/// Fields are read up to this size, in billionths of their unit (10^32):
/// past it no sum of fields is a time that a `Duration` holds, but for
/// fields that cancel out.
pub const FIELD_LIMIT: u128 = 100_000_000_000_000_000_000_000_000_000_000;

/// Exponents are read up to this size (10^30): past it a field is either 0
/// or past `FIELD_LIMIT`, whatever its digits.
pub const EXP_CAP: i128 = 1_000_000_000_000_000_000_000_000_000_000;

pub open spec fn is_exp_mark(c: char) -> bool {
    c == 'e' || c == 'E'
}

/// Index of the first exponent mark in `s`.
pub open spec fn find_exp(s: Seq<char>) -> Option<int>
    decreases s.len(),
{
    if s.len() == 0 {
        None
    } else if is_exp_mark(s[0]) {
        Some(0)
    } else {
        match find_exp(s.drop_first()) {
            Some(i) => Some(i + 1),
            None => None,
        }
    }
}

/// An exponent: an optional `+` or `-`, then at least one digit.
pub open spec fn spec_exponent(s: Seq<char>) -> Option<int> {
    let signed = s.len() > 0 && (s[0] == '+' || s[0] == '-');
    let d = if signed {
        s.drop_first()
    } else {
        s
    };
    if d.len() > 0 && all_digits(d) {
        Some(
            if s[0] == '-' {
                -digits_value(d)
            } else {
                digits_value(d)
            },
        )
    } else {
        None
    }
}

/// A mantissa `digits [sep digits]` with at least one digit in all: its
/// digits, and how many of them follow the point.
pub open spec fn mantissa(s: Seq<char>, sep: char) -> Option<(Seq<char>, nat)> {
    match find_char(s, sep) {
        None => if s.len() > 0 && all_digits(s) {
            Some((s, 0nat))
        } else {
            None
        },
        Some(i) => {
            let ip = s.take(i);
            let fp = s.skip(i + 1);
            if all_digits(ip) && all_digits(fp) && ip.len() + fp.len() > 0 {
                Some((ip + fp, fp.len()))
            } else {
                None
            }
        },
    }
}

/// `n * 10^shift`, cut down to a whole number.
pub open spec fn shifted(n: int, shift: int) -> int {
    if shift >= 0 {
        n * pow10(shift as nat)
    } else {
        n / pow10((-shift) as nat)
    }
}

/// An unsigned decimal `mantissa [(e|E) exponent]`, in billionths of its
/// unit, cut down to a whole number.
pub open spec fn unsigned_nanos(s: Seq<char>, sep: char) -> Option<int> {
    let (m, e) = match find_exp(s) {
        None => (s, Some(0int)),
        Some(i) => (s.take(i), spec_exponent(s.skip(i + 1))),
    };
    match (mantissa(m, sep), e) {
        (Some(md), Some(x)) => Some(shifted(digits_value(md.0), x - md.1 + 9)),
        _ => None,
    }
}

/// A decimal number with an optional leading `+` or `-`, in billionths of
/// its unit (cut toward zero).
pub open spec fn decimal_nanos(s: Seq<char>, sep: char) -> Option<int> {
    if s.len() > 0 && s[0] == '+' {
        unsigned_nanos(s.drop_first(), sep)
    } else if s.len() > 0 && s[0] == '-' {
        match unsigned_nanos(s.drop_first(), sep) {
            Some(v) => Some(-v),
            None => None,
        }
    } else {
        unsigned_nanos(s, sep)
    }
}

/// A field value when its size is under `FIELD_LIMIT`.
pub open spec fn limited(v: Option<int>) -> Option<int> {
    match v {
        Some(x) => if -FIELD_LIMIT < x < FIELD_LIMIT {
            Some(x)
        } else {
            None
        },
        None => None,
    }
}

/// The seconds field: trimmed; `.` is its decimal point, or else the first `,`.
pub open spec fn seconds_nanos(p: Seq<char>) -> Option<int> {
    let q = trim(p);
    if find_char(q, '.') is Some {
        decimal_nanos(q, '.')
    } else {
        decimal_nanos(q, ',')
    }
}

/// A value that a `Duration` can hold.
pub open spec fn within_max(v: Option<int>) -> Option<u128> {
    match v {
        Some(x) => if 0 <= x <= MAX_NANOS {
            Some(x as u128)
        } else {
            None
        },
        None => None,
    }
}

/// The time a tag such as `01:02.50` or `1:01:02,5` stands for: the trimmed
/// tag split at `:` into two or three decimal fields (hours, minutes,
/// seconds), which are added up; `None` when the sum is negative or more than
/// a `Duration` holds.
pub open spec fn spec_parse_time(s: Seq<char>) -> Option<u128> {
    let t = trim(s);
    let total: Option<int> = match find_char(t, ':') {
        None => None,
        Some(i) => {
            let a = t.take(i);
            let r = t.skip(i + 1);
            match find_char(r, ':') {
                None => match (limited(decimal_nanos(a, '.')), limited(seconds_nanos(r))) {
                    (Some(m), Some(x)) => Some(m * 60 + x),
                    _ => None,
                },
                Some(j) => {
                    let b = r.take(j);
                    let r2 = r.skip(j + 1);
                    match find_char(r2, ':') {
                        Some(_) => None,
                        None => match (
                            limited(decimal_nanos(a, '.')),
                            limited(decimal_nanos(b, '.')),
                            limited(seconds_nanos(r2)),
                        ) {
                            (Some(h), Some(m), Some(x)) => Some(h * 3600 + m * 60 + x),
                            _ => None,
                        },
                    }
                },
            }
        },
    };
    within_max(total)
}

pub proof fn lemma_digits_value_bounds(s: Seq<char>)
    requires
        all_digits(s),
    ensures
        0 <= digits_value(s) < pow10(s.len()),
    decreases s.len(),
{
    if s.len() > 0 {
        let p = s.drop_last();
        assert(all_digits(p)) by {
            assert forall|i: int| 0 <= i < p.len() implies is_digit(#[trigger] p[i]) by {
                assert(p[i] == s[i]);
            }
        }
        lemma_digits_value_bounds(p);
        assert(is_digit(s[s.len() - 1]));
    }
}

/// A longer run of digits never spells a smaller number.
pub proof fn lemma_digits_prefix_le(s: Seq<char>, k: int)
    requires
        all_digits(s),
        0 <= k <= s.len(),
    ensures
        digits_value(s.take(k)) <= digits_value(s),
    decreases s.len() - k,
{
    if k == s.len() {
        assert(s.take(k) =~= s);
    } else {
        lemma_digits_prefix_le(s, k + 1);
        let t = s.take(k + 1);
        assert(t.drop_last() =~= s.take(k));
        assert(is_digit(s[k]));
        assert(all_digits(s.take(k))) by {
            assert forall|i: int| 0 <= i < k implies is_digit(#[trigger] s.take(k)[i]) by {
                assert(s.take(k)[i] == s[i]);
            }
        }
        lemma_digits_value_bounds(s.take(k));
    }
}

pub proof fn lemma_pow10_mono(a: nat, b: nat)
    requires
        a <= b,
    ensures
        1 <= pow10(a) <= pow10(b),
    decreases b,
{
    if b > 0 {
        if a < b {
            lemma_pow10_mono(a, (b - 1) as nat);
        } else {
            lemma_pow10_mono((a - 1) as nat, (b - 1) as nat);
        }
    }
}

pub proof fn lemma_pow10_add(a: nat, b: nat)
    ensures
        pow10(a) * pow10(b) == pow10(a + b),
    decreases a,
{
    if a > 0 {
        lemma_pow10_add((a - 1) as nat, b);
        assert(pow10(a) * pow10(b) == 10 * (pow10((a - 1) as nat) * pow10(b))) by (nonlinear_arith)
            requires
                pow10(a) == 10 * pow10((a - 1) as nat),
        ;
    }
}

proof fn lemma_find_exp(s: Seq<char>)
    ensures
        find_exp(s) matches Some(i) ==> 0 <= i < s.len() && is_exp_mark(s[i]) && forall|j: int|
            0 <= j < i ==> !is_exp_mark(s[j]),
        find_exp(s) is None ==> forall|j: int| 0 <= j < s.len() ==> !is_exp_mark(s[j]),
    decreases s.len(),
{
    if s.len() > 0 {
        lemma_find_exp(s.drop_first());
        if !is_exp_mark(s[0]) {
            assert forall|j: int| 0 < j < s.len() implies s[j] == s.drop_first()[j - 1] by {}
        }
    }
}

proof fn lemma_find_exp_at(s: Seq<char>, i: int)
    requires
        0 <= i < s.len(),
        is_exp_mark(s[i]),
        forall|j: int| 0 <= j < i ==> !is_exp_mark(s[j]),
    ensures
        find_exp(s) == Some(i),
    decreases i,
{
    if i > 0 {
        lemma_find_exp_at(s.drop_first(), i - 1);
    }
}

proof fn lemma_find_exp_absent(s: Seq<char>)
    requires
        forall|j: int| 0 <= j < s.len() ==> !is_exp_mark(s[j]),
    ensures
        find_exp(s) is None,
    decreases s.len(),
{
    if s.len() > 0 {
        lemma_find_exp_absent(s.drop_first());
    }
}

proof fn lemma_all_digits_append(a: Seq<char>, b: Seq<char>)
    requires
        all_digits(a),
        all_digits(b),
    ensures
        all_digits(a + b),
{
    assert forall|i: int| 0 <= i < (a + b).len() implies is_digit(#[trigger] (a + b)[i]) by {
        if i < a.len() {
            assert((a + b)[i] == a[i]);
        } else {
            assert((a + b)[i] == b[i - a.len()]);
        }
    }
}

/// The digits of `a` then `b` spell `a`'s number shifted past `b`'s digits.
pub proof fn lemma_digits_append(a: Seq<char>, b: Seq<char>)
    ensures
        digits_value(a + b) == digits_value(a) * pow10(b.len()) + digits_value(b),
    decreases b.len(),
{
    if b.len() == 0 {
        assert(a + b =~= a);
    } else {
        let b2 = b.drop_last();
        assert((a + b).drop_last() =~= a + b2);
        assert((a + b).last() == b.last());
        lemma_digits_append(a, b2);
        let va = digits_value(a);
        let p = pow10(b2.len());
        let vb = digits_value(b2);
        assert((va * p + vb) * 10 + digit_of(b.last()) == va * (10 * p) + (vb * 10 + digit_of(
            b.last(),
        ))) by (nonlinear_arith);
    }
}

/// Dropping the last `j` digits divides by `10^j`.
pub proof fn lemma_digits_div(d: Seq<char>, j: nat)
    requires
        all_digits(d),
        j <= d.len(),
    ensures
        digits_value(d) / pow10(j) == digits_value(d.take(d.len() - j)),
    decreases j,
{
    if j == 0 {
        assert(d.take(d.len() as int) =~= d);
    } else {
        let p = d.drop_last();
        assert(all_digits(p)) by {
            assert forall|i: int| 0 <= i < p.len() implies is_digit(#[trigger] p[i]) by {
                assert(p[i] == d[i]);
            }
        }
        lemma_digits_div(p, (j - 1) as nat);
        assert(p.take(p.len() - (j - 1)) =~= d.take(d.len() - j));
        assert(is_digit(d[d.len() - 1]));
        let v = digits_value(d);
        let vp = digits_value(p);
        assert(v / 10 == vp) by {
            vstd::arithmetic::div_mod::lemma_fundamental_div_mod_converse(
                v,
                10,
                vp,
                digit_of(d.last()),
            );
        }
        lemma_pow10_mono(0, (j - 1) as nat);
        lemma_digits_value_bounds(d);
        assert(v / pow10(j) == (v / 10) / pow10((j - 1) as nat)) by {
            vstd::arithmetic::div_mod::lemma_div_denominator(v, 10, pow10((j - 1) as nat));
        }
    }
}

proof fn lemma_pow10_32()
    ensures
        pow10(32) == FIELD_LIMIT,
        pow10(9) == 1_000_000_000,
{
    reveal_with_fuel(pow10, 33);
}

proof fn lemma_unsigned_nonneg(s: Seq<char>, sep: char)
    ensures
        unsigned_nanos(s, sep) matches Some(v) ==> v >= 0,
{
    let (m, e) = match find_exp(s) {
        None => (s, Some(0int)),
        Some(i) => (s.take(i), spec_exponent(s.skip(i + 1))),
    };
    match (mantissa(m, sep), e) {
        (Some(md), Some(x)) => {
            match find_char(m, sep) {
                None => {},
                Some(i) => {
                    lemma_all_digits_append(m.take(i), m.skip(i + 1));
                },
            }
            lemma_digits_value_bounds(md.0);
            let sh = x - md.1 + 9;
            if sh >= 0 {
                lemma_pow10_mono(0, sh as nat);
                assert(digits_value(md.0) * pow10(sh as nat) >= 0) by (nonlinear_arith)
                    requires
                        digits_value(md.0) >= 0,
                        pow10(sh as nat) >= 1,
                ;
            } else {
                lemma_pow10_mono(0, (-sh) as nat);
                vstd::arithmetic::div_mod::lemma_div_pos_is_pos(
                    digits_value(md.0),
                    pow10((-sh) as nat),
                );
            }
        },
        _ => {},
    }
}

pub open spec fn clamp_exp(v: int) -> int {
    if v > EXP_CAP {
        EXP_CAP as int
    } else if v < -EXP_CAP {
        -EXP_CAP
    } else {
        v
    }
}

/// The first exponent mark in `cs[lo..hi]`, as an index into `cs`.
fn find_exp_in(cs: &Vec<char>, lo: usize, hi: usize) -> (r: Option<usize>)
    requires
        lo <= hi <= cs@.len(),
    ensures
        r matches Some(k) ==> lo <= k < hi && find_exp(cs@.subrange(lo as int, hi as int)) == Some(
            k - lo,
        ),
        r is None ==> find_exp(cs@.subrange(lo as int, hi as int)) is None,
{
    let mut i = lo;
    while i < hi
        invariant
            lo <= i <= hi <= cs@.len(),
            forall|j: int| lo <= j < i ==> !is_exp_mark(cs@[j]),
        decreases hi - i,
    {
        if cs[i] == 'e' || cs[i] == 'E' {
            proof {
                lemma_find_exp_at(cs@.subrange(lo as int, hi as int), i - lo);
            }
            return Some(i);
        }
        i = i + 1;
    }
    proof {
        lemma_find_exp_absent(cs@.subrange(lo as int, hi as int));
    }
    None
}

/// Whether `cs[a..b]` is all digits.
fn all_digits_in(cs: &Vec<char>, a: usize, b: usize) -> (r: bool)
    requires
        a <= b <= cs@.len(),
    ensures
        r == all_digits(cs@.subrange(a as int, b as int)),
{
    let mut i = a;
    while i < b
        invariant
            a <= i <= b <= cs@.len(),
            forall|j: int| a <= j < i ==> is_digit(cs@[j]),
        decreases b - i,
    {
        if !('0' <= cs[i] && cs[i] <= '9') {
            assert(cs@.subrange(a as int, b as int)[i - a] == cs@[i as int]);
            return false;
        }
        i = i + 1;
    }
    assert forall|k: int| 0 <= k < b - a implies is_digit(
        #[trigger] cs@.subrange(a as int, b as int)[k],
    ) by {
        assert(cs@.subrange(a as int, b as int)[k] == cs@[a + k]);
    }
    true
}

/// `spec_exponent(cs[lo..hi])`, its size cut to `EXP_CAP`.
fn exponent_in(cs: &Vec<char>, lo: usize, hi: usize) -> (r: Option<i128>)
    requires
        lo <= hi <= cs@.len(),
    ensures
        match spec_exponent(cs@.subrange(lo as int, hi as int)) {
            Some(v) => r == Some(clamp_exp(v) as i128),
            None => r is None,
        },
{
    let ghost s = cs@.subrange(lo as int, hi as int);
    let neg = lo < hi && cs[lo] == '-';
    let start = if lo < hi && (cs[lo] == '+' || cs[lo] == '-') {
        lo + 1
    } else {
        lo
    };
    let ghost d = cs@.subrange(start as int, hi as int);
    proof {
        if start == lo + 1 {
            assert(d =~= s.drop_first());
        } else {
            assert(d =~= s);
        }
    }
    if start == hi {
        return None;
    }
    assert(spec_exponent(s) == (if all_digits(d) {
        Some(
            if neg {
                -digits_value(d)
            } else {
                digits_value(d)
            },
        )
    } else {
        None::<int>
    }));
    let ghost spec_r = spec_exponent(s);
    let mut acc: i128 = 0;
    let mut big = false;
    let mut i = start;
    assert(cs@.subrange(start as int, start as int) =~= Seq::<char>::empty());
    while i < hi
        invariant
            lo <= start <= i <= hi <= cs@.len(),
            d == cs@.subrange(start as int, hi as int),
            spec_r == spec_exponent(cs@.subrange(lo as int, hi as int)),
            spec_r == (if all_digits(d) {
                Some(
                    if neg {
                        -digits_value(d)
                    } else {
                        digits_value(d)
                    },
                )
            } else {
                None::<int>
            }),
            all_digits(cs@.subrange(start as int, i as int)),
            !big ==> acc == digits_value(cs@.subrange(start as int, i as int)) && 0 <= acc
                <= EXP_CAP,
            big ==> digits_value(cs@.subrange(start as int, i as int)) > EXP_CAP,
        decreases hi - i,
    {
        let c = cs[i];
        let ghost p = cs@.subrange(start as int, i as int);
        let ghost p2 = cs@.subrange(start as int, i + 1);
        assert(p2.drop_last() =~= p);
        assert(p2.last() == c);
        if !('0' <= c && c <= '9') {
            assert(d[i - start] == c);
            assert(!all_digits(d));
            return None;
        }
        proof {
            lemma_digits_value_bounds(p);
        }
        if !big {
            let v = acc * 10 + digit_value(c) as i128;
            if v > EXP_CAP {
                big = true;
            } else {
                acc = v;
            }
        }
        assert(all_digits(p2)) by {
            assert forall|k: int| 0 <= k < p2.len() implies is_digit(#[trigger] p2[k]) by {
                if k < p.len() {
                    assert(p2[k] == p[k]);
                }
            }
        }
        i = i + 1;
    }
    assert(cs@.subrange(start as int, i as int) =~= d);
    let v = if big {
        EXP_CAP
    } else {
        acc
    };
    Some(
        if neg {
            -v
        } else {
            v
        },
    )
}

/// `unsigned_nanos(cs[lo..hi], sep)`, when it is under `FIELD_LIMIT`.
#[verifier::rlimit(50)]
fn unsigned_in(cs: &Vec<char>, lo: usize, hi: usize, sep: char) -> (r: Option<i128>)
    requires
        lo <= hi <= cs@.len(),
    ensures
        match unsigned_nanos(cs@.subrange(lo as int, hi as int), sep) {
            Some(v) => if v < FIELD_LIMIT {
                r == Some(v as i128)
            } else {
                r is None
            },
            None => r is None,
        },
{
    let ghost s = cs@.subrange(lo as int, hi as int);
    proof {
        lemma_unsigned_nonneg(s, sep);
        lemma_pow10_32();
    }
    let fe = find_exp_in(cs, lo, hi);
    let ghost et: int;
    let (me, x) = match fe {
        Some(k) => {
            assert(s.take(k - lo) =~= cs@.subrange(lo as int, k as int));
            assert(s.skip(k - lo + 1) =~= cs@.subrange(k + 1, hi as int));
            match exponent_in(cs, k + 1, hi) {
                Some(x) => {
                    proof {
                        et = spec_exponent(cs@.subrange(k + 1, hi as int))->0;
                    }
                    (k, x)
                },
                None => {
                    return None;
                },
            }
        },
        None => {
            proof {
                et = 0;
            }
            assert(s =~= cs@.subrange(lo as int, hi as int));
            (hi, 0i128)
        },
    };
    let ghost m = cs@.subrange(lo as int, me as int);
    assert(x == clamp_exp(et));
    assert(unsigned_nanos(s, sep) == match mantissa(m, sep) {
        Some(md) => Some(shifted(digits_value(md.0), et - md.1 + 9)),
        None => None,
    });
    let sp = find_in(cs, lo, me, sep);
    let (ie, fs) = match sp {
        Some(k) => (k, k + 1),
        None => (me, me),
    };
    let ghost ip = cs@.subrange(lo as int, ie as int);
    let ghost fp = cs@.subrange(fs as int, me as int);
    proof {
        if sp is Some {
            assert(ip =~= m.take(ie - lo));
            assert(fp =~= m.skip(ie - lo + 1));
        } else {
            assert(ip =~= m);
            assert(fp =~= Seq::<char>::empty());
        }
    }
    if ie == lo && fs == me {
        return None;
    }
    if !all_digits_in(cs, lo, ie) || !all_digits_in(cs, fs, me) {
        return None;
    }
    let ghost d = ip + fp;
    proof {
        lemma_all_digits_append(ip, fp);
        assert(mantissa(m, sep) == Some((d, fp.len())));
        lemma_digits_value_bounds(d);
    }
    let ilen = ie - lo;
    let f = me - fs;
    let n = ilen + f;
    let shift: i128 = x - (f as i128) + 9;
    let ghost ts: int = et - f + 9;
    let ghost v: int = shifted(digits_value(d), ts);
    assert(unsigned_nanos(s, sep) == Some(v));
    let cnt: usize = if shift >= 0 {
        n
    } else if (n as i128) + shift > 0 {
        ((n as i128) + shift) as usize
    } else {
        0
    };
    // The exponent was cut only where the cut changes nothing.
    proof {
        assert(n < 0x1_0000_0000_0000_0000);
    }
    assert(shift >= 0 ==> cnt == n && ts >= shift);
    assert(shift >= 0 && ts > shift ==> shift > 32);
    assert(shift < 0 && cnt > 0 ==> ts == shift && cnt == n + shift);
    assert(shift < 0 && cnt == 0 ==> n + ts <= 0 && ts < 0);
    let mut acc: u128 = 0;
    let mut t: usize = 0;
    assert(d.take(0) =~= Seq::<char>::empty());
    while t < cnt
        invariant
            t <= cnt <= n,
            n == d.len(),
            ilen == ip.len(),
            lo + ilen == ie,
            ie <= fs <= me <= hi <= cs@.len(),
            ip == cs@.subrange(lo as int, ie as int),
            fp == cs@.subrange(fs as int, me as int),
            d == ip + fp,
            all_digits(d),
            acc == digits_value(d.take(t as int)),
            acc < FIELD_LIMIT,
            cnt > 0 ==> ((ts >= 0 && cnt == n) || (ts < 0 && cnt == n + ts)),
            v == shifted(digits_value(d), ts),
            unsigned_nanos(cs@.subrange(lo as int, hi as int), sep) == Some(v),
        decreases cnt - t,
    {
        let c = if t < ilen {
            cs[lo + t]
        } else {
            cs[fs + (t - ilen)]
        };
        assert(d[t as int] == c);
        assert(d.take(t + 1).drop_last() =~= d.take(t as int));
        assert(d.take(t + 1).last() == c);
        assert(is_digit(d[t as int]));
        acc = acc * 10 + digit_value(c) as u128;
        if acc >= FIELD_LIMIT {
            proof {
                assert(acc == digits_value(d.take(t + 1)));
                lemma_prefix_bound(d, cnt as int, ts, t + 1);
            }
            return None;
        }
        t = t + 1;
    }
    if shift >= 0 {
        assert(d.take(n as int) =~= d);
        assert(acc == digits_value(d));
        if acc != 0 {
            let mut j: i128 = 0;
            while j < shift
                invariant
                    0 <= j <= shift,
                    acc == digits_value(d) * pow10(j as nat),
                    0 < acc < FIELD_LIMIT,
                    digits_value(d) >= 1,
                    shift <= ts,
                    v == digits_value(d) * pow10(ts as nat),
                    unsigned_nanos(cs@.subrange(lo as int, hi as int), sep) == Some(v),
                decreases shift - j,
            {
                proof {
                    assert(pow10((j + 1) as nat) == 10 * pow10(j as nat));
                    assert(digits_value(d) * pow10((j + 1) as nat) == digits_value(d) * pow10(
                        j as nat,
                    ) * 10) by (nonlinear_arith)
                        requires
                            pow10((j + 1) as nat) == 10 * pow10(j as nat),
                    ;
                }
                acc = acc * 10;
                if acc >= FIELD_LIMIT {
                    proof {
                        lemma_pow10_mono((j + 1) as nat, ts as nat);
                        assert(digits_value(d) * pow10((j + 1) as nat) <= digits_value(d)
                            * pow10(ts as nat)) by (nonlinear_arith)
                            requires
                                digits_value(d) >= 1,
                                pow10((j + 1) as nat) <= pow10(ts as nat),
                        ;
                    }
                    return None;
                }
                j = j + 1;
            }
            proof {
                lemma_pow10_mono(0, j as nat);
                assert(digits_value(d) * pow10(j as nat) >= pow10(j as nat)) by (nonlinear_arith)
                    requires
                        digits_value(d) >= 1,
                        pow10(j as nat) >= 1,
                ;
                if j >= 32 {
                    lemma_pow10_mono(32, j as nat);
                }
                assert(ts == shift);
            }
        } else {
            assert(digits_value(d) == 0);
            assert(0 * pow10(ts as nat) == 0);
            assert(v == 0);
        }
        Some(acc as i128)
    } else {
        proof {
            if cnt > 0 {
                lemma_digits_div(d, (-ts) as nat);
            } else {
                lemma_pow10_mono(n as nat, (-ts) as nat);
                vstd::arithmetic::div_mod::lemma_basic_div(digits_value(d), pow10((-ts) as nat));
            }
        }
        Some(acc as i128)
    }
}

/// A prefix of the digits kept by `shifted` is never more than its result.
proof fn lemma_prefix_bound(d: Seq<char>, k: int, ts: int, t: int)
    requires
        all_digits(d),
        0 <= t <= k,
        (ts >= 0 && k == d.len()) || (ts < 0 && k == d.len() + ts),
    ensures
        digits_value(d.take(t)) <= shifted(digits_value(d), ts),
{
    let dk = d.take(k);
    assert(dk.take(t) =~= d.take(t));
    assert(all_digits(dk)) by {
        assert forall|i: int| 0 <= i < dk.len() implies is_digit(#[trigger] dk[i]) by {
            assert(dk[i] == d[i]);
        }
    }
    lemma_digits_prefix_le(dk, t);
    lemma_digits_value_bounds(d);
    if ts >= 0 {
        assert(dk =~= d);
        lemma_pow10_mono(0, ts as nat);
        assert(digits_value(d) * pow10(ts as nat) >= digits_value(d)) by (nonlinear_arith)
            requires
                digits_value(d) >= 0,
                pow10(ts as nat) >= 1,
        ;
    } else {
        lemma_digits_div(d, (-ts) as nat);
    }
}

/// `limited(decimal_nanos(cs[lo..hi], sep))`.
pub fn decimal_in(cs: &Vec<char>, lo: usize, hi: usize, sep: char) -> (r: Option<i128>)
    requires
        lo <= hi <= cs@.len(),
    ensures
        match limited(decimal_nanos(cs@.subrange(lo as int, hi as int), sep)) {
            Some(v) => r == Some(v as i128),
            None => r is None,
        },
{
    let ghost s = cs@.subrange(lo as int, hi as int);
    if lo < hi && (cs[lo] == '+' || cs[lo] == '-') {
        assert(s.drop_first() =~= cs@.subrange(lo + 1, hi as int));
        proof {
            lemma_unsigned_nonneg(s.drop_first(), sep);
        }
        match unsigned_in(cs, lo + 1, hi, sep) {
            Some(v) => if cs[lo] == '-' {
                Some(-v)
            } else {
                Some(v)
            },
            None => None,
        }
    } else {
        proof {
            lemma_unsigned_nonneg(s, sep);
        }
        unsigned_in(cs, lo, hi, sep)
    }
}

/// `limited(seconds_nanos(cs[lo..hi]))`.
pub fn seconds_in(cs: &Vec<char>, lo: usize, hi: usize) -> (r: Option<i128>)
    requires
        lo <= hi <= cs@.len(),
    ensures
        match limited(seconds_nanos(cs@.subrange(lo as int, hi as int))) {
            Some(v) => r == Some(v as i128),
            None => r is None,
        },
{
    let (a, b) = trim_range(cs, lo, hi);
    if find_in(cs, a, b, '.').is_some() {
        decimal_in(cs, a, b, '.')
    } else {
        decimal_in(cs, a, b, ',')
    }
}

/// `spec_parse_time(cs[lo..hi])`.
pub fn parse_time_in(cs: &Vec<char>, lo: usize, hi: usize) -> (r: Option<u128>)
    requires
        lo <= hi <= cs@.len(),
    ensures
        r == spec_parse_time(cs@.subrange(lo as int, hi as int)),
{
    let ghost s = cs@.subrange(lo as int, hi as int);
    let (a, b) = trim_range(cs, lo, hi);
    let ghost t = cs@.subrange(a as int, b as int);
    let i = match find_in(cs, a, b, ':') {
        Some(i) => i,
        None => return None,
    };
    let ghost pa = cs@.subrange(a as int, i as int);
    let ghost r = cs@.subrange(i + 1, b as int);
    assert(t.take(i - a) =~= pa);
    assert(t.skip(i - a + 1) =~= r);
    let total: i128 = match find_in(cs, i + 1, b, ':') {
        None => {
            let m = decimal_in(cs, a, i, '.');
            let x = seconds_in(cs, i + 1, b);
            match (m, x) {
                (Some(m), Some(x)) => m * 60 + x,
                _ => return None,
            }
        },
        Some(j) => {
            let ghost pb = cs@.subrange(i + 1, j as int);
            let ghost r2 = cs@.subrange(j + 1, b as int);
            assert(r.take(j - i - 1) =~= pb);
            assert(r.skip(j - i) =~= r2);
            if find_in(cs, j + 1, b, ':').is_some() {
                return None;
            }
            let h = decimal_in(cs, a, i, '.');
            let m = decimal_in(cs, i + 1, j, '.');
            let x = seconds_in(cs, j + 1, b);
            match (h, m, x) {
                (Some(h), Some(m), Some(x)) => h * 3600 + m * 60 + x,
                _ => return None,
            }
        },
    };
    if 0 <= total && total <= MAX_NANOS as i128 {
        Some(total as u128)
    } else {
        None
    }
}

/// The time that an LRC tag such as `01:02.50` stands for, in nanoseconds.
pub fn parse_time(s: &str) -> (r: Option<u128>)
    ensures
        r == spec_parse_time(s@),
{
    let cs = chars_of(s);
    assert(cs@.subrange(0, cs@.len() as int) =~= s@);
    parse_time_in(&cs, 0, cs.len())
}


/// What `str::parse::<i64>` accepts: an optional `+` or `-`, then decimal
/// digits, with the value in range.
pub open spec fn spec_parse_i64(s: Seq<char>) -> Option<i64> {
    let signed = s.len() > 0 && (s[0] == '+' || s[0] == '-');
    let d = if signed {
        s.drop_first()
    } else {
        s
    };
    if d.len() > 0 && all_digits(d) {
        let v = if s[0] == '-' {
            -digits_value(d)
        } else {
            digits_value(d)
        };
        if i64::MIN <= v <= i64::MAX {
            Some(v as i64)
        } else {
            None
        }
    } else {
        None
    }
}

pub open spec fn offset_prefix() -> Seq<char> {
    seq!['o', 'f', 'f', 's', 'e', 't', ':']
}

/// The value of an `offset:N` tag, in milliseconds.
pub open spec fn spec_parse_offset(s: Seq<char>) -> Option<i64> {
    let t = trim(s);
    if t.len() >= 7 && t.take(7) == offset_prefix() {
        spec_parse_i64(trim(t.skip(7)))
    } else {
        None
    }
}

/// `spec_parse_i64(cs[lo..hi])`.
pub fn parse_i64_in(cs: &Vec<char>, lo: usize, hi: usize) -> (r: Option<i64>)
    requires
        lo <= hi <= cs@.len(),
    ensures
        r == spec_parse_i64(cs@.subrange(lo as int, hi as int)),
{
    let ghost s = cs@.subrange(lo as int, hi as int);
    if lo == hi {
        return None;
    }
    let neg = cs[lo] == '-';
    let start = if cs[lo] == '+' || cs[lo] == '-' {
        lo + 1
    } else {
        lo
    };
    let ghost d = cs@.subrange(start as int, hi as int);
    assert(d =~= (if s[0] == '+' || s[0] == '-' {
        s.drop_first()
    } else {
        s
    }));
    if start == hi {
        return None;
    }
    let mut mag: u128 = 0;
    let mut i = start;
    while i < hi
        invariant
            lo <= start <= i <= hi <= cs@.len(),
            d == cs@.subrange(start as int, hi as int),
            s == cs@.subrange(lo as int, hi as int),
            s.len() > 0,
            d.len() > 0,
            d == (if s[0] == '+' || s[0] == '-' {
                s.drop_first()
            } else {
                s
            }),
            all_digits(cs@.subrange(start as int, i as int)),
            mag == digits_value(cs@.subrange(start as int, i as int)),
            mag <= 9_223_372_036_854_775_808,
        decreases hi - i,
    {
        let c = cs[i];
        assert(cs@.subrange(start as int, i + 1).drop_last() =~= cs@.subrange(
            start as int,
            i as int,
        ));
        if !('0' <= c && c <= '9') {
            assert(d[i - start] == c);
            assert(!is_digit(d[i - start]));
            return None;
        }
        mag = mag * 10 + digit_value(c) as u128;
        assert(all_digits(cs@.subrange(start as int, i + 1))) by {
            assert forall|k: int| 0 <= k < i + 1 - start implies is_digit(
                #[trigger] cs@.subrange(start as int, i + 1)[k],
            ) by {
                if k < i - start {
                    assert(cs@.subrange(start as int, i + 1)[k] == cs@.subrange(
                        start as int,
                        i as int,
                    )[k]);
                }
            }
        }
        if mag > 9_223_372_036_854_775_808 {
            proof {
                assert(mag == digits_value(cs@.subrange(start as int, i + 1)));
                if all_digits(d) {
                    assert(d.take(i + 1 - start) =~= cs@.subrange(start as int, i + 1));
                    lemma_digits_prefix_le(d, i + 1 - start);
                }
            }
            return None;
        }
        i = i + 1;
    }
    assert(cs@.subrange(start as int, i as int) =~= d);
    let v: i128 = if neg {
        -(mag as i128)
    } else {
        mag as i128
    };
    if v < -9_223_372_036_854_775_808 || v > 9_223_372_036_854_775_807 {
        None
    } else {
        Some(v as i64)
    }
}

/// `spec_parse_offset(cs[lo..hi])`.
pub fn parse_offset_in(cs: &Vec<char>, lo: usize, hi: usize) -> (r: Option<i64>)
    requires
        lo <= hi <= cs@.len(),
    ensures
        r == spec_parse_offset(cs@.subrange(lo as int, hi as int)),
{
    let (a, b) = trim_range(cs, lo, hi);
    let ghost t = cs@.subrange(a as int, b as int);
    if b - a < 7 {
        return None;
    }
    let is_prefix = cs[a] == 'o' && cs[a + 1] == 'f' && cs[a + 2] == 'f' && cs[a + 3] == 's'
        && cs[a + 4] == 'e' && cs[a + 5] == 't' && cs[a + 6] == ':';
    proof {
        if is_prefix {
            assert(t.take(7) =~= offset_prefix());
        } else {
            assert(t.take(7) != offset_prefix()) by {
                if t.take(7) == offset_prefix() {
                    assert(t.take(7)[0] == 'o' && t.take(7)[1] == 'f' && t.take(7)[2] == 'f');
                    assert(t.take(7)[3] == 's' && t.take(7)[4] == 'e' && t.take(7)[5] == 't');
                    assert(t.take(7)[6] == ':');
                }
            }
        }
    }
    if !is_prefix {
        return None;
    }
    let (c, d) = trim_range(cs, a + 7, b);
    assert(t.skip(7) =~= cs@.subrange(a + 7, b as int));
    parse_i64_in(cs, c, d)
}

/// The value of an LRC `[offset:N]` tag, in milliseconds.
pub fn parse_offset(s: &str) -> (r: Option<i64>)
    ensures
        r == spec_parse_offset(s@),
{
    let cs = chars_of(s);
    assert(cs@.subrange(0, cs@.len() as int) =~= s@);
    parse_offset_in(&cs, 0, cs.len())
}


/// `fmt_time`: minutes, seconds and centiseconds as `mm:ss.xx`; the minutes
/// take more digits when there are more than 99 of them.
pub open spec fn spec_fmt_time(d: u128) -> Seq<char> {
    let ms = d / 1_000_000;
    let min = ms / 60000;
    let sec = (ms % 60000) / 1000;
    let cs = (ms % 1000) / 10;
    pad2(min as nat) + seq![':'] + pad2(sec as nat) + seq!['.'] + pad2(cs as nat)
}

/// Appends `spec_fmt_time(d)` to `out`.
pub fn push_fmt_time(out: &mut Vec<char>, d: u128)
    ensures
        final(out)@ == old(out)@ + spec_fmt_time(d),
{
    let ms = d / 1_000_000;
    push_pad2(out, ms / 60000);
    out.push(':');
    push_pad2(out, (ms % 60000) / 1000);
    out.push('.');
    push_pad2(out, (ms % 1000) / 10);
    assert(final(out)@ =~= old(out)@ + spec_fmt_time(d));
}

/// Formats a time (nanoseconds) as `mm:ss.xx`, for writing LRC back out.
pub fn fmt_time(d: u128) -> (r: String)
    ensures
        r@ == spec_fmt_time(d),
{
    let mut out: Vec<char> = Vec::new();
    push_fmt_time(&mut out, d);
    assert(out@ =~= spec_fmt_time(d));
    string_from_chars(out.as_slice())
}


proof fn lemma_digit_char(d: int)
    requires
        0 <= d < 10,
    ensures
        is_digit(digit_char(d)),
        digit_of(digit_char(d)) == d,
{
}

proof fn lemma_decimal_digits(n: nat)
    ensures
        decimal_digits(n).len() > 0,
        all_digits(decimal_digits(n)),
        digits_value(decimal_digits(n)) == n,
    decreases n,
{
    if n < 10 {
        lemma_digit_char(n as int);
        let q = seq![digit_char(n as int)];
        assert(q.drop_last() =~= Seq::<char>::empty());
        assert(q.last() == digit_char(n as int));
        assert(digits_value(q.drop_last()) == 0);
    } else {
        lemma_decimal_digits(n / 10);
        lemma_digit_char((n % 10) as int);
        let p = decimal_digits(n / 10);
        let q = p.push(digit_char((n % 10) as int));
        assert(q.drop_last() =~= p);
        assert(q.last() == digit_char((n % 10) as int));
        assert forall|i: int| 0 <= i < q.len() implies is_digit(#[trigger] q[i]) by {
            if i < p.len() {
                assert(q[i] == p[i]);
            }
        }
        vstd::arithmetic::div_mod::lemma_fundamental_div_mod(n as int, 10);
    }
}

proof fn lemma_leading_zero(s: Seq<char>)
    ensures
        digits_value(seq!['0'] + s) == digits_value(s),
    decreases s.len(),
{
    let z = seq!['0'] + s;
    if s.len() == 0 {
        assert(z.drop_last() =~= Seq::<char>::empty());
        assert(z.last() == '0');
        assert(digits_value(z.drop_last()) == 0);
    } else {
        lemma_leading_zero(s.drop_last());
        assert(z.drop_last() =~= seq!['0'] + s.drop_last());
        assert(z.last() == s.last());
    }
}

pub proof fn lemma_pad2(n: nat)
    ensures
        pad2(n).len() >= 2,
        all_digits(pad2(n)),
        digits_value(pad2(n)) == n,
{
    lemma_decimal_digits(n);
    if n < 10 {
        lemma_leading_zero(decimal_digits(n));
        let q = seq!['0'] + decimal_digits(n);
        assert forall|i: int| 0 <= i < q.len() implies is_digit(#[trigger] q[i]) by {
            if i > 0 {
                assert(q[i] == decimal_digits(n)[i - 1]);
            }
        }
    } else {
        assert(decimal_digits(n) =~= decimal_digits(n / 10).push(digit_char((n % 10) as int)));
        lemma_decimal_digits(n / 10);
    }
}

proof fn lemma_no_char_in_digits(s: Seq<char>, c: char)
    requires
        all_digits(s),
        !is_digit(c),
    ensures
        find_char(s, c) is None,
{
    assert forall|j: int| 0 <= j < s.len() implies s[j] != c by {
        assert(is_digit(s[j]));
    }
    crate::text::lemma_find_char_absent(s, c);
}

proof fn lemma_trim_unchanged(s: Seq<char>)
    requires
        s.len() > 0,
        !is_ws(s[0]),
        !is_ws(s.last()),
    ensures
        trim(s) == s,
{
}

proof fn lemma_fmt_arith(d: int)
    requires
        d >= 0,
    ensures
        ({
            let ms = d / 1_000_000;
            (ms / 60000) * 60 * 1_000_000_000 + ((ms % 60000) / 1000) * 1_000_000_000 + ((ms
                % 1000) / 10) * 10_000_000 == (d / 10_000_000) * 10_000_000
        }),
{
    let ms = d / 1_000_000;
    assert(ms / 10 == d / 10_000_000) by {
        vstd::arithmetic::div_mod::lemma_div_denominator(d, 1_000_000, 10);
    }
    assert(ms == (ms / 60000) * 60000 + ms % 60000) by {
        vstd::arithmetic::div_mod::lemma_fundamental_div_mod(ms, 60000);
    }
    let r = ms % 60000;
    assert(r == (r / 1000) * 1000 + r % 1000) by {
        vstd::arithmetic::div_mod::lemma_fundamental_div_mod(r, 1000);
    }
    assert(r % 1000 == ms % 1000) by {
        vstd::arithmetic::div_mod::lemma_mod_mod(ms, 1000, 60);
    }
    let q = ms % 1000;
    assert(q == (q / 10) * 10 + q % 10) by {
        vstd::arithmetic::div_mod::lemma_fundamental_div_mod(q, 10);
    }
    assert(q % 10 == ms % 10) by {
        vstd::arithmetic::div_mod::lemma_mod_mod(ms, 10, 100);
    }
    assert(ms == (ms / 10) * 10 + ms % 10) by {
        vstd::arithmetic::div_mod::lemma_fundamental_div_mod(ms, 10);
    }
}

proof fn lemma_digits_no_exp(s: Seq<char>)
    requires
        forall|j: int| 0 <= j < s.len() ==> is_digit(#[trigger] s[j]) || s[j] == '.',
    ensures
        find_exp(s) is None,
{
    assert forall|j: int| 0 <= j < s.len() implies !is_exp_mark(s[j]) by {
        assert(is_digit(s[j]) || s[j] == '.');
    }
    lemma_find_exp_absent(s);
}

proof fn lemma_seconds_field(ps: Seq<char>, pc: Seq<char>)
    requires
        ps.len() > 0,
        all_digits(ps),
        pc.len() == 2,
        all_digits(pc),
    ensures
        seconds_nanos(ps + seq!['.'] + pc) == Some(digits_value(ps) * 1_000_000_000
            + digits_value(pc) * 10_000_000),
{
    let r = ps + seq!['.'] + pc;
    assert(r[0] == ps[0] && is_digit(ps[0]));
    assert(r.last() == pc[1] && is_digit(pc[1]));
    lemma_trim_unchanged(r);
    lemma_no_char_in_digits(ps, '.');
    crate::text::lemma_find_char(ps, '.');
    crate::text::lemma_find_char_at(r, '.', ps.len() as int);
    assert(r.take(ps.len() as int) =~= ps);
    assert(r.skip(ps.len() as int + 1) =~= pc);
    assert forall|j: int| 0 <= j < r.len() implies is_digit(#[trigger] r[j]) || r[j] == '.' by {
        if j < ps.len() {
            assert(r[j] == ps[j]);
        } else if j > ps.len() {
            assert(r[j] == pc[j - ps.len() - 1]);
        }
    }
    lemma_digits_no_exp(r);
    lemma_digits_append(ps, pc);
    assert(pow10(2) == 100 && pow10(7) == 10_000_000) by {
        reveal_with_fuel(pow10, 8);
    }
    assert(mantissa(r, '.') == Some((ps + pc, 2nat)));
    assert(unsigned_nanos(r, '.') == Some((digits_value(ps) * 100 + digits_value(pc))
        * 10_000_000));
    assert((digits_value(ps) * 100 + digits_value(pc)) * 10_000_000 == digits_value(ps)
        * 1_000_000_000 + digits_value(pc) * 10_000_000);
}

proof fn lemma_two_fields(pm: Seq<char>, r: Seq<char>, x: int)
    requires
        pm.len() > 0,
        all_digits(pm),
        digits_value(pm) * 1_000_000_000 < FIELD_LIMIT,
        r.len() > 0,
        is_digit(r[0]),
        is_digit(r.last()),
        forall|j: int| 0 <= j < r.len() ==> r[j] != ':',
        seconds_nanos(r) == Some(x),
        0 <= x < FIELD_LIMIT,
    ensures
        spec_parse_time(pm + seq![':'] + r) == within_max(Some(digits_value(pm) * 1_000_000_000
            * 60 + x)),
{
    let t = pm + seq![':'] + r;
    assert(t[0] == pm[0] && is_digit(pm[0]));
    assert(t.last() == r.last());
    lemma_trim_unchanged(t);
    lemma_no_char_in_digits(pm, ':');
    crate::text::lemma_find_char(pm, ':');
    crate::text::lemma_find_char_at(t, ':', pm.len() as int);
    assert(t.take(pm.len() as int) =~= pm);
    assert(t.skip(pm.len() as int + 1) =~= r);
    crate::text::lemma_find_char_absent(r, ':');
    lemma_no_char_in_digits(pm, '.');
    assert forall|j: int| 0 <= j < pm.len() implies is_digit(#[trigger] pm[j]) || pm[j] == '.' by {
        assert(is_digit(pm[j]));
    }
    lemma_digits_no_exp(pm);
    lemma_digits_value_bounds(pm);
    lemma_pow10_32();
    assert(mantissa(pm, '.') == Some((pm, 0nat)));
    assert(decimal_nanos(pm, '.') == Some(digits_value(pm) * 1_000_000_000));
}

/// Writing a time with `fmt_time` and reading it back with `parse_time` gives
/// the time cut down to whole centiseconds.
pub proof fn lemma_fmt_time_parse_time(d: u128)
    requires
        d <= MAX_NANOS,
    ensures
        spec_parse_time(spec_fmt_time(d)) == Some(((d / 10_000_000) * 10_000_000) as u128),
{
    let ms = d / 1_000_000;
    let min = (ms / 60000) as nat;
    let sec = ((ms % 60000) / 1000) as nat;
    let cs = ((ms % 1000) / 10) as nat;
    lemma_pad2(min);
    lemma_pad2(sec);
    lemma_pad2(cs);
    let pm = pad2(min);
    let ps = pad2(sec);
    let pc = pad2(cs);
    assert(cs < 100);
    assert(pc.len() == 2) by {
        if cs >= 10 {
            assert(decimal_digits(cs) =~= decimal_digits(cs / 10).push(digit_char((cs % 10) as int)));
        }
    }
    let r = ps + seq!['.'] + pc;
    assert(spec_fmt_time(d) =~= pm + seq![':'] + r);
    lemma_seconds_field(ps, pc);
    assert forall|j: int| 0 <= j < r.len() implies r[j] != ':' by {
        if j < ps.len() {
            assert(r[j] == ps[j] && is_digit(ps[j]));
        } else if j > ps.len() {
            assert(r[j] == pc[j - ps.len() - 1] && is_digit(pc[j - ps.len() - 1]));
        }
    }
    assert(r[0] == ps[0] && r.last() == pc[1]);
    assert(min <= 400_000_000_000_000_000);
    assert(sec < 60);
    lemma_two_fields(pm, r, (sec * 1_000_000_000 + cs * 10_000_000) as int);
    lemma_fmt_arith(d as int);
}

} // verus!
