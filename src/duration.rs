//! Reading a duration in seconds from the text that a probing tool prints.
use vstd::prelude::*;
use vstd::slice::slice_to_vec;

verus! {

/// A non-negative duration in seconds, held exactly as written in decimal:
/// whole seconds, and the digits after the decimal point.
#[derive(Clone, Debug, PartialEq, Eq)]
pub struct Duration {
    pub whole: u64,
    /// Decimal digits after the point, each in `0..=9`.
    pub fraction: Vec<u8>,
}

/// Why a file's duration could not be had.
#[derive(Clone, Debug, PartialEq, Eq)]
pub enum ProbeError {
    /// The probing tool could not be started; holds the cause as text.
    LaunchFailed(String),
    /// The tool's output is not a decimal number; holds the raw output.
    UnparseableDuration(Vec<u8>),
}

pub open spec fn pow10(n: nat) -> nat
    decreases n,
{
    if n == 0 {
        1
    } else {
        10 * pow10((n - 1) as nat)
    }
}

pub open spec fn is_digit(b: u8) -> bool {
    48 <= b <= 57
}

pub open spec fn all_digits(s: Seq<u8>) -> bool {
    forall|i: int| 0 <= i < s.len() ==> is_digit(#[trigger] s[i])
}

/// The value of a sequence of decimal digit characters.
pub open spec fn digits_value(s: Seq<u8>) -> nat
    decreases s.len(),
{
    if s.len() == 0 {
        0
    } else {
        digits_value(s.drop_last()) * 10 + (s.last() - 48) as nat
    }
}

/// The value of a sequence of digits, each already in `0..=9`.
pub open spec fn fraction_value(s: Seq<u8>) -> nat
    decreases s.len(),
{
    if s.len() == 0 {
        0
    } else {
        fraction_value(s.drop_last()) * 10 + s.last() as nat
    }
}

impl Duration {
    pub open spec fn wf(&self) -> bool {
        forall|i: int| 0 <= i < self.fraction@.len() ==> #[trigger] self.fraction@[i] < 10
    }

    /// The duration is `numer() / denom()` seconds.
    pub open spec fn numer(&self) -> nat {
        self.whole as nat * pow10(self.fraction@.len()) + fraction_value(self.fraction@)
    }

    pub open spec fn denom(&self) -> nat {
        pow10(self.fraction@.len())
    }
}

/// ASCII whitespace, as trimmed around the probing tool's output.
pub open spec fn is_space(b: u8) -> bool {
    b == 32 || (9 <= b <= 13)
}

/// The index of the first byte at or after `i` that is not whitespace.
pub open spec fn lead_end(s: Seq<u8>, i: int) -> int
    decreases s.len() - i,
{
    if 0 <= i < s.len() && is_space(s[i]) {
        lead_end(s, i + 1)
    } else {
        i
    }
}

/// The end of `s[lo..j]` once its trailing whitespace is dropped.
pub open spec fn trail_start(s: Seq<u8>, lo: int, j: int) -> int
    decreases j - lo,
{
    if lo < j && 0 < j <= s.len() && is_space(s[j - 1]) {
        trail_start(s, lo, j - 1)
    } else {
        j
    }
}

/// `s` with leading and trailing whitespace removed.
pub open spec fn trimmed(s: Seq<u8>) -> Seq<u8> {
    let lo = lead_end(s, 0);
    s.subrange(lo, trail_start(s, lo, s.len() as int))
}

pub open spec fn has_sign(t: Seq<u8>) -> bool {
    t.len() > 0 && (t[0] == 43 || t[0] == 45)
}

/// The number without its sign.
pub open spec fn unsigned_part(t: Seq<u8>) -> Seq<u8> {
    if has_sign(t) {
        t.drop_first()
    } else {
        t
    }
}

pub open spec fn is_negative(t: Seq<u8>) -> bool {
    has_sign(t) && t[0] == 45
}

/// The index of the first `.` in `s`, or its length if there is none.
pub open spec fn point_index(s: Seq<u8>, i: int) -> int
    decreases s.len() - i,
{
    if 0 <= i < s.len() && s[i] != 46 {
        point_index(s, i + 1)
    } else {
        i
    }
}

pub open spec fn int_digits(u: Seq<u8>) -> Seq<u8> {
    u.subrange(0, point_index(u, 0))
}

pub open spec fn frac_digits(u: Seq<u8>) -> Seq<u8> {
    let p = point_index(u, 0);
    if p < u.len() {
        u.subrange(p + 1, u.len() as int)
    } else {
        Seq::empty()
    }
}

/// A decimal number: an optional sign, digits, and optionally a point followed
/// by more digits, with at least one digit in all.
pub open spec fn is_decimal(t: Seq<u8>) -> bool {
    let u = unsigned_part(t);
    all_digits(int_digits(u)) && all_digits(frac_digits(u))
        && int_digits(u).len() + frac_digits(u).len() > 0
}

/// Output that gives a duration: a decimal number whose whole part fits in
/// 64 bits, with whitespace around it.
pub open spec fn readable(out: Seq<u8>) -> bool {
    let t = trimmed(out);
    is_decimal(t) && digits_value(int_digits(unsigned_part(t))) <= u64::MAX
}

/// The duration that readable output gives: a negative number reads as zero.
pub open spec fn duration_matches(d: Duration, out: Seq<u8>) -> bool {
    let t = trimmed(out);
    let u = unsigned_part(t);
    if is_negative(t) {
        d.whole == 0 && d.fraction@.len() == 0
    } else {
        d.whole as nat == digits_value(int_digits(u)) && d.fraction@.len() == frac_digits(
            u,
        ).len() && forall|i: int|
            0 <= i < d.fraction@.len() ==> #[trigger] d.fraction@[i] == frac_digits(u)[i] - 48
    }
}

proof fn lemma_digits_step(s: Seq<u8>, a: int, i: int)
    requires
        0 <= a <= i < s.len(),
    ensures
        digits_value(s.subrange(a, i + 1)) == digits_value(s.subrange(a, i)) * 10 + (s[i]
            - 48) as nat,
        fraction_value(s.subrange(a, i + 1)) == fraction_value(s.subrange(a, i)) * 10
            + s[i] as nat,
{
    assert(s.subrange(a, i + 1).drop_last() =~= s.subrange(a, i));
}

/// A longer run of digits has a value at least as large.
proof fn lemma_digits_monotone(s: Seq<u8>, a: int, i: int, j: int)
    requires
        0 <= a <= i <= j <= s.len(),
        all_digits(s.subrange(a, j)),
    ensures
        digits_value(s.subrange(a, i)) <= digits_value(s.subrange(a, j)),
    decreases j - i,
{
    if i < j {
        assert(all_digits(s.subrange(a, j - 1))) by {
            assert forall|k: int| 0 <= k < j - 1 - a implies is_digit(
                #[trigger] s.subrange(a, j - 1)[k],
            ) by {
                assert(s.subrange(a, j - 1)[k] == s.subrange(a, j)[k]);
            }
        }
        lemma_digits_monotone(s, a, i, j - 1);
        lemma_digits_step(s, a, j - 1);
    }
}

/// Reads the digits `s[a..b]` as a number that fits in 64 bits.
fn read_whole(s: &[u8], a: usize, b: usize) -> (r: Option<u64>)
    requires
        a <= b <= s@.len(),
    ensures
        r is Some <==> all_digits(s@.subrange(a as int, b as int)) && digits_value(
            s@.subrange(a as int, b as int),
        ) <= u64::MAX,
        r matches Some(v) ==> v as nat == digits_value(s@.subrange(a as int, b as int)),
{
    let mut value: u64 = 0;
    let mut i: usize = a;
    while i < b
        invariant
            a <= i <= b <= s@.len(),
            all_digits(s@.subrange(a as int, i as int)),
            value as nat == digits_value(s@.subrange(a as int, i as int)),
        decreases b - i,
    {
        let c = s[i];
        if c < 48 || c > 57 {
            assert(s@.subrange(a as int, b as int)[i - a] == c);
            return None;
        }
        proof {
            lemma_digits_step(s@, a as int, i as int);
        }
        let d: u64 = (c - 48) as u64;
        if value > (u64::MAX - d) / 10 {
            proof {
                if all_digits(s@.subrange(a as int, b as int)) {
                    lemma_digits_monotone(s@, a as int, i as int + 1, b as int);
                }
            }
            return None;
        }
        assert(all_digits(s@.subrange(a as int, i + 1))) by {
            assert forall|k: int| 0 <= k < i + 1 - a implies is_digit(
                #[trigger] s@.subrange(a as int, i + 1)[k],
            ) by {
                if k < i - a {
                    assert(s@.subrange(a as int, i + 1)[k] == s@.subrange(a as int, i as int)[k]);
                }
            }
        }
        value = value * 10 + d;
        i = i + 1;
    }
    Some(value)
}

/// Reads the digits `s[a..b]` one by one, each as a number in `0..=9`.
fn read_fraction(s: &[u8], a: usize, b: usize) -> (r: Option<Vec<u8>>)
    requires
        a <= b <= s@.len(),
    ensures
        r is Some <==> all_digits(s@.subrange(a as int, b as int)),
        r matches Some(v) ==> v@.len() == b - a && forall|k: int|
            0 <= k < v@.len() ==> #[trigger] v@[k] == s@[a + k] - 48,
{
    let mut digits: Vec<u8> = Vec::new();
    let mut i: usize = a;
    while i < b
        invariant
            a <= i <= b <= s@.len(),
            all_digits(s@.subrange(a as int, i as int)),
            digits@.len() == i - a,
            forall|k: int| 0 <= k < digits@.len() ==> #[trigger] digits@[k] == s@[a + k] - 48,
        decreases b - i,
    {
        let c = s[i];
        if c < 48 || c > 57 {
            assert(s@.subrange(a as int, b as int)[i - a] == c);
            return None;
        }
        assert(all_digits(s@.subrange(a as int, i + 1))) by {
            assert forall|k: int| 0 <= k < i + 1 - a implies is_digit(
                #[trigger] s@.subrange(a as int, i + 1)[k],
            ) by {
                if k < i - a {
                    assert(s@.subrange(a as int, i + 1)[k] == s@.subrange(a as int, i as int)[k]);
                }
            }
        }
        digits.push(c - 48);
        i = i + 1;
    }
    Some(digits)
}

/// Reads the duration that a probing tool printed: a decimal number of
/// seconds, with whitespace around it. A negative number reads as zero.
pub fn parse_duration(out: &[u8]) -> (r: Result<Duration, ProbeError>)
    ensures
        r is Ok <==> readable(out@),
        r matches Ok(d) ==> d.wf() && duration_matches(d, out@),
        r is Err ==> (r matches Err(ProbeError::UnparseableDuration(raw)) && raw@ == out@),
{
    let n = out.len();
    let mut lo: usize = 0;
    while lo < n && (out[lo] == 32 || (9 <= out[lo] && out[lo] <= 13))
        invariant
            lo <= n == out@.len(),
            lead_end(out@, 0) == lead_end(out@, lo as int),
        decreases n - lo,
    {
        lo = lo + 1;
    }
    let mut hi: usize = n;
    while hi > lo && (out[hi - 1] == 32 || (9 <= out[hi - 1] && out[hi - 1] <= 13))
        invariant
            lo <= hi <= n == out@.len(),
            lead_end(out@, 0) == lo,
            trail_start(out@, lo as int, n as int) == trail_start(out@, lo as int, hi as int),
        decreases hi,
    {
        hi = hi - 1;
    }
    let ghost t = out@.subrange(lo as int, hi as int);
    assert(t == trimmed(out@));
    let signed = lo < hi && (out[lo] == 43 || out[lo] == 45);
    let negative = lo < hi && out[lo] == 45;
    let start: usize = if signed { lo + 1 } else { lo };
    let ghost u = out@.subrange(start as int, hi as int);
    assert(u =~= unsigned_part(t));
    let mut p: usize = start;
    while p < hi && out[p] != 46
        invariant
            start <= p <= hi <= out@.len(),
            u == out@.subrange(start as int, hi as int),
            point_index(u, 0) == point_index(u, p - start),
        decreases hi - p,
    {
        p = p + 1;
    }
    assert(int_digits(u) =~= out@.subrange(start as int, p as int));
    let frac_start: usize = if p < hi { p + 1 } else { hi };
    assert(frac_digits(u) =~= out@.subrange(frac_start as int, hi as int));
    let whole = read_whole(out, start, p);
    let fraction = read_fraction(out, frac_start, hi);
    match (whole, fraction) {
        (Some(w), Some(f)) => {
            if p - start + (hi - frac_start) == 0 {
                Err(ProbeError::UnparseableDuration(slice_to_vec(out)))
            } else if negative {
                Ok(Duration { whole: 0, fraction: Vec::new() })
            } else {
                let d = Duration { whole: w, fraction: f };
                assert forall|k: int| 0 <= k < d.fraction@.len() implies #[trigger] d.fraction@[k]
                    < 10 && d.fraction@[k] == frac_digits(u)[k] - 48 by {
                    assert(is_digit(out@.subrange(frac_start as int, hi as int)[k]));
                }
                Ok(d)
            }
        },
        _ => Err(ProbeError::UnparseableDuration(slice_to_vec(out))),
    }
}

} // verus!
