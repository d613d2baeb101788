//! Planning the segments of one file: how many, where each starts, and what
//! each output file is called.
use vstd::prelude::*;
use vstd::arithmetic::div_mod::lemma_fundamental_div_mod_converse;
use crate::duration::{Duration, pow10, fraction_value};

verus! {

/// The length of every segment, in seconds.
pub const SEGMENT_SECONDS: u64 = 59;

/// The directory, beside each source file, that receives its segments. All
/// source files of one directory share it.
pub const OUTPUT_DIR_NAME: &'static str = "output";

/// `a / b` rounded up.
pub open spec fn ceil_div(a: nat, b: nat) -> nat
    recommends
        b > 0,
{
    ((a + b - 1) / (b as int)) as nat
}

/// The number of segments of a duration: the duration in units of
/// `SEGMENT_SECONDS`, rounded up.
pub open spec fn segments_of(d: Duration) -> nat {
    ceil_div(d.numer(), SEGMENT_SECONDS as nat * d.denom())
}

/// Where segment `i` starts, in seconds.
pub open spec fn start_of(i: nat) -> nat {
    i * SEGMENT_SECONDS as nat
}

pub open spec fn digit_char(d: nat) -> char {
    if d == 0 {
        '0'
    } else if d == 1 {
        '1'
    } else if d == 2 {
        '2'
    } else if d == 3 {
        '3'
    } else if d == 4 {
        '4'
    } else if d == 5 {
        '5'
    } else if d == 6 {
        '6'
    } else if d == 7 {
        '7'
    } else if d == 8 {
        '8'
    } else {
        '9'
    }
}

/// `n` written in decimal, without leading zeros.
pub open spec fn decimal(n: nat) -> Seq<char>
    decreases n,
{
    if n < 10 {
        seq![digit_char(n)]
    } else {
        decimal(n / 10).push(digit_char(n % 10))
    }
}

pub open spec fn segment_infix() -> Seq<char> {
    seq!['_', 's', 'e', 'g', 'm', 'e', 'n', 't', '_']
}

pub open spec fn segment_suffix() -> Seq<char> {
    seq!['.', 'm', 'p', '4']
}

/// The name of segment `i` of a file whose name without extension is `stem`:
/// `<stem>_segment_<i>.mp4`, whatever the source file's extension.
pub open spec fn segment_name(stem: Seq<char>, i: nat) -> Seq<char> {
    stem + segment_infix() + decimal(i) + segment_suffix()
}

proof fn lemma_pow10_positive(n: nat)
    ensures
        pow10(n) > 0,
    decreases n,
{
    if n > 0 {
        lemma_pow10_positive((n - 1) as nat);
    }
}

/// Digits in `0..=9` have a value below `10^len`, and the value is zero
/// exactly when every digit is.
proof fn lemma_fraction_bounds(s: Seq<u8>)
    requires
        forall|i: int| 0 <= i < s.len() ==> #[trigger] s[i] < 10,
    ensures
        fraction_value(s) < pow10(s.len()),
        fraction_value(s) == 0 <==> forall|i: int| 0 <= i < s.len() ==> #[trigger] s[i] == 0,
    decreases s.len(),
{
    if s.len() > 0 {
        let t = s.drop_last();
        assert forall|i: int| 0 <= i < t.len() implies #[trigger] t[i] < 10 by {
            assert(t[i] == s[i]);
        }
        lemma_fraction_bounds(t);
        if fraction_value(s) == 0 {
            assert forall|i: int| 0 <= i < s.len() implies #[trigger] s[i] == 0 by {
                if i < t.len() {
                    assert(t[i] == s[i]);
                }
            }
        }
        if forall|i: int| 0 <= i < s.len() ==> #[trigger] s[i] == 0 {
            assert forall|i: int| 0 <= i < t.len() implies #[trigger] t[i] == 0 by {
                assert(t[i] == s[i]);
            }
            assert(s[s.len() - 1] == 0);
        }
    }
}

proof fn lemma_count(w: nat, p: nat, f: nat)
    requires
        p > 0,
        f < p,
    ensures
        ceil_div(w * p + f, 59 * p) == if f > 0 || w % 59 != 0 {
            w / 59 + 1
        } else {
            w / 59
        },
{
    let q = w / 59;
    let r = w % 59;
    let x = r * p + f;
    assert(w * p == 59 * p * q + r * p) by (nonlinear_arith)
        requires
            w == 59 * q + r,
    ;
    assert(r * p <= 58 * p) by (nonlinear_arith)
        requires
            r <= 58,
    ;
    assert(r * p == 0 <==> r == 0) by (nonlinear_arith)
        requires
            p > 0,
    ;
    let m: int = 59 * p as int;
    assert(q * m == 59 * p * q && (q + 1) * m == 59 * p * q + m) by (nonlinear_arith)
        requires
            m == 59 * p,
    ;
    if x == 0 {
        lemma_fundamental_div_mod_converse(w * p + f + m - 1, m, q as int, m - 1);
    } else {
        lemma_fundamental_div_mod_converse(w * p + f + m - 1, m, q + 1 as int, x - 1 as int);
    }
}

/// The number of segments that cover the duration `d`.
pub fn segment_count(d: &Duration) -> (r: u64)
    requires
        d.wf(),
    ensures
        r as nat == segments_of(*d),
        r <= u64::MAX / SEGMENT_SECONDS + 1,
{
    let mut has_fraction = false;
    let mut i: usize = 0;
    while i < d.fraction.len()
        invariant
            i <= d.fraction@.len(),
            has_fraction <==> exists|k: int| 0 <= k < i && #[trigger] d.fraction@[k] != 0,
        decreases d.fraction@.len() - i,
    {
        if d.fraction[i] != 0 {
            has_fraction = true;
        }
        i = i + 1;
    }
    proof {
        lemma_pow10_positive(d.fraction@.len());
        lemma_fraction_bounds(d.fraction@);
        lemma_count(d.whole as nat, d.denom(), fraction_value(d.fraction@));
    }
    if has_fraction || d.whole % SEGMENT_SECONDS != 0 {
        d.whole / SEGMENT_SECONDS + 1
    } else {
        d.whole / SEGMENT_SECONDS
    }
}

/// Where segment `i` starts, in whole seconds.
pub fn segment_start(i: u64) -> (r: u64)
    requires
        i * SEGMENT_SECONDS <= u64::MAX,
    ensures
        r as nat == start_of(i as nat),
{
    i * SEGMENT_SECONDS
}

fn digit_str(d: u64) -> (r: &'static str)
    requires
        d < 10,
    ensures
        r@ == seq![digit_char(d as nat)],
{
    proof {
        reveal_strlit("0");
        reveal_strlit("1");
        reveal_strlit("2");
        reveal_strlit("3");
        reveal_strlit("4");
        reveal_strlit("5");
        reveal_strlit("6");
        reveal_strlit("7");
        reveal_strlit("8");
        reveal_strlit("9");
    }
    if d == 0 {
        "0"
    } else if d == 1 {
        "1"
    } else if d == 2 {
        "2"
    } else if d == 3 {
        "3"
    } else if d == 4 {
        "4"
    } else if d == 5 {
        "5"
    } else if d == 6 {
        "6"
    } else if d == 7 {
        "7"
    } else if d == 8 {
        "8"
    } else {
        "9"
    }
}

/// `n` written in decimal.
pub fn decimal_string(n: u64) -> (r: String)
    ensures
        r@ == decimal(n as nat),
    decreases n,
{
    if n < 10 {
        let mut s = String::new();
        s.append(digit_str(n));
        assert(s@ =~= decimal(n as nat));
        s
    } else {
        let mut s = decimal_string(n / 10);
        s.append(digit_str(n % 10));
        s
    }
}

/// The seek offset handed to the splitting tool for segment `i`: its start
/// in seconds, written in decimal.
pub fn seek_argument(i: u64) -> (r: String)
    requires
        i * SEGMENT_SECONDS <= u64::MAX,
    ensures
        r@ == decimal(start_of(i as nat)),
{
    decimal_string(segment_start(i))
}

/// The file name of segment `i` of a file whose name without extension is
/// `stem`.
pub fn segment_file_name(stem: &str, i: u64) -> (r: String)
    ensures
        r@ == segment_name(stem@, i as nat),
{
    let mut s = String::new();
    s.append(stem);
    s.append("_segment_");
    let digits = decimal_string(i);
    s.append(digits.as_str());
    s.append(".mp4");
    proof {
        reveal_strlit("_segment_");
        reveal_strlit(".mp4");
        assert(s@ =~= segment_name(stem@, i as nat));
    }
    s
}

pub open spec fn is_digit_char(c: char) -> bool {
    '0' <= c <= '9'
}

proof fn lemma_decimal_digits(n: nat)
    ensures
        decimal(n).len() >= 1,
        forall|k: int| 0 <= k < decimal(n).len() ==> is_digit_char(#[trigger] decimal(n)[k]),
    decreases n,
{
    if n >= 10 {
        lemma_decimal_digits(n / 10);
        let d = decimal(n / 10);
        assert forall|k: int| 0 <= k < decimal(n).len() implies is_digit_char(
            #[trigger] decimal(n)[k],
        ) by {
            if k < d.len() {
                assert(decimal(n)[k] == d[k]);
            }
        }
    }
}

proof fn lemma_digit_char_injective(x: nat, y: nat)
    requires
        x < 10,
        y < 10,
        digit_char(x) == digit_char(y),
    ensures
        x == y,
{
}

/// Different numbers are written differently.
pub proof fn lemma_decimal_injective(a: nat, b: nat)
    requires
        decimal(a) == decimal(b),
    ensures
        a == b,
    decreases a + b,
{
    if a >= 10 && b >= 10 {
        assert(decimal(a / 10) =~= decimal(a).drop_last());
        assert(decimal(b / 10) =~= decimal(b).drop_last());
        lemma_decimal_injective(a / 10, b / 10);
        assert(decimal(a) == decimal(a / 10).push(digit_char(a % 10)));
        assert(decimal(b) == decimal(b / 10).push(digit_char(b % 10)));
        assert(decimal(a).last() == digit_char(a % 10));
        assert(decimal(b).last() == digit_char(b % 10));
        lemma_digit_char_injective(a % 10, b % 10);
        assert(a == (a / 10) * 10 + a % 10);
        assert(b == (b / 10) * 10 + b % 10);
    } else if a >= 10 {
        lemma_decimal_digits(a / 10);
        assert(decimal(a).len() == decimal(a / 10).len() + 1);
        assert(decimal(b).len() == 1);
    } else if b >= 10 {
        lemma_decimal_digits(b / 10);
        assert(decimal(b).len() == decimal(b / 10).len() + 1);
        assert(decimal(a).len() == 1);
    } else {
        assert(decimal(a) == seq![digit_char(a)]);
        assert(decimal(b) == seq![digit_char(b)]);
        assert(decimal(a)[0] == digit_char(a));
        assert(decimal(b)[0] == digit_char(b));
        lemma_digit_char_injective(a, b);
    }
}

/// Segment names never collide: two segment names are equal only for the
/// same stem and the same index. So the segments of one file have distinct
/// names, and files with distinct stems that share an output directory do
/// not overwrite each other's segments.
pub proof fn lemma_segment_names_distinct(s1: Seq<char>, i: nat, s2: Seq<char>, j: nat)
    requires
        segment_name(s1, i) == segment_name(s2, j),
    ensures
        s1 == s2,
        i == j,
{
    let m = segment_infix();
    let e = segment_suffix();
    let d1 = decimal(i);
    let d2 = decimal(j);
    let a = s1 + m + d1;
    let b = s2 + m + d2;
    let n1 = segment_name(s1, i);
    let len = a.len() as int;
    assert(a =~= n1.subrange(0, n1.len() - 4));
    assert(b =~= n1.subrange(0, n1.len() - 4));
    lemma_decimal_digits(i);
    lemma_decimal_digits(j);
    if d1.len() < d2.len() {
        let k = len - d1.len() - 1;
        assert(a[k] == '_');
        assert(b[k] == d2[k - (len - d2.len())]);
    } else if d2.len() < d1.len() {
        let k = len - d2.len() - 1;
        assert(b[k] == '_');
        assert(a[k] == d1[k - (len - d1.len())]);
    }
    assert(d1 =~= a.subrange(len - d1.len(), len));
    assert(d2 =~= b.subrange(len - d2.len(), len));
    lemma_decimal_injective(i, j);
    assert(s1 =~= a.subrange(0, s1.len() as int));
    assert(s2 =~= b.subrange(0, s2.len() as int));
}

} // verus!
