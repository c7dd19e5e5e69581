//! Character-level helpers: ASCII case folding and whole numbers written in decimal.
use vstd::prelude::*;
use crate::lexer::is_digit;
use crate::decimal::{pow2, le_value, decimal_digits, lemma_le_value_push, lemma_le_value_zero, scaled_within_one, complement_digits};

verus! {

/// The ASCII lowercase form of a character; other characters are unchanged.
pub open spec fn ascii_lower(c: char) -> char {
    if 'A' <= c && c <= 'Z' {
        ((c as u32) + 32) as char
    } else {
        c
    }
}

/// The ASCII lowercase form of a character sequence.
pub open spec fn lower_seq(s: Seq<char>) -> Seq<char> {
    s.map_values(|c: char| ascii_lower(c))
}

/// The value of a decimal digit.
pub open spec fn digit_value(c: char) -> nat {
    (c as int - '0' as int) as nat
}

/// The value of a sequence of decimal digits (0 for the empty sequence).
pub open spec fn digits_value(s: Seq<char>) -> nat
    decreases s.len(),
{
    if s.len() == 0 {
        0
    } else {
        digits_value(s.drop_last()) * 10 + digit_value(s.last())
    }
}

/// Where the run of digits that starts at position `i` ends.
pub open spec fn digit_run(s: Seq<char>, i: int) -> int
    decreases s.len() - i,
{
    if 0 <= i < s.len() && is_digit(s[i]) {
        digit_run(s, i + 1)
    } else {
        i
    }
}

/// Ten to the power `n`.
pub open spec fn pow10(n: nat) -> nat
    decreases n,
{
    if n == 0 {
        1
    } else {
        10 * pow10((n - 1) as nat)
    }
}

/// `v` as a `u32`, if it is in range.
pub open spec fn as_u32(v: nat) -> Option<u32> {
    if v <= u32::MAX {
        Some(v as u32)
    } else {
        None
    }
}

/// The whole number that a lowercased identifier tail denotes as a count:
/// digits, optionally followed by `e` and digits (a power of ten), when it is in the range of `u32`.
pub open spec fn ident_keep_count(r: Seq<char>) -> Option<u32> {
    let k = digit_run(r, 0);
    if k == 0 {
        None
    } else if k == r.len() {
        as_u32(digits_value(r))
    } else if r[k] == 'e' && k + 1 < r.len() && digit_run(r, k + 1) == r.len() {
        as_u32(digits_value(r.take(k)) * pow10(digits_value(r.skip(k + 1))))
    } else {
        None
    }
}

/// Every character of `s` is `0`.
pub open spec fn all_zeros(s: Seq<char>) -> bool {
    forall|i: int| 0 <= i < s.len() ==> s[i] == '0'
}

/// The floor of the base-2 logarithm of `n` (0 for 0 and 1).
pub open spec fn log2_floor(n: nat) -> nat
    decreases n,
{
    if n <= 1 {
        0
    } else {
        1 + log2_floor(n / 2)
    }
}

/// A fraction `f` of a number with whole part `i` rounds down to `i` in binary64 exactly when
/// `f <= 2^-round_down_exp(i)`: half the spacing of the doubles next to `i`
/// (half the smallest subnormal when `i` is 0).
pub open spec fn round_down_exp(i: nat) -> nat {
    if i == 0 {
        1075
    } else {
        (53 - log2_floor(i)) as nat
    }
}

/// A fraction `f` of a number with whole part `i` rounds up to `i + 1` in binary64 exactly when
/// `1 - f <= 2^-round_up_exp(i)`: half the spacing of the doubles just below `i + 1`.
pub open spec fn round_up_exp(i: nat) -> nat {
    if i == 0 {
        54
    } else {
        (53 - log2_floor(i)) as nat
    }
}

/// The count that a numeral (digits, optionally `.` and digits, at least one digit) denotes:
/// the binary64 value nearest to it (ties to even), when that value is whole and in the range
/// of `u32`. Whole parts from 2^32 on give values beyond that range; for a whole part `i` below
/// it and a fraction `f = F / 10^k` strictly between 0 and 1, the nearest value is `i` or `i + 1`
/// as [`round_down_exp`] and [`round_up_exp`] tell, and otherwise it is not whole.
pub open spec fn numeral_keep_count(n: Seq<char>) -> Option<u32> {
    let k = digit_run(n, 0);
    let frac = if k < n.len() {
        n.skip(k + 1)
    } else {
        Seq::<char>::empty()
    };
    if k < n.len() && (n[k] != '.' || digit_run(n, k + 1) != n.len()) {
        None
    } else if k == 0 && frac.len() == 0 {
        None
    } else {
        let i = digits_value(n.take(k));
        let f = digits_value(frac);
        let scale = pow10(frac.len());
        if all_zeros(frac) {
            as_u32(i)
        } else if i >= COUNT_CAP {
            None
        } else if f * pow2(round_down_exp(i)) <= scale {
            as_u32(i)
        } else if (scale - f) * pow2(round_up_exp(i)) <= scale {
            as_u32(i + 1)
        } else {
            None
        }
    }
}

/// The characters of `s`.
pub(crate) fn str_chars(s: &str) -> (v: Vec<char>)
    ensures
        v@ == s@,
{
    broadcast use vstd::string::group_string_axioms;

    let mut v: Vec<char> = Vec::new();
    for c in it: s.chars()
        invariant
            v@ == it.seq().take(it.index()),
    {
        v.push(c);
    }
    assert(v@ =~= s@);
    v
}

/// The ASCII lowercase form of a character.
pub(crate) fn lower_char(c: char) -> (r: char)
    ensures
        r == ascii_lower(c),
{
    if 'A' <= c && c <= 'Z' {
        ((c as u8) + 32) as char
    } else {
        c
    }
}

/// The characters of `s` in ASCII lowercase.
pub(crate) fn lowercase_chars(s: &str) -> (v: Vec<char>)
    ensures
        v@ == lower_seq(s@),
{
    broadcast use vstd::string::group_string_axioms;

    let mut v: Vec<char> = Vec::new();
    for c in it: s.chars()
        invariant
            v@ == lower_seq(it.seq().take(it.index())),
    {
        let ghost before = v@;
        v.push(lower_char(c));
        assert(it.seq().take(it.index() + 1) =~= it.seq().take(it.index()).push(c));
        assert(v@ =~= lower_seq(it.seq().take(it.index() + 1)));
    }
    assert(s@.take(s@.len() as int) =~= s@);
    v
}

/// Counts that reach this bound are out of the range of `u32` whatever follows.
pub const COUNT_CAP: u64 = 0x1_0000_0000;

/// `v`, or `COUNT_CAP` when `v` reaches it.
pub open spec fn capped(v: nat) -> nat {
    if v < COUNT_CAP {
        v
    } else {
        COUNT_CAP as nat
    }
}

/// One more digit on the right multiplies the value by ten and adds the digit.
proof fn lemma_digits_value_push(s: Seq<char>, i: int, j: int)
    requires
        0 <= i <= j < s.len(),
    ensures
        digits_value(s.subrange(i, j + 1)) == digits_value(s.subrange(i, j)) * 10 + digit_value(
            s[j],
        ),
{
    assert(s.subrange(i, j + 1).drop_last() =~= s.subrange(i, j));
}

/// Ten to any power is at least one.
pub(crate) proof fn lemma_pow10_positive(n: nat)
    ensures
        pow10(n) >= 1,
    decreases n,
{
    if n > 0 {
        lemma_pow10_positive((n - 1) as nat);
    }
}

/// Powers of ten grow with the exponent.
proof fn lemma_pow10_monotone(a: nat, b: nat)
    requires
        a <= b,
    ensures
        pow10(a) <= pow10(b),
    decreases b,
{
    if a < b {
        lemma_pow10_monotone(a, (b - 1) as nat);
        lemma_pow10_positive((b - 1) as nat);
    }
}

/// Reads the digits of `cs` from position `i` on: where they end, and their value capped at `COUNT_CAP`.
fn read_digits(cs: &Vec<char>, i: usize) -> (r: (usize, u64))
    requires
        i <= cs.len(),
    ensures
        r.0 == digit_run(cs@, i as int),
        i <= r.0 <= cs.len(),
        r.1 == capped(digits_value(cs@.subrange(i as int, r.0 as int))),
{
    let mut j = i;
    let mut v: u64 = 0;
    assert(cs@.subrange(i as int, i as int) =~= Seq::<char>::empty());
    while j < cs.len() && '0' <= cs[j] && cs[j] <= '9'
        invariant
            i <= j <= cs.len(),
            digit_run(cs@, i as int) == digit_run(cs@, j as int),
            v == capped(digits_value(cs@.subrange(i as int, j as int))),
        decreases cs.len() - j,
    {
        let d = (cs[j] as u32 - '0' as u32) as u64;
        proof {
            lemma_digits_value_push(cs@, i as int, j as int);
        }
        let w = v * 10 + d;
        v = if w < COUNT_CAP {
            w
        } else {
            COUNT_CAP
        };
        j = j + 1;
    }
    (j, v)
}

/// The count that a lowercased identifier tail denotes; see [`ident_keep_count`].
#[verifier::loop_isolation(false)]
pub(crate) fn ident_tail_count(r: &Vec<char>) -> (c: Option<u32>)
    ensures
        c == ident_keep_count(r@),
{
    let (k, m) = read_digits(r, 0);
    assert(r@.subrange(0, k as int) =~= r@.take(k as int));
    if k == 0 {
        return None;
    }
    if k == r.len() {
        assert(r@.take(k as int) =~= r@);
        return if m <= u32::MAX as u64 {
            Some(m as u32)
        } else {
            None
        };
    }
    if r[k] == 'e' && k + 1 < r.len() {
        let (k2, e) = read_digits(r, k + 1);
        if k2 != r.len() {
            return None;
        }
        let ghost mant = digits_value(r@.take(k as int));
        let ghost expo = digits_value(r@.skip(k + 1));
        assert(r@.subrange(k + 1, k2 as int) =~= r@.skip(k + 1));
        proof {
            lemma_pow10_positive(expo);
        }
        if m == 0 {
            assert(mant * pow10(expo) == 0) by (nonlinear_arith)
                requires
                    mant == 0,
            ;
            return Some(0);
        }
        if m > u32::MAX as u64 {
            assert(mant * pow10(expo) >= mant) by (nonlinear_arith)
                requires
                    pow10(expo) >= 1,
            ;
            return None;
        }
        if e >= 10 {
            proof {
                lemma_pow10_monotone(10, expo);
                reveal_with_fuel(pow10, 11);
                assert(pow10(10) == 10000000000);
                assert(mant * pow10(expo) >= pow10(expo)) by (nonlinear_arith)
                    requires
                        mant >= 1,
                ;
            }
            return None;
        }
        let mut v: u64 = m;
        let mut n: u64 = 0;
        assert(pow10(0) == 1);
        assert(mant * 1 == mant);
        while n < e
            invariant
                n <= e,
                e == expo,
                1 <= mant <= u32::MAX,
                v == mant * pow10(n as nat),
                v <= u32::MAX,
            decreases e - n,
        {
            assert(mant * pow10((n + 1) as nat) == (mant * pow10(n as nat)) * 10) by (nonlinear_arith)
                requires
                    pow10((n + 1) as nat) == 10 * pow10(n as nat),
            ;
            let w = v * 10;
            if w > u32::MAX as u64 {
                proof {
                    lemma_pow10_monotone((n + 1) as nat, expo);
                    assert(mant * pow10((n + 1) as nat) <= mant * pow10(expo)) by (nonlinear_arith)
                        requires
                            pow10((n + 1) as nat) <= pow10(expo),
                            mant >= 1,
                    ;
                }
                return None;
            }
            v = w;
            n = n + 1;
        }
        return Some(v as u32);
    }
    None
}

/// A run of digits that reaches the end of `s` covers only digits.
proof fn lemma_digit_run_all(s: Seq<char>, i: int)
    requires
        0 <= i <= s.len(),
        digit_run(s, i) == s.len(),
    ensures
        forall|j: int| i <= j < s.len() ==> is_digit(#[trigger] s[j]),
    decreases s.len() - i,
{
    if i < s.len() {
        if !is_digit(s[i]) {
            assert(digit_run(s, i) == i);
        } else {
            lemma_digit_run_all(s, i + 1);
        }
    }
}

/// One more digit on the left adds it at its place value.
proof fn lemma_digits_value_prepend(c: char, t: Seq<char>)
    ensures
        digits_value(seq![c] + t) == digit_value(c) * pow10(t.len()) + digits_value(t),
    decreases t.len(),
{
    if t.len() == 0 {
        assert((seq![c] + t).drop_last() =~= Seq::<char>::empty());
        assert(digits_value(Seq::<char>::empty()) == 0);
        assert((seq![c] + t).last() == c);
        assert(pow10(0) == 1);
    } else {
        lemma_digits_value_prepend(c, t.drop_last());
        assert((seq![c] + t).drop_last() =~= seq![c] + t.drop_last());
        assert((seq![c] + t).last() == t.last());
        let p = pow10(t.drop_last().len());
        assert(pow10(t.len()) == 10 * p);
        assert((digit_value(c) * p + digits_value(t.drop_last())) * 10 == digit_value(c) * (10 * p)
            + digits_value(t.drop_last()) * 10) by (nonlinear_arith);
    }
}

/// A number below `2^b` has a base-2 logarithm below `b`.
proof fn lemma_log2_floor_bound(n: nat, b: nat)
    requires
        1 <= n < pow2(b),
    ensures
        log2_floor(n) < b,
    decreases b,
{
    if b == 0 {
        assert(pow2(0) == 1);
    } else if n > 1 {
        assert(pow2(b) == 2 * pow2((b - 1) as nat));
        lemma_log2_floor_bound(n / 2, (b - 1) as nat);
    }
}

/// The floor of the base-2 logarithm of a count below `COUNT_CAP`.
fn log2_floor_of(m: u64) -> (e: u64)
    requires
        1 <= m < COUNT_CAP,
    ensures
        e == log2_floor(m as nat),
        e < 32,
{
    proof {
        reveal_with_fuel(pow2, 33);
        assert(pow2(32) == 0x1_0000_0000);
        lemma_log2_floor_bound(m as nat, 32);
    }
    let mut x = m;
    let mut e: u64 = 0;
    while x > 1
        invariant
            1 <= x,
            e + log2_floor(x as nat) == log2_floor(m as nat),
            log2_floor(m as nat) < 32,
        decreases x,
    {
        x = x / 2;
        e = e + 1;
    }
    e
}

/// The digits of the fraction `n[start..]`, least significant first.
fn fraction_digits(n: &Vec<char>, start: usize) -> (d: Vec<u8>)
    requires
        start <= n.len(),
        forall|j: int| start <= j < n@.len() ==> is_digit(#[trigger] n@[j]),
    ensures
        d@.len() == n@.len() - start,
        decimal_digits(d@),
        le_value(d@) == digits_value(n@.skip(start as int)),
        forall|j: int| 0 <= j < d@.len() ==> (#[trigger] d@[j] == 0 <==> n@[n@.len() - 1 - j] == '0'),
{
    let len = n.len();
    let mut d: Vec<u8> = Vec::new();
    let mut j: usize = 0;
    assert(n@.subrange(len as int, len as int) =~= Seq::<char>::empty());
    while j < len - start
        invariant
            start <= len,
            len == n@.len(),
            forall|t: int| start <= t < n@.len() ==> is_digit(#[trigger] n@[t]),
            j <= len - start,
            d@.len() == j,
            decimal_digits(d@),
            le_value(d@) == digits_value(n@.subrange(len - j, len as int)),
            forall|t: int| 0 <= t < j ==> (#[trigger] d@[t] == 0 <==> n@[len - 1 - t] == '0'),
        decreases len - start - j,
    {
        let c = n[len - 1 - j];
        let x: u8 = (c as u32 - '0' as u32) as u8;
        let ghost old_d = d@;
        d.push(x);
        proof {
            lemma_le_value_push(old_d, x);
            let suffix = n@.subrange(len - j, len as int);
            assert(n@.subrange(len - j - 1, len as int) =~= seq![c] + suffix);
            lemma_digits_value_prepend(c, suffix);
            assert(decimal_digits(d@)) by {
                assert forall|t: int| 0 <= t < d@.len() implies #[trigger] d@[t] < 10 by {
                    if t < j {
                        assert(d@[t] == old_d[t]);
                    }
                }
            }
            assert forall|t: int| 0 <= t < j + 1 implies (#[trigger] d@[t] == 0 <==> n@[len - 1 - t]
                == '0') by {
                if t < j {
                    assert(d@[t] == old_d[t]);
                }
            }
        }
        j = j + 1;
    }
    assert(n@.subrange(start as int, len as int) =~= n@.skip(start as int));
    d
}

/// The count that a numeral denotes; see [`numeral_keep_count`].
#[verifier::loop_isolation(false)]
pub(crate) fn numeral_count(n: &Vec<char>) -> (c: Option<u32>)
    ensures
        c == numeral_keep_count(n@),
{
    let (k, m) = read_digits(n, 0);
    assert(n@.subrange(0, k as int) =~= n@.take(k as int));
    if k < n.len() {
        if n[k] != '.' {
            return None;
        }
        let (k2, _) = read_digits(n, k + 1);
        if k2 != n.len() {
            return None;
        }
        if k == 0 && k + 1 == n.len() {
            assert(n@.skip(k + 1).len() == 0);
            return None;
        }
        proof {
            lemma_digit_run_all(n@, k + 1);
        }
        let ghost frac = n@.skip(k + 1);
        let ghost i = digits_value(n@.take(k as int));
        let fd = fraction_digits(n, k + 1);
        let mut all_zero = true;
        let mut t: usize = 0;
        while t < fd.len()
            invariant
                t <= fd@.len(),
                all_zero <==> forall|u: int| 0 <= u < t ==> #[trigger] fd@[u] == 0,
            decreases fd@.len() - t,
        {
            if fd[t] != 0 {
                all_zero = false;
            }
            t = t + 1;
        }
        proof {
            lemma_le_value_zero(fd@);
            if all_zeros(frac) {
                assert forall|u: int| 0 <= u < fd@.len() implies #[trigger] fd@[u] == 0 by {
                    assert(frac[frac.len() - 1 - u] == n@[n@.len() - 1 - u]);
                }
            } else {
                let w = choose|w: int| 0 <= w < frac.len() && frac[w] != '0';
                let u = frac.len() - 1 - w;
                assert(frac[w] == n@[n@.len() - 1 - u]);
                assert(fd@[u] != 0);
            }
        }
        if !all_zero {
            if m >= COUNT_CAP {
                return None;
            }
            let ghost f = digits_value(frac);
            let (qd, qu): (u64, u64) = if m == 0 {
                (1075, 54)
            } else {
                let e = log2_floor_of(m);
                (53 - e, 53 - e)
            };
            if scaled_within_one(&fd, qd) {
                return Some(m as u32);
            }
            let g = complement_digits(&fd);
            if scaled_within_one(&g, qu) {
                assert(le_value(g@) == pow10(frac.len()) - f);
                return if m < u32::MAX as u64 {
                    Some((m + 1) as u32)
                } else {
                    None
                };
            }
            assert(le_value(g@) == pow10(frac.len()) - f);
            return None;
        }
    } else if k == 0 {
        return None;
    }
    if m <= u32::MAX as u64 {
        Some(m as u32)
    } else {
        None
    }
}

} // verus!

verus! {

/// A run of digits from `i` that meets no other character reaches the end.
proof fn lemma_digit_run_to_end(s: Seq<char>, i: int)
    requires
        0 <= i <= s.len(),
        forall|j: int| i <= j < s.len() ==> is_digit(#[trigger] s[j]),
    ensures
        digit_run(s, i) == s.len(),
    decreases s.len() - i,
{
    if i < s.len() {
        lemma_digit_run_to_end(s, i + 1);
    }
}

/// A run of digits from `i` stops at the first character that is not a digit.
proof fn lemma_digit_run_stops(s: Seq<char>, i: int, k: int)
    requires
        0 <= i <= k < s.len(),
        forall|j: int| i <= j < k ==> is_digit(#[trigger] s[j]),
        !is_digit(s[k]),
    ensures
        digit_run(s, i) == k,
    decreases k - i,
{
    if i < k {
        lemma_digit_run_stops(s, i + 1, k);
    }
}

/// A keep-highest count written as digits is the number they write: that number when it is in
/// the range of `u32`, and no count beyond it.
pub proof fn lemma_ident_count_digits(r: Seq<char>)
    requires
        r.len() >= 1,
        forall|k: int| 0 <= k < r.len() ==> is_digit(#[trigger] r[k]),
    ensures
        digits_value(r) <= u32::MAX ==> ident_keep_count(r) == Some(digits_value(r) as u32),
        digits_value(r) > u32::MAX ==> ident_keep_count(r) is None,
{
    lemma_digit_run_to_end(r, 0);
}

/// A keep-highest count written as digits `d`, `e` and digits `x` is `d` times ten to the `x`:
/// that number when it is in the range of `u32`, and no count beyond it.
pub proof fn lemma_ident_count_exponent(d: Seq<char>, x: Seq<char>)
    requires
        d.len() >= 1,
        x.len() >= 1,
        forall|k: int| 0 <= k < d.len() ==> is_digit(#[trigger] d[k]),
        forall|k: int| 0 <= k < x.len() ==> is_digit(#[trigger] x[k]),
    ensures
        ({
            let v = digits_value(d) * pow10(digits_value(x));
            &&& v <= u32::MAX ==> ident_keep_count(d + seq!['e'] + x) == Some(v as u32)
            &&& v > u32::MAX ==> ident_keep_count(d + seq!['e'] + x) is None
        }),
{
    let r = d + seq!['e'] + x;
    let k = d.len() as int;
    assert forall|j: int| 0 <= j < k implies is_digit(#[trigger] r[j]) by {
        assert(r[j] == d[j]);
    }
    assert(r[k] == 'e');
    lemma_digit_run_stops(r, 0, k);
    assert forall|j: int| k + 1 <= j < r.len() implies is_digit(#[trigger] r[j]) by {
        assert(r[j] == x[j - k - 1]);
    }
    lemma_digit_run_to_end(r, k + 1);
    assert(r.take(k) =~= d);
    assert(r.skip(k + 1) =~= x);
}

/// A numeral whose fraction is only zeros (or that has none) counts as its whole part: that
/// number when it is in the range of `u32`, and no count beyond it.
pub proof fn lemma_numeral_count_whole(w: Seq<char>, z: Seq<char>, dot: bool)
    requires
        w.len() >= 1,
        forall|k: int| 0 <= k < w.len() ==> is_digit(#[trigger] w[k]),
        forall|k: int| 0 <= k < z.len() ==> #[trigger] z[k] == '0',
        !dot ==> z.len() == 0,
    ensures
        ({
            let n = if dot {
                w + seq!['.'] + z
            } else {
                w
            };
            &&& digits_value(w) <= u32::MAX ==> numeral_keep_count(n) == Some(digits_value(w) as u32)
            &&& digits_value(w) > u32::MAX ==> numeral_keep_count(n) is None
        }),
{
    let k = w.len() as int;
    if dot {
        let n = w + seq!['.'] + z;
        assert forall|j: int| 0 <= j < k implies is_digit(#[trigger] n[j]) by {
            assert(n[j] == w[j]);
        }
        assert(n[k] == '.');
        lemma_digit_run_stops(n, 0, k);
        assert forall|j: int| k + 1 <= j < n.len() implies is_digit(#[trigger] n[j]) by {
            assert(n[j] == z[j - k - 1]);
        }
        lemma_digit_run_to_end(n, k + 1);
        assert(n.take(k) =~= w);
        assert(n.skip(k + 1) =~= z);
        assert(all_zeros(n.skip(k + 1)));
    } else {
        lemma_digit_run_to_end(w, 0);
        assert(w.take(k) =~= w);
        assert(all_zeros(Seq::<char>::empty()));
    }
}

} // verus!
