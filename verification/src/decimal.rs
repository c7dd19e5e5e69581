//! Fixed-width decimal numbers, least significant digit first, for deciding exactly
//! how a decimal fraction compares with a power of two.
use vstd::prelude::*;
use crate::text::{pow10, lemma_pow10_positive};

verus! {

/// Two to the power `n`.
pub open spec fn pow2(n: nat) -> nat
    decreases n,
{
    if n == 0 {
        1
    } else {
        2 * pow2((n - 1) as nat)
    }
}

/// The value of decimal digits stored least significant first.
pub open spec fn le_value(d: Seq<u8>) -> nat
    decreases d.len(),
{
    if d.len() == 0 {
        0
    } else {
        d[0] as nat + 10 * le_value(d.drop_first())
    }
}

/// Every entry is a decimal digit.
pub open spec fn decimal_digits(d: Seq<u8>) -> bool {
    forall|i: int| 0 <= i < d.len() ==> #[trigger] d[i] < 10
}

/// Appending a most significant digit adds it at its place value.
pub proof fn lemma_le_value_push(d: Seq<u8>, x: u8)
    ensures
        le_value(d.push(x)) == le_value(d) + x * pow10(d.len()),
    decreases d.len(),
{
    if d.len() == 0 {
        assert(d.push(x).drop_first() =~= Seq::<u8>::empty());
        assert(le_value(Seq::<u8>::empty()) == 0);
    } else {
        lemma_le_value_push(d.drop_first(), x);
        assert(d.push(x).drop_first() =~= d.drop_first().push(x));
        let n = d.drop_first().len();
        assert(pow10(d.len()) == 10 * pow10(n));
        assert(10 * (le_value(d.drop_first()) + x * pow10(n)) == 10 * le_value(d.drop_first()) + x * (10
            * pow10(n))) by (nonlinear_arith);
    }
}

/// Two to any power is at least one.
pub proof fn lemma_pow2_pos(n: nat)
    ensures
        pow2(n) >= 1,
    decreases n,
{
    if n > 0 {
        lemma_pow2_pos((n - 1) as nat);
    }
}

/// Digits below ten make a value below ten to the number of digits.
pub proof fn lemma_le_value_bound(d: Seq<u8>)
    requires
        decimal_digits(d),
    ensures
        le_value(d) < pow10(d.len()),
    decreases d.len(),
{
    if d.len() > 0 {
        lemma_le_value_bound(d.drop_first());
        assert(decimal_digits(d.drop_first())) by {
            assert forall|i: int| 0 <= i < d.drop_first().len() implies #[trigger] d.drop_first()[i] < 10 by {
                assert(d.drop_first()[i] == d[i + 1]);
            }
        }
        assert(d[0] < 10);
        let n = d.drop_first().len();
        assert(pow10(d.len()) == 10 * pow10(n));
    }
}

/// A value is zero exactly when every digit is zero.
pub proof fn lemma_le_value_zero(d: Seq<u8>)
    ensures
        le_value(d) == 0 <==> forall|i: int| 0 <= i < d.len() ==> #[trigger] d[i] == 0,
    decreases d.len(),
{
    if d.len() > 0 {
        lemma_le_value_zero(d.drop_first());
        if le_value(d) == 0 {
            assert forall|i: int| 0 <= i < d.len() implies #[trigger] d[i] == 0 by {
                if i > 0 {
                    assert(d[i] == d.drop_first()[i - 1]);
                }
            }
        }
        if forall|i: int| 0 <= i < d.len() ==> #[trigger] d[i] == 0 {
            assert forall|i: int| 0 <= i < d.drop_first().len() implies #[trigger] d.drop_first()[i]
                == 0 by {
                assert(d.drop_first()[i] == d[i + 1]);
            }
        }
    }
}

/// `d` doubled, as many digits as `d`, and the digit carried out of the top.
fn double_digits(d: &Vec<u8>) -> (r: (Vec<u8>, u8))
    requires
        decimal_digits(d@),
    ensures
        r.0@.len() == d@.len(),
        decimal_digits(r.0@),
        r.1 <= 1,
        le_value(r.0@) + r.1 * pow10(d@.len()) == 2 * le_value(d@),
{
    let mut out: Vec<u8> = Vec::new();
    let mut carry: u8 = 0;
    let mut i: usize = 0;
    assert(d@.take(0) =~= Seq::<u8>::empty());
    while i < d.len()
        invariant
            decimal_digits(d@),
            i <= d@.len(),
            out@.len() == i,
            decimal_digits(out@),
            carry <= 1,
            le_value(out@) + carry * pow10(i as nat) == 2 * le_value(d@.take(i as int)),
        decreases d@.len() - i,
    {
        let t: u8 = d[i] * 2 + carry;
        let digit = t % 10;
        let ghost old_out = out@;
        out.push(digit);
        proof {
            lemma_le_value_push(old_out, digit);
            assert(d@.take(i + 1) =~= d@.take(i as int).push(d@[i as int]));
            lemma_le_value_push(d@.take(i as int), d@[i as int]);
            let p = pow10(i as nat);
            assert(pow10((i + 1) as nat) == 10 * p);
            assert(digit * p + (t / 10) * (10 * p) == t * p) by (nonlinear_arith)
                requires
                    digit == t % 10,
            ;
            assert(2 * (d@[i as int] * p) == (2 * d@[i as int]) * p) by (nonlinear_arith);
            assert(t * p == (2 * d@[i as int]) * p + carry * p) by (nonlinear_arith)
                requires
                    t == d@[i as int] * 2 + carry,
            ;
            assert(decimal_digits(out@)) by {
                assert forall|j: int| 0 <= j < out@.len() implies #[trigger] out@[j] < 10 by {
                    if j < i {
                        assert(out@[j] == old_out[j]);
                    }
                }
            }
        }
        carry = t / 10;
        i = i + 1;
    }
    assert(d@.take(d@.len() as int) =~= d@);
    (out, carry)
}

/// Whether every digit is zero, that is, whether the value is zero.
fn all_zero_digits(d: &Vec<u8>) -> (r: bool)
    ensures
        r == (le_value(d@) == 0),
{
    proof {
        lemma_le_value_zero(d@);
    }
    let mut i: usize = 0;
    while i < d.len()
        invariant
            i <= d@.len(),
            forall|j: int| 0 <= j < i ==> #[trigger] d@[j] == 0,
        decreases d@.len() - i,
    {
        if d[i] != 0 {
            assert(d@[i as int] != 0);
            proof {
                lemma_le_value_zero(d@);
            }
            return false;
        }
        i = i + 1;
    }
    true
}

/// Whether `le_value(d) * 2^q <= 10^k`, where `k` is the number of digits of `d`.
pub(crate) fn scaled_within_one(d: &Vec<u8>, q: u64) -> (r: bool)
    requires
        decimal_digits(d@),
    ensures
        r == (le_value(d@) * pow2(q as nat) <= pow10(d@.len())),
{
    let ghost k = d@.len();
    let ghost v = le_value(d@);
    let mut cur: Vec<u8> = Vec::new();
    let mut j: usize = 0;
    while j < d.len()
        invariant
            j <= d@.len(),
            cur@ == d@.take(j as int),
        decreases d@.len() - j,
    {
        cur.push(d[j]);
        j = j + 1;
        assert(cur@ =~= d@.take(j as int));
    }
    assert(d@.take(k as int) =~= d@);
    proof {
        lemma_le_value_bound(d@);
    }
    let mut over: u8 = 0;
    let mut n: u64 = 0;
    assert(v * pow2(0) == v) by {
        assert(pow2(0) == 1);
    }
    while n < q
        invariant
            v == le_value(d@),
            k == d@.len(),
            n <= q,
            cur@.len() == k,
            decimal_digits(cur@),
            over <= 1,
            over == 1 ==> le_value(cur@) == 0,
            le_value(cur@) + over * pow10(k) == v * pow2(n as nat),
        decreases q - n,
    {
        let (next, c) = double_digits(&cur);
        proof {
            assert(pow2((n + 1) as nat) == 2 * pow2(n as nat));
            assert(v * pow2((n + 1) as nat) == 2 * (v * pow2(n as nat))) by (nonlinear_arith)
                requires
                    pow2((n + 1) as nat) == 2 * pow2(n as nat),
            ;
            lemma_le_value_bound(next@);
        }
        let new_over: u8 = 2 * over + c;
        proof {
            assert(new_over * pow10(k) == 2 * (over * pow10(k)) + c * pow10(k)) by (nonlinear_arith)
                requires
                    new_over == 2 * over + c,
            ;
        }
        let nonzero = !all_zero_digits(&next);
        if new_over >= 2 || (new_over == 1 && nonzero) {
            proof {
                let w = v * pow2((n + 1) as nat);
                assert(w == le_value(next@) + new_over * pow10(k));
                assert(pow10(k) >= 1) by {
                    lemma_pow10_positive(k);
                }
                assert(w > pow10(k)) by (nonlinear_arith)
                    requires
                        w == le_value(next@) + new_over * pow10(k),
                        new_over >= 2 || (new_over == 1 && le_value(next@) > 0),
                        pow10(k) >= 1,
                ;
                lemma_pow2_monotone((n + 1) as nat, q as nat);
                assert(v * pow2(q as nat) >= w) by (nonlinear_arith)
                    requires
                        pow2(q as nat) >= pow2((n + 1) as nat),
                        w == v * pow2((n + 1) as nat),
                ;
            }
            assert(v * pow2(q as nat) > pow10(k));
            return false;
        }
        cur = next;
        over = new_over;
        n = n + 1;
    }
    proof {
        lemma_le_value_bound(cur@);
        assert(v * pow2(q as nat) <= pow10(k)) by (nonlinear_arith)
            requires
                v * pow2(q as nat) == le_value(cur@) + over * pow10(k),
                over <= 1,
                over == 1 ==> le_value(cur@) == 0,
                le_value(cur@) < pow10(k),
        ;
    }
    true
}

/// Powers of two grow with the exponent.
pub proof fn lemma_pow2_monotone(a: nat, b: nat)
    requires
        a <= b,
    ensures
        pow2(a) <= pow2(b),
    decreases b,
{
    if a < b {
        lemma_pow2_monotone(a, (b - 1) as nat);
        lemma_pow2_pos((b - 1) as nat);
    }
}

/// `10^k - le_value(d)` in `k` digits, for a value of `d` that is not zero.
pub(crate) fn complement_digits(d: &Vec<u8>) -> (r: Vec<u8>)
    requires
        decimal_digits(d@),
        le_value(d@) > 0,
    ensures
        r@.len() == d@.len(),
        decimal_digits(r@),
        le_value(r@) + le_value(d@) == pow10(d@.len()),
{
    let ghost k = d@.len();
    let mut out: Vec<u8> = Vec::new();
    let mut carry: u8 = 1;
    let mut i: usize = 0;
    assert(d@.take(0) =~= Seq::<u8>::empty());
    while i < d.len()
        invariant
            decimal_digits(d@),
            i <= k,
            k == d@.len(),
            out@.len() == i,
            decimal_digits(out@),
            carry <= 1,
            le_value(out@) + carry * pow10(i as nat) + le_value(d@.take(i as int)) == pow10(i as nat)
                - 1 + 1,
        decreases k - i,
    {
        let t: u8 = 9 - d[i] + carry;
        let digit = if t == 10 {
            0
        } else {
            t
        };
        let ghost old_out = out@;
        out.push(digit);
        proof {
            lemma_le_value_push(old_out, digit);
            assert(d@.take(i + 1) =~= d@.take(i as int).push(d@[i as int]));
            lemma_le_value_push(d@.take(i as int), d@[i as int]);
            let p = pow10(i as nat);
            assert(pow10((i + 1) as nat) == 10 * p);
            let nc: int = if t == 10 {
                1
            } else {
                0
            };
            assert(digit * p + nc * (10 * p) == t * p) by (nonlinear_arith)
                requires
                    digit + 10 * nc == t,
            ;
            assert(t * p + d@[i as int] * p == 9 * p + carry * p) by (nonlinear_arith)
                requires
                    t + d@[i as int] == 9 + carry,
            ;
            assert(decimal_digits(out@)) by {
                assert forall|j: int| 0 <= j < out@.len() implies #[trigger] out@[j] < 10 by {
                    if j < i {
                        assert(out@[j] == old_out[j]);
                    }
                }
            }
        }
        carry = if t == 10 {
            1
        } else {
            0
        };
        i = i + 1;
    }
    assert(d@.take(k as int) =~= d@);
    proof {
        lemma_le_value_bound(out@);
        if carry == 1 {
            assert(le_value(out@) + pow10(k) + le_value(d@) == pow10(k));
        }
    }
    out
}

} // verus!
