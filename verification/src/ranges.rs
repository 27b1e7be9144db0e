//! What the constraints on a memory index mean: in the field encoding an
//! index is split into bits, and a chain of products compares those bits
//! with the largest index from the top down.

use vstd::prelude::*;

use crate::encoding::{bit_len, bit_of, halve, lemma_halve};

verus! {

/// Whether each item is a bit.
pub open spec fn bits_ok(b: Seq<nat>) -> bool {
    forall|j: int| 0 <= j < b.len() ==> #[trigger] b[j] <= 1
}

/// The number the bits from position `i` on stand for, least significant first.
pub open spec fn value_from(b: Seq<nat>, i: nat) -> nat
    decreases b.len() - i,
{
    if i >= b.len() {
        0
    } else {
        b[i as int] + 2 * value_from(b, i + 1)
    }
}

/// The constraints that `chain` emits from position `i` down, read over bit
/// values, with `cur` the value of the running product: at a 1-digit of
/// `bound` the product takes in the bit; at a 0-digit the bit times the
/// product must be 0.
pub open spec fn chain_holds(b: Seq<nat>, bound: nat, i: int, cur: nat) -> bool
    decreases i + 1,
{
    if i < 0 {
        true
    } else if bit_of(bound, i as nat) == 1 {
        chain_holds(b, bound, i - 1, cur * b[i])
    } else {
        b[i] * cur == 0 && chain_holds(b, bound, i - 1, cur)
    }
}

/// Whether the bits from position `k` on stand for at most `bound` halved `k` times.
pub open spec fn le_from(b: Seq<nat>, bound: nat, k: nat) -> bool {
    value_from(b, k) <= halve(bound, k)
}

/// Whether the bits from position `k` on stand for exactly `bound` halved `k` times.
pub open spec fn eq_from(b: Seq<nat>, bound: nat, k: nat) -> nat {
    if value_from(b, k) == halve(bound, k) {
        1
    } else {
        0
    }
}

proof fn lemma_value_halves(b: Seq<nat>, k: nat)
    requires
        bits_ok(b),
    ensures
        value_from(b, k + 1) == value_from(b, k) / 2,
        k < b.len() ==> b[k as int] == value_from(b, k) % 2,
{
    if k < b.len() {
        assert(b[k as int] <= 1);
    }
}

proof fn lemma_value_halve(b: Seq<nat>, k: nat)
    requires
        bits_ok(b),
    ensures
        value_from(b, k) == halve(value_from(b, 0), k),
    decreases k,
{
    if k > 0 {
        lemma_value_halve(b, (k - 1) as nat);
        lemma_value_halves(b, (k - 1) as nat);
        lemma_halve(value_from(b, 0), (k - 1) as nat);
    }
}

proof fn lemma_halve_mono(a: nat, c: nat, k: nat)
    requires
        a <= c,
    ensures
        halve(a, k) <= halve(c, k),
    decreases k,
{
    if k > 0 {
        lemma_halve_mono(a / 2, c / 2, (k - 1) as nat);
    }
}

/// The top binary digit of a positive number, halved to it, is 1.
proof fn lemma_top_digit(b: nat)
    requires
        b > 0,
    ensures
        bit_len(b) >= 1,
        halve(b, (bit_len(b) - 1) as nat) == 1,
    decreases b,
{
    assert(bit_len(0) == 0);
    if b < 2 {
        assert(bit_len(1) == 1);
    } else {
        lemma_top_digit(b / 2);
        assert(halve(b, (bit_len(b) - 1) as nat) == halve(b / 2, (bit_len(b / 2) - 1) as nat));
    }
}

proof fn lemma_value_top(b: Seq<nat>)
    requires
        b.len() >= 1,
    ensures
        value_from(b, (b.len() - 1) as nat) == b[b.len() - 1],
{
    assert(value_from(b, b.len()) == 0);
}

/// From position `i` down, the constraints hold and the bits above `i`
/// stand for at most the bound's, exactly when all the bits stand for at
/// most `bound`; `cur` is 1 when the bits above `i` match the bound's.
proof fn lemma_chain_step(b: Seq<nat>, bound: nat, i: int, cur: nat)
    requires
        bits_ok(b),
        -1 <= i < b.len() - 1,
        cur == eq_from(b, bound, (i + 1) as nat),
    ensures
        (chain_holds(b, bound, i, cur) && le_from(b, bound, (i + 1) as nat)) <==> le_from(b, bound, 0),
    decreases i + 1,
{
    if i >= 0 {
        let k = i as nat;
        lemma_value_halves(b, k);
        lemma_halve(bound, k);
        let vb = value_from(b, k);
        let vb1 = value_from(b, k + 1);
        let vB = halve(bound, k);
        let vB1 = halve(bound, k + 1);
        assert(vb == 2 * vb1 + b[i]);
        assert(vB == 2 * vB1 + bit_of(bound, k));
        assert(b[i] <= 1);
        lemma_value_halve(b, k);
        if value_from(b, 0) <= bound {
            lemma_halve_mono(value_from(b, 0), bound, k);
        }
        if bit_of(bound, k) == 1 {
            assert(cur * b[i] == eq_from(b, bound, k)) by (nonlinear_arith)
                requires
                    cur == eq_from(b, bound, (i + 1) as nat),
                    b[i] <= 1,
                    eq_from(b, bound, k) == (if vb == vB { 1nat } else { 0nat }),
                    eq_from(b, bound, (i + 1) as nat) == (if vb1 == vB1 { 1nat } else { 0nat }),
                    vb == 2 * vb1 + b[i],
                    vB == 2 * vB1 + 1,
            ;
            lemma_chain_step(b, bound, i - 1, cur * b[i]);
            assert(le_from(b, bound, k) <==> le_from(b, bound, k + 1));
        } else {
            assert(bit_of(bound, k) == 0);
            if b[i] * cur == 0 {
                assert(cur == eq_from(b, bound, k)) by (nonlinear_arith)
                    requires
                        cur == eq_from(b, bound, (i + 1) as nat),
                        b[i] <= 1,
                        b[i] * cur == 0,
                        eq_from(b, bound, k) == (if vb == vB { 1nat } else { 0nat }),
                        eq_from(b, bound, (i + 1) as nat) == (if vb1 == vB1 { 1nat } else { 0nat }),
                        vb == 2 * vb1 + b[i],
                        vB == 2 * vB1,
                ;
                lemma_chain_step(b, bound, i - 1, cur);
                assert(le_from(b, bound, k) <==> le_from(b, bound, k + 1));
            } else {
                assert(cur == 1 && b[i] == 1) by (nonlinear_arith)
                    requires
                        b[i] <= 1,
                        cur <= 1,
                        b[i] * cur != 0,
                ;
                assert(!le_from(b, bound, k));
            }
        }
    }
}

/// The chain of products admits exactly the bits that stand for at most
/// `bound`: read over bits of the bound's length, the constraints that
/// `chain` emits, started from the top bit, hold if and only if the number
/// of the bits is at most `bound`.
pub proof fn lemma_chain_compares(b: Seq<nat>, bound: nat)
    requires
        bound >= 1,
        b.len() == bit_len(bound),
        bits_ok(b),
    ensures
        chain_holds(b, bound, b.len() - 2, b[b.len() - 1]) <==> value_from(b, 0) <= bound,
{
    lemma_top_digit(bound);
    let n = b.len();
    lemma_value_top(b);
    assert(b[n - 1] <= 1);
    assert(b[n - 1] == eq_from(b, bound, (n - 1) as nat));
    lemma_chain_step(b, bound, n - 2, b[n - 1]);
}

/// The binary digits of `v`, `n` of them.
pub open spec fn digits(v: nat, n: nat) -> Seq<nat> {
    Seq::new(n, |j: int| bit_of(v, j as nat))
}

proof fn lemma_digits_value(v: nat, n: nat, k: nat)
    requires
        k <= n,
    ensures
        bits_ok(digits(v, n)),
        value_from(digits(v, n), k) == halve(v, k) % vstd::arithmetic::power2::pow2((n - k) as nat),
    decreases n - k,
{
    let d = digits(v, n);
    assert forall|j: int| 0 <= j < d.len() implies #[trigger] d[j] <= 1 by {
        lemma_halve(v, j as nat);
    }
    vstd::arithmetic::power2::lemma_pow2_pos((n - k) as nat);
    if k < n {
        lemma_digits_value(v, n, k + 1);
        lemma_halve(v, k);
        let h = halve(v, k);
        let m = vstd::arithmetic::power2::pow2((n - k - 1) as nat);
        vstd::arithmetic::power2::lemma_pow2_unfold((n - k) as nat);
        assert(vstd::arithmetic::power2::pow2((n - k) as nat) == 2 * m);
        assert(halve(v, k + 1) == h / 2);
        assert(d[k as int] == h % 2);
        vstd::arithmetic::power2::lemma_pow2_pos((n - k - 1) as nat);
        vstd::arithmetic::div_mod::lemma_breakdown(h as int, 2, m as int);
        assert(h % (2 * m) == 2 * ((h / 2) % m) + h % 2);
    } else {
        assert(value_from(d, k) == 0);
        assert(vstd::arithmetic::power2::pow2(0) == 1) by {
            vstd::arithmetic::power2::lemma2_to64();
        }
    }
}

/// A number at most `bound` is its own digits within the bound's length.
proof fn lemma_digits_of_small(v: nat, bound: nat)
    requires
        bound >= 1,
        v <= bound,
    ensures
        bits_ok(digits(v, bit_len(bound))),
        value_from(digits(v, bit_len(bound)), 0) == v,
{
    let n = bit_len(bound);
    lemma_digits_value(v, n, 0);
    lemma_below_pow2(bound);
    vstd::arithmetic::div_mod::lemma_small_mod(v, vstd::arithmetic::power2::pow2(n));
}

/// A number is below 2 to the power of its length.
proof fn lemma_below_pow2(b: nat)
    ensures
        b < vstd::arithmetic::power2::pow2(bit_len(b)),
    decreases b,
{
    if b == 0 {
        vstd::arithmetic::power2::lemma2_to64();
    } else {
        lemma_below_pow2(b / 2);
        vstd::arithmetic::power2::lemma_pow2_unfold(bit_len(b));
    }
}

/// A memory index in the field encoding is split into the bits of the
/// block's largest index `length - 1`, and the chain compares them with it:
/// a value passes (some bits for it satisfy the constraints) if and only if
/// it is below `length`.
pub proof fn lemma_index_in_block(v: nat, length: nat)
    requires
        length >= 2,
    ensures
        (exists|b: Seq<nat>|
            #![trigger value_from(b, 0)]
            b.len() == bit_len((length - 1) as nat) && bits_ok(b) && value_from(b, 0) == v
                && chain_holds(b, (length - 1) as nat, b.len() - 2, b[b.len() - 1])) <==> v < length,
{
    let bound = (length - 1) as nat;
    if v < length {
        lemma_digits_of_small(v, bound);
        let d = digits(v, bit_len(bound));
        lemma_chain_compares(d, bound);
    }
    assert forall|b: Seq<nat>|
        b.len() == bit_len(bound) && bits_ok(b) && value_from(b, 0) == v && chain_holds(
            b,
            bound,
            b.len() - 2,
            b[b.len() - 1],
        ) implies v < length by {
        lemma_chain_compares(b, bound);
    }
}

} // verus!
