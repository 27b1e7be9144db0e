//! Decimal rendering of numbers and the names given to SMT constants.

use num_bigint::BigUint;
use vstd::arithmetic::power2::pow2;
use vstd::prelude::*;
use vstd::string::StringExecFns;

verus! {

/// The character of a decimal digit.
pub open spec fn digit_char(d: nat) -> char {
    if d == 0 {
        '0'
    } else if d == 1 {
        '1'
    } else if d == 2 {
        '2'
    } else if d == 3 {
        '3'
    } else if d == 4 {
        '4'
    } else if d == 5 {
        '5'
    } else if d == 6 {
        '6'
    } else if d == 7 {
        '7'
    } else if d == 8 {
        '8'
    } else {
        '9'
    }
}

/// The usual decimal representation of a natural number, without leading zeros.
pub open spec fn decimal(n: nat) -> Seq<char>
    decreases n,
{
    if n < 10 {
        seq![digit_char(n)]
    } else {
        decimal(n / 10).push(digit_char(n % 10))
    }
}

fn digit_str(d: u64) -> (s: &'static str)
    requires
        d < 10,
    ensures
        s@ == seq![digit_char(d as nat)],
{
    if d == 0 {
        proof { reveal_strlit("0"); }
        assert("0"@ =~= seq!['0']);
        "0"
    } else if d == 1 {
        proof { reveal_strlit("1"); }
        assert("1"@ =~= seq!['1']);
        "1"
    } else if d == 2 {
        proof { reveal_strlit("2"); }
        assert("2"@ =~= seq!['2']);
        "2"
    } else if d == 3 {
        proof { reveal_strlit("3"); }
        assert("3"@ =~= seq!['3']);
        "3"
    } else if d == 4 {
        proof { reveal_strlit("4"); }
        assert("4"@ =~= seq!['4']);
        "4"
    } else if d == 5 {
        proof { reveal_strlit("5"); }
        assert("5"@ =~= seq!['5']);
        "5"
    } else if d == 6 {
        proof { reveal_strlit("6"); }
        assert("6"@ =~= seq!['6']);
        "6"
    } else if d == 7 {
        proof { reveal_strlit("7"); }
        assert("7"@ =~= seq!['7']);
        "7"
    } else if d == 8 {
        proof { reveal_strlit("8"); }
        assert("8"@ =~= seq!['8']);
        "8"
    } else {
        proof { reveal_strlit("9"); }
        assert("9"@ =~= seq!['9']);
        "9"
    }
}

/// Decimal representations are made of digits only, and are never empty.
pub proof fn lemma_decimal_digits(n: nat)
    ensures
        decimal(n).len() >= 1,
        forall|i: int| 0 <= i < decimal(n).len() ==> '0' <= #[trigger] decimal(n)[i] <= '9',
    decreases n,
{
    if n >= 10 {
        lemma_decimal_digits(n / 10);
    }
}

/// Appends the decimal representation of `n` to `s`.
pub fn push_decimal(s: &mut String, n: u64)
    ensures
        final(s)@ == old(s)@ + decimal(n as nat),
    decreases n,
{
    if n >= 10 {
        push_decimal(s, n / 10);
        s.append(digit_str(n % 10));
        assert(decimal(n as nat) == decimal((n / 10) as nat).push(digit_char((n % 10) as nat)));
        assert(final(s)@ =~= old(s)@ + decimal(n as nat));
    } else {
        s.append(digit_str(n));
    }
}

/// The decimal representation of `n`.
pub fn decimal_string(n: u64) -> (s: String)
    ensures
        s@ == decimal(n as nat),
{
    let mut s = String::new();
    push_decimal(&mut s, n);
    assert(s@ =~= decimal(n as nat));
    s
}


/// The position of the first `x` in `s` from position `i` on.
pub open spec fn first_from<T>(s: Seq<T>, x: T, i: nat) -> Option<nat>
    decreases s.len() - i,
{
    if i >= s.len() {
        None
    } else if s[i as int] == x {
        Some(i)
    } else {
        first_from(s, x, i + 1)
    }
}

/// The position of the last `x` among the first `n` items of `s`.
pub open spec fn last_before<T>(s: Seq<T>, x: T, n: nat) -> Option<nat>
    decreases n,
{
    if n == 0 {
        None
    } else if s[n - 1] == x {
        Some((n - 1) as nat)
    } else {
        last_before(s, x, (n - 1) as nat)
    }
}

/// A found position lies inside the sequence and holds the item.
pub proof fn lemma_first_from<T>(s: Seq<T>, x: T, i: nat)
    ensures
        first_from(s, x, i) matches Some(k) ==> i <= k < s.len() && s[k as int] == x,
    decreases s.len() - i,
{
    if i < s.len() && s[i as int] != x {
        lemma_first_from(s, x, i + 1);
    }
}

/// A found last position lies inside the prefix and holds the item.
pub proof fn lemma_last_before<T>(s: Seq<T>, x: T, n: nat)
    requires
        n <= s.len(),
    ensures
        last_before(s, x, n) matches Some(k) ==> k < n && s[k as int] == x,
    decreases n,
{
    if n > 0 && s[n - 1] != x {
        lemma_last_before(s, x, (n - 1) as nat);
    }
}

/// The name of the SMT constant of witness `i`: `w<i>`.
pub open spec fn witness_text(i: nat) -> Seq<char> {
    "w"@ + decimal(i)
}

/// The name of the activation literal of the `k`-th verification condition: `actlit_<k>`.
pub open spec fn actlit_text(k: nat) -> Seq<char> {
    "actlit_"@ + decimal(k)
}

/// The name of the SMT constant holding cell `i` of memory block `b` after
/// its `f`-th write: `_m_<b>_<i>_<f>`.
pub open spec fn memory_text(b: nat, i: nat, f: nat) -> Seq<char> {
    "_m_"@ + decimal(b) + "_"@ + decimal(i) + "_"@ + decimal(f)
}

/// The name of the SMT constant of witness `index`.
pub fn witness_name(index: u32) -> (s: String)
    ensures
        s@ == witness_text(index as nat),
{
    let mut s = String::from_str("w");
    push_decimal(&mut s, index as u64);
    s
}

/// The name of the activation literal of the `index`-th verification condition.
pub fn actlit_name(index: u32) -> (s: String)
    ensures
        s@ == actlit_text(index as nat),
{
    let mut s = String::from_str("actlit_");
    push_decimal(&mut s, index as u64);
    s
}

/// The name of the SMT constant of cell `i` of memory block `block` after write `f`.
pub fn memory_name(block: u32, i: u64, f: u32) -> (s: String)
    ensures
        s@ == memory_text(block as nat, i as nat, f as nat),
{
    let mut s = String::from_str("_m_");
    push_decimal(&mut s, block as u64);
    s.append("_");
    push_decimal(&mut s, i);
    s.append("_");
    push_decimal(&mut s, f as u64);
    assert(s@ =~= memory_text(block as nat, i as nat, f as nat));
    s
}



/// Different numbers have different decimal representations.
pub proof fn lemma_decimal_injective(a: nat, b: nat)
    requires
        decimal(a) == decimal(b),
    ensures
        a == b,
    decreases a,
{
    lemma_decimal_digits(a);
    lemma_decimal_digits(b);
    if a >= 10 {
        lemma_decimal_digits(a / 10);
    }
    if b >= 10 {
        lemma_decimal_digits(b / 10);
    }
    if a < 10 && b < 10 {
        assert(decimal(a)[0] == digit_char(a));
        assert(decimal(b)[0] == digit_char(b));
    } else if a >= 10 && b >= 10 {
        assert(decimal(a).drop_last() =~= decimal(a / 10));
        assert(decimal(b).drop_last() =~= decimal(b / 10));
        assert(decimal(a).last() == digit_char(a % 10));
        assert(decimal(b).last() == digit_char(b % 10));
        lemma_decimal_injective(a / 10, b / 10);
    }
}

/// Different conditions have differently named activation literals.
pub proof fn lemma_actlit_injective(a: nat, b: nat)
    requires
        actlit_text(a) == actlit_text(b),
    ensures
        a == b,
{
    reveal_strlit("actlit_");
    assert(actlit_text(a).skip(7) =~= decimal(a));
    assert(actlit_text(b).skip(7) =~= decimal(b));
    lemma_decimal_injective(a, b);
}


/// Different witnesses have different names.
pub proof fn lemma_witness_injective(a: nat, b: nat)
    requires
        witness_text(a) == witness_text(b),
    ensures
        a == b,
{
    reveal_strlit("w");
    assert(witness_text(a).skip(1) =~= decimal(a));
    assert(witness_text(b).skip(1) =~= decimal(b));
    lemma_decimal_injective(a, b);
}

/// Digits followed by a separator are read back unambiguously.
proof fn lemma_split_at_separator(x: Seq<char>, y: Seq<char>, r1: Seq<char>, r2: Seq<char>)
    requires
        forall|i: int| 0 <= i < x.len() ==> '0' <= #[trigger] x[i] <= '9',
        forall|i: int| 0 <= i < y.len() ==> '0' <= #[trigger] y[i] <= '9',
        x + "_"@ + r1 == y + "_"@ + r2,
    ensures
        x == y,
        r1 == r2,
{
    reveal_strlit("_");
    let s = x + "_"@ + r1;
    if x.len() < y.len() {
        assert(s[x.len() as int] == '_');
        assert((y + "_"@ + r2)[x.len() as int] == y[x.len() as int]);
    } else if y.len() < x.len() {
        assert((y + "_"@ + r2)[y.len() as int] == '_');
        assert(s[y.len() as int] == x[y.len() as int]);
    } else {
        assert(s.take(x.len() as int) =~= x);
        assert((y + "_"@ + r2).take(y.len() as int) =~= y);
        assert(s.skip(x.len() as int + 1) =~= r1);
        assert((y + "_"@ + r2).skip(y.len() as int + 1) =~= r2);
    }
}

/// Different memory cells have different names.
pub proof fn lemma_memory_injective(b1: nat, i1: nat, f1: nat, b2: nat, i2: nat, f2: nat)
    requires
        memory_text(b1, i1, f1) == memory_text(b2, i2, f2),
    ensures
        b1 == b2 && i1 == i2 && f1 == f2,
{
    reveal_strlit("_m_");
    reveal_strlit("_");
    lemma_decimal_digits(b1);
    lemma_decimal_digits(b2);
    lemma_decimal_digits(i1);
    lemma_decimal_digits(i2);
    let t1 = memory_text(b1, i1, f1).skip(3);
    let t2 = memory_text(b2, i2, f2).skip(3);
    assert(t1 =~= decimal(b1) + "_"@ + (decimal(i1) + "_"@ + decimal(f1)));
    assert(t2 =~= decimal(b2) + "_"@ + (decimal(i2) + "_"@ + decimal(f2)));
    lemma_split_at_separator(decimal(b1), decimal(b2), decimal(i1) + "_"@ + decimal(f1), decimal(i2) + "_"@ + decimal(f2));
    lemma_split_at_separator(decimal(i1), decimal(i2), decimal(f1), decimal(f2));
    lemma_decimal_injective(b1, b2);
    lemma_decimal_injective(i1, i2);
    lemma_decimal_injective(f1, f2);
}

/// Witness names, activation literals and memory cells start with different
/// characters, so no name is of two kinds.
pub proof fn lemma_name_kinds(k: nat, l: nat, b: nat, i: nat, f: nat)
    ensures
        witness_text(k) != actlit_text(l),
        witness_text(k) != memory_text(b, i, f),
        actlit_text(l) != memory_text(b, i, f),
{
    reveal_strlit("w");
    reveal_strlit("actlit_");
    reveal_strlit("_m_");
    assert(witness_text(k)[0] == 'w');
    assert(actlit_text(l)[0] == 'a');
    assert(memory_text(b, i, f)[0] == '_');
}

/// Calls num-bigint's `BigUint::pow` and renders the power in decimal: the
/// digits of `2^e`.
#[verifier::external_body]
pub(crate) fn pow2_text(e: u32) -> (s: String)
    ensures
        s@ == decimal(pow2(e as nat)),
{
    BigUint::from(2u32).pow(e).to_string()
}

} // verus!
