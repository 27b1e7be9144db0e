//! Elements of the prime field of ACIR circuits, held as canonical big-endian bytes.

use acir::{AcirField, FieldElement};
use vstd::prelude::*;
use vstd::string::StringExecFns;

use crate::text::decimal;

verus! {

/// The order of the field (the BN254 scalar field).
pub open spec fn field_prime() -> nat {
    21888242871839275222246405745257275088548364400416034343698204186575808495617nat
}

/// The number that a sequence of bytes denotes, most significant byte first.
pub open spec fn be_value(bytes: Seq<u8>) -> nat
    decreases bytes.len(),
{
    if bytes.len() == 0 {
        0
    } else {
        be_value(bytes.drop_last()) * 256 + bytes.last() as nat
    }
}

/// How a field element is written: `0`; otherwise the shorter in decimal of
/// `v` and of `-(p - v)`, the positive one when both are as long.
pub open spec fn field_text(v: nat) -> Seq<char> {
    if v == 0 {
        decimal(0)
    } else if decimal((field_prime() - v) as nat).len() < decimal(v).len() {
        seq!['-'] + decimal((field_prime() - v) as nat)
    } else {
        decimal(v)
    }
}

/// Calls acir's `FieldElement::from_be_bytes_reduce` and `to_be_bytes`: the
/// canonical 32 big-endian bytes of the number the input bytes denote, reduced
/// modulo the field order.
#[verifier::external_body]
fn reduce_be_bytes(bytes: &[u8]) -> (r: Vec<u8>)
    ensures
        r.len() == 32,
        be_value(r@) == be_value(bytes@) % field_prime(),
{
    FieldElement::from_be_bytes_reduce(bytes).to_be_bytes()
}

/// The canonical 32 big-endian bytes of a small number: 28 zero bytes, then
/// the number's four bytes.
fn field_bytes_of_u32(n: u32) -> (r: Vec<u8>)
    ensures
        r.len() == 32,
        be_value(r@) == n,
{
    let mut r: Vec<u8> = Vec::new();
    let mut i: usize = 0;
    while i < 28
        invariant
            i <= 28,
            r.len() == i,
            be_value(r@) == 0,
        decreases 28 - i,
    {
        let ghost before = r@;
        r.push(0u8);
        assert(r@.drop_last() =~= before);
        i = i + 1;
    }
    let q1: u32 = n / 256;
    let q2: u32 = q1 / 256;
    let q3: u32 = q2 / 256;
    assert(q3 < 256);
    let ghost s0 = r@;
    r.push(q3 as u8);
    assert(r@.drop_last() =~= s0);
    assert(be_value(r@) == q3);
    let ghost s1 = r@;
    r.push((q2 % 256) as u8);
    assert(r@.drop_last() =~= s1);
    assert(be_value(r@) == q3 * 256 + q2 % 256);
    let ghost s2 = r@;
    r.push((q1 % 256) as u8);
    assert(r@.drop_last() =~= s2);
    assert(be_value(r@) == (q3 * 256 + q2 % 256) * 256 + q1 % 256);
    assert((q3 * 256 + q2 % 256) * 256 + q1 % 256 == q1);
    let ghost s3 = r@;
    r.push((n % 256) as u8);
    assert(r@.drop_last() =~= s3);
    assert(be_value(r@) == q1 * 256 + n % 256);
    r
}

/// Calls acir's `Display` of `FieldElement` (through `to_string`) on the element
/// that the bytes denote: see `field_text`.
#[verifier::external_body]
fn field_element_text(bytes: &Vec<u8>) -> (s: String)
    ensures
        s@ == field_text(be_value(bytes@) % field_prime()),
{
    FieldElement::from_be_bytes_reduce(bytes).to_string()
}

/// Calls acir's `FieldElement::modulus` and renders it in decimal: the digits
/// of the field order.
#[verifier::external_body]
fn modulus_text() -> (s: String)
    ensures
        s@ == decimal(field_prime()),
{
    FieldElement::modulus().to_string()
}

/// Whether `prime` is the decimal text of the order of the field.
pub fn is_field_modulus(prime: &str) -> (b: bool)
    ensures
        b == (prime@ == decimal(field_prime())),
{
    let m = modulus_text();
    let p = String::from_str(prime);
    p == m
}

pub proof fn lemma_be_value_zero(bytes: Seq<u8>)
    ensures
        (be_value(bytes) == 0) <==> (forall|i: int| 0 <= i < bytes.len() ==> bytes[i] == 0),
    decreases bytes.len(),
{
    if bytes.len() > 0 {
        lemma_be_value_zero(bytes.drop_last());
        if be_value(bytes) == 0 {
            assert forall|i: int| 0 <= i < bytes.len() implies bytes[i] == 0 by {
                if i < bytes.len() - 1 {
                    assert(bytes.drop_last()[i] == bytes[i]);
                }
            }
        }
        if forall|i: int| 0 <= i < bytes.len() ==> bytes[i] == 0 {
            assert forall|i: int| 0 <= i < bytes.drop_last().len() implies bytes.drop_last()[i] == 0 by {
                assert(bytes.drop_last()[i] == bytes[i]);
            }
        }
    }
}

pub proof fn lemma_be_value_one(bytes: Seq<u8>)
    requires
        bytes.len() > 0,
    ensures
        (be_value(bytes) == 1) <==> (bytes.last() == 1 && be_value(bytes.drop_last()) == 0),
{
}

/// An element of the field, as its canonical 32 big-endian bytes.
pub struct FieldValue {
    bytes: Vec<u8>,
}

impl FieldValue {
    #[verifier::type_invariant]
    spec fn canonical(self) -> bool {
        self.bytes.len() == 32 && be_value(self.bytes@) < field_prime()
    }

    /// The number in `[0, p)` that the element is.
    pub closed spec fn value(self) -> nat {
        be_value(self.bytes@)
    }

    /// The element that big-endian `bytes` denote, reduced modulo the field order.
    pub fn from_be_bytes(bytes: &[u8]) -> (r: Self)
        ensures
            r.value() == be_value(bytes@) % field_prime(),
    {
        let b = reduce_be_bytes(bytes);
        FieldValue { bytes: b }
    }

    /// The element `n`.
    pub fn from_u32(n: u32) -> (r: Self)
        ensures
            r.value() == n,
    {
        let b = field_bytes_of_u32(n);
        FieldValue { bytes: b }
    }

    /// The canonical 32 big-endian bytes of the element.
    pub fn to_be_bytes(&self) -> (r: Vec<u8>)
        ensures
            r.len() == 32,
            be_value(r@) == self.value(),
    {
        proof {
            use_type_invariant(self);
        }
        self.bytes.clone()
    }

    /// How acir writes the element (see `field_text`).
    pub fn to_text(&self) -> (s: String)
        ensures
            s@ == field_text(self.value()),
    {
        proof {
            use_type_invariant(self);
            vstd::arithmetic::div_mod::lemma_small_mod(be_value(self.bytes@), field_prime());
        }
        field_element_text(&self.bytes)
    }

    /// Whether the element is 0.
    pub fn is_zero(&self) -> (b: bool)
        ensures
            b == (self.value() == 0),
    {
        proof {
            use_type_invariant(self);
            lemma_be_value_zero(self.bytes@);
        }
        let mut i: usize = 0;
        while i < self.bytes.len()
            invariant
                i <= self.bytes.len(),
                forall|j: int| 0 <= j < i ==> self.bytes@[j] == 0,
            decreases self.bytes.len() - i,
        {
            if self.bytes[i] != 0 {
                proof {
                    lemma_be_value_zero(self.bytes@);
                }
                return false;
            }
            i += 1;
        }
        true
    }

    /// Whether the element is 1.
    pub fn is_one(&self) -> (b: bool)
        ensures
            b == (self.value() == 1),
    {
        proof {
            use_type_invariant(self);
            lemma_be_value_one(self.bytes@);
            lemma_be_value_zero(self.bytes@.drop_last());
        }
        let n = self.bytes.len();
        if self.bytes[n - 1] != 1 {
            return false;
        }
        let mut i: usize = 0;
        while i < n - 1
            invariant
                n == self.bytes.len(),
                n == 32,
                i <= n - 1,
                forall|j: int| 0 <= j < i ==> self.bytes@[j] == 0,
            decreases n - 1 - i,
        {
            if self.bytes[i] != 0 {
                proof {
                    lemma_be_value_one(self.bytes@);
                    lemma_be_value_zero(self.bytes@.drop_last());
                }
                assert(self.bytes@.drop_last()[i as int] != 0);
                return false;
            }
            i += 1;
        }
        assert forall|j: int| 0 <= j < self.bytes@.drop_last().len() implies self.bytes@.drop_last()[j] == 0 by {
            assert(self.bytes@.drop_last()[j] == self.bytes@[j]);
        }
        true
    }

    /// A copy of the element.
    pub fn duplicate(&self) -> (r: Self)
        ensures
            r.value() == self.value(),
    {
        proof {
            use_type_invariant(self);
        }
        FieldValue { bytes: self.bytes.clone() }
    }
}

} // verus!
