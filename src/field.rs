//! Elements of the scalar field of BLS12-381, held as canonical big-endian
//! bytes, with the arithmetic done by `amcl_wrapper`.
use amcl_wrapper::field_elem::FieldElement;
use vstd::arithmetic::div_mod::{
    lemma_add_mod_noop, lemma_mod_twice, lemma_mul_mod_noop_left, lemma_mul_mod_noop_right,
    lemma_small_mod,
};
use vstd::prelude::*;

verus! {

/// The number of bytes of a serialised field element.
pub const FE_BYTES: usize = 48;

/// The order of the field: the order of the BLS12-381 group.
pub open spec fn modulus() -> int {
    let w: int = 0x1_0000_0000_0000_0000;
    ((0x73ed_a753_299d_7d48 * w + 0x3339_d808_09a1_d805) * w + 0x53bd_a402_fffe_5bfe) * w
        + 0xffff_ffff_0000_0001
}

pub open spec fn fadd(a: int, b: int) -> int {
    (a + b) % modulus()
}

pub open spec fn fmul(a: int, b: int) -> int {
    (a * b) % modulus()
}

pub open spec fn is_inverse(r: int, a: int) -> bool {
    0 <= r < modulus() && (r * a) % modulus() == 1
}

/// `a` has a multiplicative inverse; over the prime order, exactly when it
/// is not zero.
pub open spec fn invertible(a: int) -> bool {
    exists|r: int| #[trigger] is_inverse(r, a)
}

/// The multiplicative inverse, with zero sent to zero.
pub open spec fn finv(a: int) -> int {
    if a % modulus() == 0 {
        0
    } else {
        choose|r: int| #[trigger] is_inverse(r, a)
    }
}

/// The value of a big-endian byte string.
pub open spec fn be_val(s: Seq<u8>) -> int
    decreases s.len(),
{
    if s.len() == 0 {
        0
    } else {
        be_val(s.drop_last()) * 256 + s.last() as int
    }
}

pub open spec fn is_hex_digit(c: u8) -> bool {
    (0x30 <= c <= 0x39) || (0x41 <= c <= 0x46) || (0x61 <= c <= 0x66)
}

pub open spec fn hex_digit_val(c: u8) -> int {
    if 0x30 <= c <= 0x39 {
        c - 0x30
    } else if 0x41 <= c <= 0x46 {
        c - 0x41 + 10
    } else {
        c - 0x61 + 10
    }
}

/// The value of a string of hexadecimal digits, most significant first.
pub open spec fn hex_val(s: Seq<u8>) -> int
    decreases s.len(),
{
    if s.len() == 0 {
        0
    } else {
        hex_val(s.drop_last()) * 16 + hex_digit_val(s.last())
    }
}

proof fn lemma_be_val_zeros(s: Seq<u8>)
    requires
        forall|k: int| 0 <= k < s.len() ==> #[trigger] s[k] == 0,
    ensures
        be_val(s) == 0,
    decreases s.len(),
{
    if s.len() > 0 {
        lemma_be_val_zeros(s.drop_last());
    }
}

proof fn lemma_be_val_nonneg(s: Seq<u8>)
    ensures
        be_val(s) >= 0,
    decreases s.len(),
{
    if s.len() > 0 {
        lemma_be_val_nonneg(s.drop_last());
    }
}

/// Addition modulo the order is associative on reduced values.
pub proof fn lemma_fadd_assoc(a: int, b: int, c: int)
    requires
        0 <= a < modulus(),
        0 <= b < modulus(),
        0 <= c < modulus(),
    ensures
        fadd(fadd(a, b), c) == fadd(a, fadd(b, c)),
{
    let m = modulus();
    lemma_add_mod_noop(a + b, c, m);
    lemma_add_mod_noop(a, b + c, m);
    lemma_small_mod(a as nat, m as nat);
    lemma_small_mod(c as nat, m as nat);
    lemma_mod_twice(a + b, m);
    lemma_mod_twice(b + c, m);
    assert(a + b + c == a + (b + c));
}

/// A reduced value whose product with `y` is one is the inverse of `y`.
pub proof fn lemma_inverse_unique(y: int, r: int)
    requires
        0 <= r < modulus(),
        (r * y) % modulus() == 1,
    ensures
        r == finv(y),
{
    let m = modulus();
    if y % m == 0 {
        lemma_mul_mod_noop_right(r, y, m);
        assert(r * 0 == 0);
    }
    assert(is_inverse(r, y));
    let s = choose|s: int| #[trigger] is_inverse(s, y);
    assert(is_inverse(s, y));
    lemma_mul_mod_noop_right(s, r * y, m);
    lemma_mul_mod_noop_left(s * y, r, m);
    assert(s * (r * y) == (s * y) * r) by (nonlinear_arith);
    lemma_small_mod(s as nat, m as nat);
    lemma_small_mod(r as nat, m as nat);
    assert(s * 1 == s);
    assert(1 * r == r);
}

/// An invertible value's `finv` is an inverse of it.
pub proof fn lemma_finv_inverse(y: int)
    requires
        invertible(y),
    ensures
        is_inverse(finv(y), y),
{
    let m = modulus();
    let r = choose|r: int| #[trigger] is_inverse(r, y);
    if y % m == 0 {
        lemma_mul_mod_noop_right(r, y, m);
        assert(r * 0 == 0);
    }
}

/// A field element, kept as the big-endian bytes of its reduced value.
#[derive(Clone, Debug, PartialEq, Eq)]
pub struct Fe {
    bytes: Vec<u8>,
}

impl Fe {
    /// The element's value, an integer in `[0, modulus())`.
    pub closed spec fn view(&self) -> int {
        be_val(self.bytes@)
    }

    pub closed spec fn wf(&self) -> bool {
        self.bytes@.len() == FE_BYTES && be_val(self.bytes@) < modulus()
    }

    /// The element zero: all bytes zero.
    pub fn zero() -> (r: Fe)
        ensures
            r.wf(),
            r@ == 0,
    {
        let mut bytes: Vec<u8> = Vec::new();
        let mut i: usize = 0;
        while i < FE_BYTES
            invariant
                i <= FE_BYTES,
                bytes@.len() == i,
                forall|k: int| 0 <= k < i ==> #[trigger] bytes@[k] == 0,
            decreases FE_BYTES - i,
        {
            bytes.push(0);
            i += 1;
        }
        proof {
            lemma_be_val_zeros(bytes@);
        }
        Fe { bytes }
    }

    /// Relies on `FieldElement::from(u64)`, which takes the integer as it is.
    /// It stores the integer as an `isize`, hence the bound.
    #[verifier::external_body]
    pub fn from_u64(x: u64) -> (r: Fe)
        requires
            x <= isize::MAX,
        ensures
            r.wf(),
            r@ == x as int,
    {
        Fe { bytes: FieldElement::from(x).to_bytes() }
    }

    /// The value of a well-formed element is reduced.
    pub proof fn lemma_range(&self)
        requires
            self.wf(),
        ensures
            0 <= self@ < modulus(),
    {
        lemma_be_val_nonneg(self.bytes@);
    }

    /// A second element of the same value.
    pub fn duplicate(&self) -> (r: Fe)
        requires
            self.wf(),
        ensures
            r.wf(),
            r@ == self@,
    {
        Fe { bytes: self.bytes.clone() }
    }

    /// The canonical big-endian bytes of the element.
    pub fn to_bytes(&self) -> (r: Vec<u8>)
        requires
            self.wf(),
        ensures
            r@.len() == FE_BYTES,
            be_val(r@) == self@,
    {
        self.bytes.clone()
    }

    /// Relies on `FieldElement::from_hex`: digits read as a big-endian
    /// number of at most `2 * FE_BYTES` digits, reduced modulo the order.
    #[verifier::external_body]
    pub(crate) fn from_hex_digits(digits: &[u8]) -> (r: Fe)
        requires
            digits@.len() <= 2 * FE_BYTES,
            forall|i: int| 0 <= i < digits@.len() ==> is_hex_digit(#[trigger] digits@[i]),
        ensures
            r.wf(),
            r@ == hex_val(digits@) % modulus(),
    {
        let s = String::from_utf8(digits.to_vec()).unwrap();
        Fe { bytes: FieldElement::from_hex(s).unwrap().to_bytes() }
    }

    /// Relies on `FieldElement::plus`: the sum modulo the order.
    #[verifier::external_body]
    pub fn add(&self, b: &Fe) -> (r: Fe)
        requires
            self.wf(),
            b.wf(),
        ensures
            r.wf(),
            r@ == fadd(self@, b@),
    {
        let x = FieldElement::from_bytes(&self.bytes).unwrap();
        let y = FieldElement::from_bytes(&b.bytes).unwrap();
        Fe { bytes: x.plus(&y).to_bytes() }
    }

    /// Relies on `FieldElement::multiply`: the product modulo the order.
    #[verifier::external_body]
    pub fn mul(&self, b: &Fe) -> (r: Fe)
        requires
            self.wf(),
            b.wf(),
        ensures
            r.wf(),
            r@ == fmul(self@, b@),
    {
        let x = FieldElement::from_bytes(&self.bytes).unwrap();
        let y = FieldElement::from_bytes(&b.bytes).unwrap();
        Fe { bytes: x.multiply(&y).to_bytes() }
    }

    /// Relies on `FieldElement::square`: the square modulo the order.
    #[verifier::external_body]
    pub fn square(&self) -> (r: Fe)
        requires
            self.wf(),
        ensures
            r.wf(),
            r@ == fmul(self@, self@),
    {
        let x = FieldElement::from_bytes(&self.bytes).unwrap();
        Fe { bytes: x.square().to_bytes() }
    }

    /// Relies on `FieldElement::inverse`: the inverse modulo the (prime)
    /// order, and zero for zero.
    #[verifier::external_body]
    pub fn inverse(&self) -> (r: Fe)
        requires
            self.wf(),
        ensures
            r.wf(),
            r@ == finv(self@),
            self@ != 0 ==> (r@ * self@) % modulus() == 1,
    {
        let x = FieldElement::from_bytes(&self.bytes).unwrap();
        Fe { bytes: x.inverse().to_bytes() }
    }
}

} // verus!
