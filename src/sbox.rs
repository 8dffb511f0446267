//! The three S-boxes.
use crate::field::{finv, fmul, modulus, Fe};
use vstd::arithmetic::div_mod::{lemma_mul_mod_noop_left, lemma_mul_mod_noop_right};
use vstd::prelude::*;

verus! {

#[derive(Clone, Copy, Debug, PartialEq, Eq, Structural)]
pub enum SboxType {
    Cube,
    Inverse,
    Quint,
}

/// The S-box on a value, as the steps of its evaluation.
pub open spec fn sbox_spec(s: SboxType, y: int) -> int {
    match s {
        SboxType::Cube => fmul(fmul(y, y), y),
        SboxType::Inverse => finv(y),
        SboxType::Quint => fmul(fmul(fmul(y, y), fmul(y, y)), y),
    }
}

impl SboxType {
    /// Apply the S-box on the given element.
    pub fn apply_sbox(&self, elem: &Fe) -> (r: Fe)
        requires
            elem.wf(),
        ensures
            r.wf(),
            r@ == sbox_spec(*self, elem@),
            *self == SboxType::Inverse && elem@ != 0 ==> (r@ * elem@) % modulus() == 1,
    {
        match self {
            SboxType::Cube => {
                let sqr = elem.square();
                sqr.mul(elem)
            },
            SboxType::Inverse => elem.inverse(),
            SboxType::Quint => {
                let sq = elem.square();
                let f = sq.square();
                f.mul(elem)
            },
        }
    }
}

/// The cube S-box is the third power, and the quint S-box the fifth power,
/// modulo the order of the field.
pub proof fn lemma_sbox_powers(y: int)
    ensures
        sbox_spec(SboxType::Cube, y) == (y * y * y) % modulus(),
        sbox_spec(SboxType::Quint, y) == (y * y * y * y * y) % modulus(),
{
    let m = modulus();
    lemma_mul_mod_noop_left(y * y, y, m);
    let s = (y * y) % m;
    lemma_mul_mod_noop_left(y * y, s, m);
    lemma_mul_mod_noop_right(y * y, y * y, m);
    assert((y * y) * (y * y) == y * y * y * y) by (nonlinear_arith);
    lemma_mul_mod_noop_left(y * y * y * y, y, m);
}

} // verus!
