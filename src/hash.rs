//! Fixed-arity hashes: the permutation with a capacity constant in slot 0,
//! the inputs after it, and slot 1 of the output as the digest.
use crate::field::Fe;
use crate::params::{all_wf, fe_vals, PoseidonParams};
use crate::permutation::{permutation_spec, Poseidon_permutation};
use crate::sbox::SboxType;
use vstd::prelude::*;

verus! {

/// Capacity constant for width 3: the low two bits set.
pub const CAP_CONST_W_3: u64 = 3;

/// Capacity constant for width 5: the low four bits set.
pub const CAP_CONST_W_5: u64 = 31;

/// Capacity constant for width 9: the low eight bits set.
pub const CAP_CONST_W_9: u64 = 511;

#[derive(Clone, Copy, Debug, PartialEq, Eq, Structural)]
pub enum PoseidonError {
    /// A hash of arity `width` was given `expected` inputs.
    IncorrectWidthForPoseidon { width: usize, expected: usize },
    /// The width is none of 3, 5 and 9.
    UnsupportedWidth { width: usize },
    /// The schedule needs `needed` round constants and only `found` were given.
    NotEnoughRoundConstants { needed: usize, found: usize },
    /// The MDS table is not a square of side `width`.
    IncorrectMdsShape { width: usize },
    /// A table entry is not `0x` followed by at most 96 hexadecimal digits.
    MalformedConstant,
}

/// The digest of `inputs` with capacity constant `cap`.
pub open spec fn hash_spec(p: PoseidonParams, s: SboxType, cap: int, inputs: Seq<int>) -> int {
    permutation_spec(p, s, seq![cap] + inputs)[1]
}

/// The contract shared by the three hashes.
pub open spec fn hash_result(
    p: PoseidonParams,
    s: SboxType,
    arity: usize,
    cap: u64,
    inputs: Seq<Fe>,
    r: Result<Fe, PoseidonError>,
) -> bool {
    &&& (inputs.len() != arity <==> r is Err)
    &&& r is Err ==> r->Err_0 == (PoseidonError::IncorrectWidthForPoseidon {
        width: arity,
        expected: inputs.len() as usize,
    })
    &&& r is Ok ==> r->Ok_0.wf() && r->Ok_0@ == hash_spec(p, s, cap as int, fe_vals(inputs))
}

fn hash_with_capacity(
    inputs: Vec<Fe>,
    arity: usize,
    cap: u64,
    params: &PoseidonParams,
    sbox: &SboxType,
) -> (r: Result<Fe, PoseidonError>)
    requires
        params.wf(),
        params.width == arity + 1,
        cap <= CAP_CONST_W_9,
        all_wf(inputs@),
    ensures
        hash_result(*params, *sbox, arity, cap, inputs@, r),
{
    if inputs.len() != arity {
        return Err(PoseidonError::IncorrectWidthForPoseidon { width: arity, expected: inputs.len() });
    }
    let mut input: Vec<Fe> = Vec::new();
    input.push(Fe::from_u64(cap));
    let mut i: usize = 0;
    while i < arity
        invariant
            inputs@.len() == arity,
            all_wf(inputs@),
            i <= arity,
            input@.len() == i + 1,
            all_wf(input@),
            input@[0]@ == cap as int,
            forall|k: int| 0 <= k < i ==> (#[trigger] input@[k + 1])@ == inputs@[k]@,
        decreases arity - i,
    {
        input.push(inputs[i].duplicate());
        i += 1;
    }
    assert(fe_vals(input@) =~= seq![cap as int] + fe_vals(inputs@)) by {
        assert forall|k: int| 1 <= k < input@.len() implies (#[trigger] input@[k])@ == inputs@[k
            - 1]@ by {
            assert(input@[(k - 1) + 1] == input@[k]);
        }
    }
    let out = Poseidon_permutation(input.as_slice(), params, sbox);
    Ok(out[1].duplicate())
}

/// Hashes 2 inputs to one element, at width 3.
#[allow(non_snake_case)]
pub fn Poseidon_hash_2(inputs: Vec<Fe>, params: &PoseidonParams, sbox: &SboxType) -> (r: Result<
    Fe,
    PoseidonError,
>)
    requires
        params.wf(),
        params.width == 3,
        all_wf(inputs@),
    ensures
        hash_result(*params, *sbox, 2, CAP_CONST_W_3, inputs@, r),
{
    hash_with_capacity(inputs, 2, CAP_CONST_W_3, params, sbox)
}

/// Hashes 4 inputs to one element, at width 5.
#[allow(non_snake_case)]
pub fn Poseidon_hash_4(inputs: Vec<Fe>, params: &PoseidonParams, sbox: &SboxType) -> (r: Result<
    Fe,
    PoseidonError,
>)
    requires
        params.wf(),
        params.width == 5,
        all_wf(inputs@),
    ensures
        hash_result(*params, *sbox, 4, CAP_CONST_W_5, inputs@, r),
{
    hash_with_capacity(inputs, 4, CAP_CONST_W_5, params, sbox)
}

/// Hashes 8 inputs to one element, at width 9.
#[allow(non_snake_case)]
pub fn Poseidon_hash_8(inputs: Vec<Fe>, params: &PoseidonParams, sbox: &SboxType) -> (r: Result<
    Fe,
    PoseidonError,
>)
    requires
        params.wf(),
        params.width == 9,
        all_wf(inputs@),
    ensures
        hash_result(*params, *sbox, 8, CAP_CONST_W_9, inputs@, r),
{
    hash_with_capacity(inputs, 8, CAP_CONST_W_9, params, sbox)
}

} // verus!
