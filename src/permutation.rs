//! The native Poseidon permutation.
use crate::field::{fadd, fmul, Fe};
use crate::params::{all_wf, fe_vals, PoseidonParams};
use crate::sbox::{sbox_spec, SboxType};
use vstd::prelude::*;

verus! {

/// Adds to each slot its round key, taken from `keys` at `offset`.
pub open spec fn add_round_keys(state: Seq<int>, keys: Seq<int>, offset: int) -> Seq<int> {
    Seq::new(state.len(), |i: int| fadd(state[i], keys[offset + i]))
}

/// The S-box on every slot in a full round, on the last slot alone in a
/// partial round.
pub open spec fn sbox_layer(s: SboxType, state: Seq<int>, full: bool) -> Seq<int> {
    Seq::new(
        state.len(),
        |i: int|
            if full || i == state.len() - 1 {
                sbox_spec(s, state[i])
            } else {
                state[i]
            },
    )
}

/// The sum over `j < n` of `state[j] * m[j][i]`.
pub open spec fn column_dot(state: Seq<int>, m: Seq<Seq<int>>, i: int, n: nat) -> int
    decreases n,
{
    if n == 0 {
        0
    } else {
        fadd(column_dot(state, m, i, (n - 1) as nat), fmul(state[n - 1], m[n - 1][i]))
    }
}

/// Output `i` is the inner product of the state with column `i` of `m`.
pub open spec fn linear_layer(state: Seq<int>, m: Seq<Seq<int>>) -> Seq<int> {
    Seq::new(state.len(), |i: int| column_dot(state, m, i, state.len()))
}

/// Round `r` of the permutation, which takes the keys at `r * width`.
pub open spec fn round_spec(p: PoseidonParams, s: SboxType, state: Seq<int>, r: int) -> Seq<int> {
    linear_layer(
        sbox_layer(s, add_round_keys(state, p.keys(), r * p.width), p.is_full_round(r)),
        p.mds(),
    )
}

/// The state after the first `n` rounds.
pub open spec fn rounds_spec(p: PoseidonParams, s: SboxType, input: Seq<int>, n: nat) -> Seq<int>
    decreases n,
{
    if n == 0 {
        input
    } else {
        round_spec(p, s, rounds_spec(p, s, input, (n - 1) as nat), n - 1)
    }
}

/// The permutation: every round of the schedule, in order.
pub open spec fn permutation_spec(p: PoseidonParams, s: SboxType, input: Seq<int>) -> Seq<int> {
    rounds_spec(p, s, input, p.total_rounds() as nat)
}

/// Round `r` reads the `width` round keys from `r * width` on; the blocks of
/// successive rounds follow one another, and the last one ends exactly at the
/// end of the round keys, so a permutation consumes all of them.
pub proof fn lemma_round_keys_consumed(p: PoseidonParams, r: int)
    requires
        p.wf(),
        0 <= r < p.total_rounds(),
    ensures
        0 <= r * p.width,
        r * p.width + p.width <= p.keys().len(),
        (r + 1) * p.width == r * p.width + p.width,
        p.total_rounds() * p.width == p.keys().len(),
{
    let w = p.width as int;
    let t = p.total_rounds();
    assert((r + 1) * w == r * w + w) by (nonlinear_arith);
    assert((r + 1) * w <= t * w && 0 <= r * w) by (nonlinear_arith)
        requires
            0 <= r,
            r + 1 <= t,
            w >= 0,
    ;
}

/// One round on `state`, with the round keys that start at `offset`.
fn apply_round(
    state: &Vec<Fe>,
    params: &PoseidonParams,
    sbox: &SboxType,
    offset: usize,
    full: bool,
) -> (r: Vec<Fe>)
    requires
        params.wf(),
        state@.len() == params.width,
        all_wf(state@),
        offset + params.width <= params.round_keys@.len(),
    ensures
        r@.len() == params.width,
        all_wf(r@),
        fe_vals(r@) == linear_layer(
            sbox_layer(*sbox, add_round_keys(fe_vals(state@), params.keys(), offset as int), full),
            params.mds(),
        ),
{
    let width = params.width;
    let ghost added = add_round_keys(fe_vals(state@), params.keys(), offset as int);
    let ghost mixed = sbox_layer(*sbox, added, full);
    let klen = params.round_keys.len();
    let mut sbox_outs: Vec<Fe> = Vec::new();
    let mut i: usize = 0;
    while i < width
        invariant
            params.wf(),
            width == params.width,
            state@.len() == width,
            all_wf(state@),
            offset + width <= params.round_keys@.len(),
            klen == params.round_keys@.len(),
            i <= width,
            added == add_round_keys(fe_vals(state@), params.keys(), offset as int),
            mixed == sbox_layer(*sbox, added, full),
            sbox_outs@.len() == i,
            all_wf(sbox_outs@),
            forall|k: int| 0 <= k < i ==> (#[trigger] sbox_outs@[k])@ == mixed[k],
        decreases width - i,
    {
        let y = state[i].add(&params.round_keys[offset + i]);
        if full || i == width - 1 {
            sbox_outs.push(sbox.apply_sbox(&y));
        } else {
            sbox_outs.push(y);
        }
        i += 1;
    }
    assert(fe_vals(sbox_outs@) =~= mixed);
    let mut next: Vec<Fe> = Vec::new();
    let mut i: usize = 0;
    while i < width
        invariant
            params.wf(),
            width == params.width,
            i <= width,
            sbox_outs@.len() == width,
            all_wf(sbox_outs@),
            fe_vals(sbox_outs@) == mixed,
            next@.len() == i,
            all_wf(next@),
            forall|k: int|
                0 <= k < i ==> (#[trigger] next@[k])@ == column_dot(
                    mixed,
                    params.mds(),
                    k,
                    width as nat,
                ),
        decreases width - i,
    {
        let mut acc = Fe::zero();
        let mut j: usize = 0;
        while j < width
            invariant
                params.wf(),
                width == params.width,
                i < width,
                j <= width,
                sbox_outs@.len() == width,
                all_wf(sbox_outs@),
                fe_vals(sbox_outs@) == mixed,
                acc.wf(),
                acc@ == column_dot(mixed, params.mds(), i as int, j as nat),
            decreases width - j,
        {
            assert(params.MDS_matrix@[j as int]@.len() == width);
            let t = sbox_outs[j].mul(&params.MDS_matrix[j][i]);
            acc = acc.add(&t);
            j += 1;
        }
        next.push(acc);
        i += 1;
    }
    assert(fe_vals(next@) =~= linear_layer(mixed, params.mds()));
    next
}

/// Computes the permutation of `input` under the given parameters and S-box.
#[allow(non_snake_case)]
pub fn Poseidon_permutation(input: &[Fe], params: &PoseidonParams, sbox: &SboxType) -> (r: Vec<
    Fe,
>)
    requires
        params.wf(),
        input@.len() == params.width,
        all_wf(input@),
    ensures
        r@.len() == params.width,
        all_wf(r@),
        fe_vals(r@) == permutation_spec(*params, *sbox, fe_vals(input@)),
{
    let width = params.width;
    let mut state: Vec<Fe> = Vec::new();
    let mut i: usize = 0;
    while i < width
        invariant
            width == input@.len(),
            all_wf(input@),
            i <= width,
            state@.len() == i,
            all_wf(state@),
            forall|k: int| 0 <= k < i ==> (#[trigger] state@[k])@ == input@[k]@,
        decreases width - i,
    {
        state.push(input[i].duplicate());
        i += 1;
    }
    assert(fe_vals(state@) =~= fe_vals(input@));
    let beg = params.full_rounds_beginning;
    let partial = params.partial_rounds;
    let total_keys = params.round_keys.len();
    proof {
        let t = params.total_rounds();
        assert(t * width >= t) by (nonlinear_arith)
            requires
                width >= 3,
                t >= 0,
        ;
    }
    let total = beg + partial + params.full_rounds_end;
    let mut offset: usize = 0;
    let mut r: usize = 0;
    while r < total
        invariant
            params.wf(),
            width == params.width,
            total == params.total_rounds(),
            beg == params.full_rounds_beginning,
            partial == params.partial_rounds,
            total_keys == params.round_keys@.len(),
            r <= total,
            offset == r * width,
            state@.len() == width,
            all_wf(state@),
            fe_vals(state@) == rounds_spec(*params, *sbox, fe_vals(input@), r as nat),
        decreases total - r,
    {
        proof {
            assert((r + 1) * width <= total * width) by (nonlinear_arith)
                requires
                    r + 1 <= total,
                    width >= 0,
            ;
            assert((r + 1) * width == r * width + width) by (nonlinear_arith);
        }
        let full = r < beg || r >= beg + partial;
        state = apply_round(&state, params, sbox, offset, full);
        offset = offset + width;
        r += 1;
    }
    state
}

} // verus!
