//! The permutation as constraints: the same rounds over linear combinations,
//! with each S-box emitted as gates.
use crate::circuit::{
    agree, completable, gate_count, extends, lc_below, lemma_agree_trans, lemma_completable_refl, lemma_completable_step,
    lemma_lc_agree, lemma_lc_below_grow, lemma_satisfied_agree, lc_value, lc_values, lemma_extends_trans, lemma_satisfied_extends,
    lemma_terms_value_range, satisfied, term_vals, terms_value, Circuit, Constraint, LinComb,
};
use crate::field::{
    fadd, finv, fmul, invertible, lemma_finv_inverse, lemma_inverse_unique, modulus, Fe,
};
use crate::params::PoseidonParams;
use crate::permutation::{
    add_round_keys, column_dot, linear_layer, permutation_spec, rounds_spec, sbox_layer,
};
use crate::hash::{hash_spec, PoseidonError};
use crate::sbox::{sbox_spec, SboxType};
use vstd::arithmetic::div_mod::lemma_small_mod;
use vstd::prelude::*;

verus! {

impl SboxType {
    /// Emits the constraints of the S-box on `input + key` and returns the
    /// variable that holds its output.
    pub fn synthesize_sbox(&self, cs: &mut Circuit, input: &LinComb, key: &Fe) -> (out: usize)
        requires
            input.wf(),
            key.wf(),
            old(cs).wf(),
            lc_below(*input, old(cs).n_vars as int),
            old(cs).n_vars + 9 <= usize::MAX,
        ensures
            final(cs).wf(),
            extends(*old(cs), *final(cs)),
            final(cs).n_vars == old(cs).n_vars + sbox_vars(*self),
            final(cs).constraints@.len() == old(cs).constraints@.len() + sbox_constraints(*self),
            gate_count(final(cs).constraints@) == gate_count(old(cs).constraints@) + sbox_gates(
                *self,
            ),
            out < final(cs).n_vars,
            forall|x: Seq<int>| #[trigger]
                satisfied(*final(cs), x) ==> x[out as int] == sbox_spec(
                    *self,
                    fadd(lc_value(*input, x), key@),
                ),
            *self == SboxType::Inverse ==> forall|x: Seq<int>| #[trigger]
                satisfied(*final(cs), x) ==> fmul(x[out as int], fadd(lc_value(*input, x), key@))
                    == 1,
            forall|x: Seq<int>| #[trigger]
                satisfied(*old(cs), x) ==> (*self == SboxType::Inverse ==> invertible(
                    fadd(lc_value(*input, x), key@),
                )) ==> completable(*old(cs), *final(cs), x),
    {
        let y = input.plus_const(key);
        let ghost gy = y;
        let ghost c0 = *cs;
        match self {
            SboxType::Cube => {
                let y2 = y.duplicate();
                let (l, _r, sq) = cs.multiply(y, y2);
                let ghost c1 = *cs;
                let vs = LinComb::var(sq);
                let vl = LinComb::var(l);
                proof {
                    lemma_lc_below_grow(vs, sq + 1, cs.n_vars as int);
                    lemma_lc_below_grow(vl, l + 1, cs.n_vars as int);
                }
                let (_a, _b, cube) = cs.multiply(vs, vl);
                proof {
                    lemma_extends_trans(c0, c1, *cs);
                    assert forall|x: Seq<int>| #[trigger] satisfied(*cs, x) implies x[cube as int]
                        == sbox_spec(*self, fadd(lc_value(*input, x), key@)) by {
                        lemma_satisfied_extends(c1, *cs, x);
                    }
                    assert forall|x: Seq<int>| #[trigger] satisfied(c0, x) implies completable(
                        c0,
                        *cs,
                        x,
                    ) by {
                        let y1 = choose|y1: Seq<int>|
                            y1.len() == c1.n_vars && agree(x, y1, c0.n_vars as int)
                                && #[trigger] satisfied(c1, y1);
                        lemma_completable_step(c0, c1, *cs, x, y1);
                    }
                }
                cube
            },
            SboxType::Quint => {
                let y2 = y.duplicate();
                let (l, _r, sq) = cs.multiply(y, y2);
                let ghost c1 = *cs;
                let vs = LinComb::var(sq);
                let vs2 = LinComb::var(sq);
                proof {
                    lemma_lc_below_grow(vs, sq + 1, cs.n_vars as int);
                    lemma_lc_below_grow(vs2, sq + 1, cs.n_vars as int);
                }
                let (_a, _b, q) = cs.multiply(vs, vs2);
                let ghost c2 = *cs;
                let vq = LinComb::var(q);
                let vl = LinComb::var(l);
                proof {
                    lemma_lc_below_grow(vq, q + 1, cs.n_vars as int);
                    lemma_lc_below_grow(vl, l + 1, cs.n_vars as int);
                }
                let (_c, _d, qi) = cs.multiply(vq, vl);
                proof {
                    lemma_extends_trans(c0, c1, c2);
                    lemma_extends_trans(c0, c2, *cs);
                    lemma_extends_trans(c1, c2, *cs);
                    assert forall|x: Seq<int>| #[trigger] satisfied(*cs, x) implies x[qi as int]
                        == sbox_spec(*self, fadd(lc_value(*input, x), key@)) by {
                        lemma_satisfied_extends(c2, *cs, x);
                        lemma_satisfied_extends(c1, *cs, x);
                    }
                    assert forall|x: Seq<int>| #[trigger] satisfied(c0, x) implies completable(
                        c0,
                        *cs,
                        x,
                    ) by {
                        let y1 = choose|y1: Seq<int>|
                            y1.len() == c1.n_vars && agree(x, y1, c0.n_vars as int)
                                && #[trigger] satisfied(c1, y1);
                        let y2 = choose|y2: Seq<int>|
                            y2.len() == c2.n_vars && agree(y1, y2, c1.n_vars as int)
                                && #[trigger] satisfied(c2, y2);
                        lemma_agree_trans(x, y1, y2, c0.n_vars as int, c1.n_vars as int);
                        lemma_completable_step(c0, c2, *cs, x, y2);
                    }
                }
                qi
            },
            SboxType::Inverse => {
                // One gate `l * r = o` with `l` bound to `y`, `r` the witnessed
                // inverse, `o` pinned to one, and `l` asserted non-zero.
                let l = cs.new_var();
                let r = cs.new_var();
                let o = cs.new_var();
                let rv = LinComb::var(r);
                let ov = LinComb::var(o);
                let ghost grv = rv;
                let ghost gov = ov;
                proof {
                    lemma_lc_below_grow(y, c0.n_vars as int, cs.n_vars as int);
                    lemma_lc_below_grow(rv, r + 1, cs.n_vars as int);
                    lemma_lc_below_grow(ov, o + 1, cs.n_vars as int);
                }
                cs.add(Constraint::Mul { left: y, right: rv, l, r, o });
                cs.add(Constraint::NonZero { var: l, inv: r });
                let one = Fe::from_u64(1);
                let ghost gone = one;
                cs.add(Constraint::EqualsConst { lc: ov, value: one });
                proof {
                    let n = c0.constraints@.len() as int;
                    assert(c0.constraints@ =~= cs.constraints@.subrange(0, n));
                    assert forall|x: Seq<int>| #[trigger] satisfied(*cs, x) implies x[r as int]
                        == sbox_spec(*self, fadd(lc_value(*input, x), key@)) && fmul(
                        x[r as int],
                        fadd(lc_value(*input, x), key@),
                    ) == 1 by {
                        assert(crate::circuit::holds(cs.constraints@[n], x));
                        assert(crate::circuit::holds(cs.constraints@[n + 2], x));
                        let yv = lc_value(gy, x);
                        let rr = x[r as int];
                        assert(x[o as int] == 1);
                        assert(fmul(yv, rr) == 1);
                        assert(rr * yv == yv * rr) by (nonlinear_arith);
                        lemma_inverse_unique(yv, rr);
                    }
                    assert forall|x: Seq<int>| #[trigger] satisfied(c0, x) implies (invertible(
                        fadd(lc_value(*input, x), key@),
                    ) ==> completable(c0, *cs, x)) by {
                        let yv = fadd(lc_value(*input, x), key@);
                        if invertible(yv) {
                            let m = c0.n_vars as int;
                            lemma_finv_inverse(yv);
                            let rr = finv(yv);
                            let w = x.subrange(0, m).push(yv).push(rr).push(1);
                            lemma_satisfied_agree(c0, x, w);
                            lemma_lc_agree(gy, x, w, m);
                            lemma_terms_value_range(term_vals(gy.terms@), x);
                            assert(rr * yv == yv * rr) by (nonlinear_arith);
                            assert(fmul(yv, rr) == 1);
                            assert(lc_value(grv, w) == rr);
                            assert(lc_value(gov, w) == 1);
                            assert(gone@ == 1);
                            assert(crate::circuit::holds(cs.constraints@[n], w));
                            assert(crate::circuit::holds(cs.constraints@[n + 1], w));
                            assert(crate::circuit::holds(cs.constraints@[n + 2], w));
                            assert forall|i: int| 0 <= i < cs.constraints@.len() implies crate::circuit::holds(
                                #[trigger] cs.constraints@[i],
                                w,
                            ) by {
                                if i < n {
                                    assert(cs.constraints@[i] == c0.constraints@[i]);
                                }
                            }
                            assert(satisfied(*cs, w));
                        }
                    }
                }
                r
            },
        }
    }
}

/// The constraints that one S-box adds: its gates, and for the inverse also
/// the non-zero check and the product pinned to one.
pub open spec fn sbox_constraints(s: SboxType) -> nat {
    match s {
        SboxType::Cube => 2,
        SboxType::Quint => 3,
        SboxType::Inverse => 3,
    }
}

/// The variables that one S-box introduces.
pub open spec fn sbox_vars(s: SboxType) -> nat {
    match s {
        SboxType::Cube => 6,
        SboxType::Quint => 9,
        SboxType::Inverse => 3,
    }
}

/// The gates that one S-box costs.
pub open spec fn sbox_gates(s: SboxType) -> nat {
    match s {
        SboxType::Cube => 2,
        SboxType::Quint => 3,
        SboxType::Inverse => 1,
    }
}

/// The gates that the whole permutation costs: one S-box per slot in each
/// full round, and one in each partial round.
pub open spec fn permutation_gates(p: PoseidonParams, s: SboxType) -> nat {
    (((p.full_rounds_beginning + p.full_rounds_end) * p.width + p.partial_rounds) * sbox_gates(
        s,
    )) as nat
}

/// The gates that the first `r` rounds cost.
pub open spec fn rounds_gates(p: PoseidonParams, s: SboxType, r: nat) -> nat
    decreases r,
{
    if r == 0 {
        0
    } else {
        rounds_gates(p, s, (r - 1) as nat) + (if p.is_full_round(r - 1) {
            p.width as nat
        } else {
            1nat
        }) * sbox_gates(s)
    }
}

proof fn lemma_rounds_gates(p: PoseidonParams, s: SboxType, r: nat)
    requires
        r <= p.total_rounds(),
    ensures
        ({
            let b = p.full_rounds_beginning as int;
            let q = p.partial_rounds as int;
            let w = p.width as int;
            let g = sbox_gates(s) as int;
            rounds_gates(p, s, r) == if r <= b {
                r * w * g
            } else if r <= b + q {
                b * w * g + (r - b) * g
            } else {
                b * w * g + q * g + (r - b - q) * w * g
            }
        }),
    decreases r,
{
    let b = p.full_rounds_beginning as int;
    let q = p.partial_rounds as int;
    let w = p.width as int;
    let g = sbox_gates(s) as int;
    if r > 0 {
        lemma_rounds_gates(p, s, (r - 1) as nat);
        let r1 = r - 1;
        assert(r * w * g == r1 * w * g + w * g) by (nonlinear_arith)
            requires
                r1 == r - 1,
        ;
        assert((r - b) * g == (r1 - b) * g + g) by (nonlinear_arith)
            requires
                r1 == r - 1,
        ;
        assert((r - b - q) * w * g == (r1 - b - q) * w * g + w * g) by (nonlinear_arith)
            requires
                r1 == r - 1,
        ;
        if r1 == b {
            assert(b * w * g == r1 * w * g);
        }
        if r1 == b + q {
            assert((r1 - b) * g == q * g);
            assert((r1 - b - q) * w * g == 0) by (nonlinear_arith)
                requires
                    r1 - b - q == 0,
            ;
        }
        assert(0 * w * g == 0 && 0 * g == 0) by (nonlinear_arith);
        assert(w * g == (w as nat) * (g as nat));
        assert(1 * g == g);
    }
}

/// Every inverse S-box of a round has an invertible argument, when the state
/// entering the round is `state` and its keys start at `offset`.
pub open spec fn round_args_ok(
    s: SboxType,
    state: Seq<int>,
    keys: Seq<int>,
    offset: int,
    full: bool,
) -> bool {
    s == SboxType::Inverse ==> forall|i: int|
        0 <= i < state.len() && (full || i == state.len() - 1) ==> invertible(
            #[trigger] add_round_keys(state, keys, offset)[i],
        )
}

/// Round `r` of the permutation of `input` has only invertible arguments
/// to its inverse S-boxes.
pub open spec fn perm_round_ok(p: PoseidonParams, s: SboxType, input: Seq<int>, r: nat) -> bool {
    round_args_ok(s, rounds_spec(p, s, input, r), p.keys(), r * p.width, p.is_full_round(r as int))
}

/// Every inverse S-box of the permutation of `input` has an invertible
/// argument; over the prime order, none of them is zero.
pub open spec fn sbox_args_ok(p: PoseidonParams, s: SboxType, input: Seq<int>) -> bool {
    forall|r: nat| r < p.total_rounds() ==> #[trigger] perm_round_ok(p, s, input, r)
}

/// The state after the S-box layer of a round, under the assignment `x`.
pub open spec fn mixed_at(
    s: SboxType,
    state: Seq<LinComb>,
    keys: Seq<int>,
    offset: int,
    full: bool,
    x: Seq<int>,
) -> Seq<int> {
    sbox_layer(s, add_round_keys(lc_values(state, x), keys, offset), full)
}

fn synthesize_round(
    cs: &mut Circuit,
    state: &Vec<LinComb>,
    params: &PoseidonParams,
    sbox: &SboxType,
    offset: usize,
    full: bool,
) -> (next: Vec<LinComb>)
    requires
        params.wf(),
        state@.len() == params.width,
        forall|k: int| 0 <= k < state@.len() ==> (#[trigger] state@[k]).wf(),
        offset + params.width <= params.round_keys@.len(),
        old(cs).n_vars + 9 * params.width <= usize::MAX,
        old(cs).wf(),
        forall|k: int| 0 <= k < state@.len() ==> lc_below(#[trigger] state@[k], old(cs).n_vars as int),
    ensures
        final(cs).wf(),
        forall|k: int| 0 <= k < next@.len() ==> lc_below(#[trigger] next@[k], final(cs).n_vars as int)
            && next@[k].terms@.len() == params.width,
        forall|x: Seq<int>| #[trigger]
            satisfied(*old(cs), x) ==> round_args_ok(
                *sbox,
                lc_values(state@, x),
                params.keys(),
                offset as int,
                full,
            ) ==> completable(*old(cs), *final(cs), x),
        extends(*old(cs), *final(cs)),
        final(cs).n_vars <= old(cs).n_vars + 9 * params.width,
        gate_count(final(cs).constraints@) == gate_count(old(cs).constraints@) + (if full {
            params.width as nat
        } else {
            1nat
        }) * sbox_gates(*sbox),
        next@.len() == params.width,
        forall|k: int| 0 <= k < next@.len() ==> (#[trigger] next@[k]).wf(),
        forall|x: Seq<int>| #[trigger]
            satisfied(*final(cs), x) ==> lc_values(next@, x) == linear_layer(
                mixed_at(*sbox, state@, params.keys(), offset as int, full, x),
                params.mds(),
            ),
{
    let width = params.width;
    let klen = params.round_keys.len();
    let ghost c0 = *cs;
    let mut outs: Vec<usize> = Vec::new();
    let mut i: usize = 0;
    assert forall|x: Seq<int>| #[trigger] satisfied(c0, x) implies completable(c0, *cs, x) by {
        lemma_completable_refl(c0, x);
    }
    while i < width
        invariant
            params.wf(),
            width == params.width,
            state@.len() == width,
            forall|k: int| 0 <= k < state@.len() ==> (#[trigger] state@[k]).wf(),
            offset + width <= params.round_keys@.len(),
            klen == params.round_keys@.len(),
            c0.n_vars + 9 * width <= usize::MAX,
            i <= width,
            cs.wf(),
            forall|k: int| 0 <= k < state@.len() ==> lc_below(#[trigger] state@[k], c0.n_vars as int),
            forall|x: Seq<int>| #[trigger]
                satisfied(c0, x) ==> round_args_ok(
                    *sbox,
                    lc_values(state@, x),
                    params.keys(),
                    offset as int,
                    full,
                ) ==> completable(c0, *cs, x),
            extends(c0, *cs),
            cs.n_vars <= c0.n_vars + 9 * i,
            gate_count(cs.constraints@) == gate_count(c0.constraints@) + (if full {
                i as nat
            } else if i == width {
                1nat
            } else {
                0nat
            }) * sbox_gates(*sbox),
            outs@.len() == i,
            forall|k: int| 0 <= k < i ==> #[trigger] outs@[k] < cs.n_vars,
            forall|x: Seq<int>| #[trigger]
                satisfied(*cs, x) ==> forall|k: int|
                    0 <= k < i ==> x[#[trigger] outs@[k] as int] == mixed_at(
                        *sbox,
                        state@,
                        params.keys(),
                        offset as int,
                        full,
                        x,
                    )[k],
        decreases width - i,
    {
        let ghost prev = *cs;
        let key = &params.round_keys[offset + i];
        proof {
            lemma_lc_below_grow(state@[i as int], c0.n_vars as int, cs.n_vars as int);
        }
        let v = if full || i == width - 1 {
            sbox.synthesize_sbox(cs, &state[i], key)
        } else {
            // A slot that skips the S-box gets a variable of its own through a
            // linear constraint (no gate), so that every state combination
            // keeps one term per slot across the partial rounds.
            cs.linear(state[i].plus_const(key))
        };
        proof {
            let g = sbox_gates(*sbox) as int;
            assert((i + 1) * g == i * g + g) by (nonlinear_arith);
            assert(1 * g == g && 0 * g == 0) by (nonlinear_arith);
            lemma_extends_trans(c0, prev, *cs);
            assert forall|x: Seq<int>| #[trigger] satisfied(c0, x) implies (round_args_ok(
                *sbox,
                lc_values(state@, x),
                params.keys(),
                offset as int,
                full,
            ) ==> completable(c0, *cs, x)) by {
                if round_args_ok(*sbox, lc_values(state@, x), params.keys(), offset as int, full) {
                    let y1 = choose|y1: Seq<int>|
                        y1.len() == prev.n_vars && agree(x, y1, c0.n_vars as int)
                            && #[trigger] satisfied(prev, y1);
                    lemma_lc_agree(state@[i as int], x, y1, c0.n_vars as int);
                    assert(add_round_keys(lc_values(state@, x), params.keys(), offset as int)[i as int]
                        == fadd(lc_value(state@[i as int], y1), key@));
                    lemma_completable_step(c0, prev, *cs, x, y1);
                }
            }
            assert forall|x: Seq<int>| #[trigger] satisfied(*cs, x) implies forall|k: int|
                0 <= k < i + 1 ==> x[#[trigger] outs@.push(v)[k] as int] == mixed_at(
                    *sbox,
                    state@,
                    params.keys(),
                    offset as int,
                    full,
                    x,
                )[k] by {
                lemma_satisfied_extends(prev, *cs, x);
                assert forall|k: int| 0 <= k < i + 1 implies x[#[trigger] outs@.push(v)[k] as int]
                    == mixed_at(*sbox, state@, params.keys(), offset as int, full, x)[k] by {
                    if k < i {
                        assert(outs@.push(v)[k] == outs@[k]);
                    }
                }
            }
        }
        outs.push(v);
        i += 1;
    }
    let mut next: Vec<LinComb> = Vec::new();
    let mut i: usize = 0;
    while i < width
        invariant
            params.wf(),
            width == params.width,
            outs@.len() == width,
            forall|k: int| 0 <= k < width ==> #[trigger] outs@[k] < cs.n_vars,
            forall|x: Seq<int>| #[trigger]
                satisfied(*cs, x) ==> forall|k: int|
                    0 <= k < width ==> x[#[trigger] outs@[k] as int] == mixed_at(
                        *sbox,
                        state@,
                        params.keys(),
                        offset as int,
                        full,
                        x,
                    )[k],
            i <= width,
            next@.len() == i,
            forall|k: int| 0 <= k < next@.len() ==> (#[trigger] next@[k]).wf(),
            forall|k: int|
                0 <= k < next@.len() ==> lc_below(#[trigger] next@[k], cs.n_vars as int)
                    && next@[k].terms@.len() == width,
            forall|x: Seq<int>| #[trigger]
                satisfied(*cs, x) ==> forall|k: int|
                    0 <= k < i ==> lc_value(#[trigger] next@[k], x) == column_dot(
                        mixed_at(*sbox, state@, params.keys(), offset as int, full, x),
                        params.mds(),
                        k,
                        width as nat,
                    ),
        decreases width - i,
    {
        let mut terms: Vec<(usize, Fe)> = Vec::new();
        let mut j: usize = 0;
        while j < width
            invariant
                params.wf(),
                width == params.width,
                i < width,
                j <= width,
                outs@.len() == width,
                terms@.len() == j,
                forall|k: int| 0 <= k < terms@.len() ==> (#[trigger] terms@[k]).1.wf(),
                forall|k: int| 0 <= k < width ==> #[trigger] outs@[k] < cs.n_vars,
                forall|k: int| 0 <= k < terms@.len() ==> (#[trigger] terms@[k]).0 < cs.n_vars,
                forall|x: Seq<int>| #[trigger]
                    satisfied(*cs, x) ==> forall|k: int|
                        0 <= k < width ==> x[#[trigger] outs@[k] as int] == mixed_at(
                            *sbox,
                            state@,
                            params.keys(),
                            offset as int,
                            full,
                            x,
                        )[k],
                forall|x: Seq<int>| #[trigger]
                    satisfied(*cs, x) ==> terms_value(term_vals(terms@), x) == column_dot(
                        mixed_at(*sbox, state@, params.keys(), offset as int, full, x),
                        params.mds(),
                        i as int,
                        j as nat,
                    ),
            decreases width - j,
        {
            assert(params.MDS_matrix@[j as int]@.len() == width);
            let c = params.MDS_matrix[j][i].duplicate();
            let ghost old_terms = terms@;
            terms.push((outs[j], c));
            proof {
                assert(term_vals(terms@).drop_last() =~= term_vals(old_terms));
                assert forall|x: Seq<int>| #[trigger] satisfied(*cs, x) implies terms_value(
                    term_vals(terms@),
                    x,
                ) == column_dot(
                    mixed_at(*sbox, state@, params.keys(), offset as int, full, x),
                    params.mds(),
                    i as int,
                    (j + 1) as nat,
                ) by {
                    let mx = mixed_at(*sbox, state@, params.keys(), offset as int, full, x);
                    let a = x[outs@[j as int] as int];
                    assert(a == mx[j as int]);
                    assert(c@ * a == a * c@);
                }
            }
            j += 1;
        }
        let lc = LinComb { terms, constant: Fe::zero() };
        proof {
            assert(lc_below(lc, cs.n_vars as int));
            assert forall|k: int| 0 <= k < next@.push(lc).len() implies lc_below(
                #[trigger] next@.push(lc)[k],
                cs.n_vars as int,
            ) && next@.push(lc)[k].terms@.len() == width by {
                if k < i {
                    assert(next@.push(lc)[k] == next@[k]);
                }
            }
            assert forall|x: Seq<int>| #[trigger] satisfied(*cs, x) implies forall|k: int|
                0 <= k < i + 1 ==> lc_value(#[trigger] next@.push(lc)[k], x) == column_dot(
                    mixed_at(*sbox, state@, params.keys(), offset as int, full, x),
                    params.mds(),
                    k,
                    width as nat,
                ) by {
                let t = terms_value(term_vals(lc.terms@), x);
                lemma_terms_value_range(term_vals(lc.terms@), x);
                lemma_small_mod(t as nat, modulus() as nat);
                assert(t + 0 == t);
                assert forall|k: int| 0 <= k < i + 1 implies lc_value(
                    #[trigger] next@.push(lc)[k],
                    x,
                ) == column_dot(
                    mixed_at(*sbox, state@, params.keys(), offset as int, full, x),
                    params.mds(),
                    k,
                    width as nat,
                ) by {
                    if k < i {
                        assert(next@.push(lc)[k] == next@[k]);
                    }
                }
            }
        }
        next.push(lc);
        i += 1;
    }
    proof {
        assert forall|x: Seq<int>| #[trigger] satisfied(*cs, x) implies lc_values(next@, x)
            == linear_layer(
            mixed_at(*sbox, state@, params.keys(), offset as int, full, x),
            params.mds(),
        ) by {
            let mx = mixed_at(*sbox, state@, params.keys(), offset as int, full, x);
            assert(mx.len() == width);
            assert(lc_values(next@, x) =~= linear_layer(mx, params.mds()));
        }
    }
    next
}

/// Emits the constraints of the permutation on the given combinations and
/// returns the combinations that hold its outputs: under every assignment
/// that meets the circuit, they take the values of the permutation of the
/// inputs' values.
#[allow(non_snake_case)]
pub fn Poseidon_permutation_constraints(
    cs: &mut Circuit,
    input: Vec<LinComb>,
    params: &PoseidonParams,
    sbox_type: &SboxType,
) -> (r: Vec<LinComb>)
    requires
        params.wf(),
        input@.len() == params.width,
        forall|k: int| 0 <= k < input@.len() ==> (#[trigger] input@[k]).wf(),
        old(cs).n_vars + 9 * params.round_keys@.len() <= usize::MAX,
        old(cs).wf(),
        forall|k: int| 0 <= k < input@.len() ==> lc_below(#[trigger] input@[k], old(cs).n_vars as int),
    ensures
        final(cs).wf(),
        forall|k: int| 0 <= k < r@.len() ==> lc_below(#[trigger] r@[k], final(cs).n_vars as int),
        params.total_rounds() > 0 ==> forall|k: int|
            0 <= k < r@.len() ==> (#[trigger] r@[k]).terms@.len() == params.width,
        forall|x: Seq<int>| #[trigger]
            satisfied(*old(cs), x) ==> sbox_args_ok(*params, *sbox_type, lc_values(input@, x))
                ==> completable(*old(cs), *final(cs), x),
        extends(*old(cs), *final(cs)),
        gate_count(final(cs).constraints@) == gate_count(old(cs).constraints@) + permutation_gates(
            *params,
            *sbox_type,
        ),
        r@.len() == params.width,
        forall|k: int| 0 <= k < r@.len() ==> (#[trigger] r@[k]).wf(),
        forall|x: Seq<int>| #[trigger]
            satisfied(*final(cs), x) ==> lc_values(r@, x) == permutation_spec(
                *params,
                *sbox_type,
                lc_values(input@, x),
            ),
{
    let width = params.width;
    let beg = params.full_rounds_beginning;
    let partial = params.partial_rounds;
    let klen = params.round_keys.len();
    let ghost c0 = *cs;
    proof {
        let t = params.total_rounds();
        assert(t * width >= t) by (nonlinear_arith)
            requires
                width >= 3,
                t >= 0,
        ;
    }
    let total = beg + partial + params.full_rounds_end;
    let ghost gin = input@;
    assert forall|x: Seq<int>| #[trigger] satisfied(*cs, x) implies completable(c0, *cs, x) by {
        lemma_completable_refl(c0, x);
    }
    let mut state = input;
    let mut offset: usize = 0;
    let mut r: usize = 0;
    assert forall|x: Seq<int>| #[trigger] satisfied(*cs, x) implies lc_values(state@, x)
        == rounds_spec(*params, *sbox_type, lc_values(input@, x), 0) by {}
    while r < total
        invariant
            params.wf(),
            width == params.width,
            total == params.total_rounds(),
            beg == params.full_rounds_beginning,
            partial == params.partial_rounds,
            klen == params.round_keys@.len(),
            c0.n_vars + 9 * klen <= usize::MAX,
            r <= total,
            offset == r * width,
            extends(c0, *cs),
            cs.wf(),
            input@ == gin,
            forall|k: int| 0 <= k < gin.len() ==> lc_below(#[trigger] gin[k], c0.n_vars as int),
            forall|k: int| 0 <= k < state@.len() ==> lc_below(#[trigger] state@[k], cs.n_vars as int),
            r > 0 ==> forall|k: int|
                0 <= k < state@.len() ==> (#[trigger] state@[k]).terms@.len() == width,
            forall|x: Seq<int>| #[trigger]
                satisfied(c0, x) ==> sbox_args_ok(*params, *sbox_type, lc_values(gin, x))
                    ==> completable(c0, *cs, x),
            cs.n_vars <= c0.n_vars + 9 * offset,
            gate_count(cs.constraints@) == gate_count(c0.constraints@) + rounds_gates(
                *params,
                *sbox_type,
                r as nat,
            ),
            state@.len() == width,
            forall|k: int| 0 <= k < state@.len() ==> (#[trigger] state@[k]).wf(),
            forall|x: Seq<int>| #[trigger]
                satisfied(*cs, x) ==> lc_values(state@, x) == rounds_spec(
                    *params,
                    *sbox_type,
                    lc_values(input@, x),
                    r as nat,
                ),
        decreases total - r,
    {
        proof {
            assert((r + 1) * width <= total * width) by (nonlinear_arith)
                requires
                    r + 1 <= total,
                    width >= 0,
            ;
            assert((r + 1) * width == r * width + width) by (nonlinear_arith);
        }
        let full = r < beg || r >= beg + partial;
        let ghost prev = *cs;
        let next = synthesize_round(cs, &state, params, sbox_type, offset, full);
        proof {
            lemma_extends_trans(c0, prev, *cs);
            assert forall|x: Seq<int>| #[trigger] satisfied(c0, x) implies (sbox_args_ok(
                *params,
                *sbox_type,
                lc_values(gin, x),
            ) ==> completable(c0, *cs, x)) by {
                if sbox_args_ok(*params, *sbox_type, lc_values(gin, x)) {
                    let y1 = choose|y1: Seq<int>|
                        y1.len() == prev.n_vars && agree(x, y1, c0.n_vars as int)
                            && #[trigger] satisfied(prev, y1);
                    assert forall|k: int| 0 <= k < gin.len() implies lc_value(gin[k], y1)
                        == lc_value(#[trigger] gin[k], x) by {
                        lemma_lc_agree(gin[k], x, y1, c0.n_vars as int);
                    }
                    assert(lc_values(gin, y1) =~= lc_values(gin, x));
                    assert(perm_round_ok(*params, *sbox_type, lc_values(gin, x), r as nat));
                    assert(params.is_full_round(r as int) == full);
                    lemma_completable_step(c0, prev, *cs, x, y1);
                }
            }
            assert forall|x: Seq<int>| #[trigger] satisfied(*cs, x) implies lc_values(next@, x)
                == rounds_spec(*params, *sbox_type, lc_values(input@, x), (r + 1) as nat) by {
                lemma_satisfied_extends(prev, *cs, x);
                assert(params.is_full_round(r as int) == full);
            }
        }
        state = next;
        offset = offset + width;
        r += 1;
    }
    proof {
        lemma_rounds_gates(*params, *sbox_type, total as nat);
        let b = beg as int;
        let q = partial as int;
        let e = params.full_rounds_end as int;
        let w = width as int;
        let g = sbox_gates(*sbox_type) as int;
        assert(b * w * g + q * g + e * w * g == ((b + e) * w + q) * g) by (nonlinear_arith);
        if total <= beg {
            assert(q == 0 && e == 0);
        } else if total <= beg + partial {
            assert(e == 0);
        }
    }
    state
}

/// The values of the variables `vars` under `x`.
pub open spec fn var_values(vars: Seq<usize>, x: Seq<int>) -> Seq<int> {
    Seq::new(vars.len(), |k: int| x[vars[k] as int])
}

/// On the inputs' values under `x`, no inverse S-box argument is zero and the
/// permutation gives `output`.
pub open spec fn gadget_ok(
    p: PoseidonParams,
    s: SboxType,
    input: Seq<usize>,
    output: Seq<int>,
    x: Seq<int>,
) -> bool {
    sbox_args_ok(p, s, var_values(input, x)) && permutation_spec(p, s, var_values(input, x))
        == output
}

/// One combination per variable, holding that variable alone.
fn var_lcs(vars: &Vec<usize>) -> (r: Vec<LinComb>)
    ensures
        r@.len() == vars@.len(),
        forall|k: int| 0 <= k < r@.len() ==> lc_below(#[trigger] r@[k], vars@[k] + 1),
        forall|k: int| 0 <= k < r@.len() ==> (#[trigger] r@[k]).wf(),
        forall|x: Seq<int>, k: int|
            0 <= k < r@.len() && 0 <= x[vars@[k] as int] < modulus() ==> #[trigger] lc_value(
                r@[k],
                x,
            ) == x[vars@[k] as int],
{
    let mut r: Vec<LinComb> = Vec::new();
    let mut i: usize = 0;
    while i < vars.len()
        invariant
            i <= vars@.len(),
            r@.len() == i,
            forall|k: int| 0 <= k < i ==> lc_below(#[trigger] r@[k], vars@[k] + 1),
            forall|k: int| 0 <= k < r@.len() ==> (#[trigger] r@[k]).wf(),
            forall|x: Seq<int>, k: int|
                0 <= k < i && 0 <= x[vars@[k] as int] < modulus() ==> #[trigger] lc_value(
                    r@[k],
                    x,
                ) == x[vars@[k] as int],
        decreases vars@.len() - i,
    {
        let lc = LinComb::var(vars[i]);
        proof {
            assert forall|k: int| 0 <= k < i + 1 implies lc_below(
                #[trigger] r@.push(lc)[k],
                vars@[k] + 1,
            ) by {
                if k < i {
                    assert(r@.push(lc)[k] == r@[k]);
                }
            }
            assert forall|x: Seq<int>, k: int|
                0 <= k < i + 1 && 0 <= x[vars@[k] as int] < modulus() implies #[trigger] lc_value(
                r@.push(lc)[k],
                x,
            ) == x[vars@[k] as int] by {
                if k < i {
                    assert(r@.push(lc)[k] == r@[k]);
                }
            }
        }
        r.push(lc);
        i += 1;
    }
    r
}

/// Emits the permutation's constraints on the given variables and binds
/// each output to the matching element of `output`.
#[allow(non_snake_case)]
pub fn Poseidon_permutation_gadget(
    cs: &mut Circuit,
    input: Vec<usize>,
    params: &PoseidonParams,
    sbox_type: &SboxType,
    output: &[Fe],
)
    requires
        params.wf(),
        input@.len() == params.width,
        output@.len() == params.width,
        forall|k: int| 0 <= k < output@.len() ==> (#[trigger] output@[k]).wf(),
        forall|k: int| 0 <= k < input@.len() ==> #[trigger] input@[k] < old(cs).n_vars,
        old(cs).n_vars + 9 * params.round_keys@.len() <= usize::MAX,
        old(cs).wf(),
    ensures
        final(cs).wf(),
        extends(*old(cs), *final(cs)),
        forall|x: Seq<int>| #[trigger]
            satisfied(*old(cs), x) ==> gadget_ok(
                *params,
                *sbox_type,
                input@,
                crate::params::fe_vals(output@),
                x,
            ) ==> completable(*old(cs), *final(cs), x),
        forall|x: Seq<int>| #[trigger]
            satisfied(*final(cs), x) ==> permutation_spec(
                *params,
                *sbox_type,
                Seq::new(input@.len(), |k: int| x[input@[k] as int]),
            ) == crate::params::fe_vals(output@),
{
    let ghost c0 = *cs;
    let lcs = var_lcs(&input);
    let ghost glcs = lcs@;
    proof {
        assert forall|k: int| 0 <= k < lcs@.len() implies lc_below(
            #[trigger] lcs@[k],
            c0.n_vars as int,
        ) by {
            lemma_lc_below_grow(lcs@[k], input@[k] + 1, c0.n_vars as int);
        }
    }
    let outs = Poseidon_permutation_constraints(cs, lcs, params, sbox_type);
    let ghost c1 = *cs;
    proof {
        assert forall|k: int| 0 <= k < input@.len() implies #[trigger] input@[k] < c0.n_vars by {}
    }
    proof {
        assert forall|x: Seq<int>| #[trigger] satisfied(c0, x) implies lc_values(glcs, x)
            == Seq::new(input@.len(), |k: int| x[input@[k] as int]) by {
            assert(lc_values(glcs, x) =~= Seq::new(input@.len(), |k: int| x[input@[k] as int]));
        }
    }
    let mut i: usize = 0;
    while i < params.width
        invariant
            params.wf(),
            cs.wf(),
            c0.n_vars <= c1.n_vars,
            extends(c0, c1),
            forall|k: int| 0 <= k < outs@.len() ==> lc_below(#[trigger] outs@[k], cs.n_vars as int),
            forall|x: Seq<int>| #[trigger]
                satisfied(c0, x) ==> lc_values(glcs, x) == Seq::new(
                    input@.len(),
                    |k: int| x[input@[k] as int],
                ),
            forall|x: Seq<int>| #[trigger]
                satisfied(c1, x) ==> lc_values(outs@, x) == permutation_spec(
                    *params,
                    *sbox_type,
                    lc_values(glcs, x),
                ),
            forall|k: int| 0 <= k < glcs.len() ==> lc_below(#[trigger] glcs[k], c0.n_vars as int),
            forall|x: Seq<int>| #[trigger]
                satisfied(c0, x) ==> gadget_ok(*params, *sbox_type, input@, crate::params::fe_vals(output@), x) ==> completable(c0, *cs, x),
            outs@.len() == params.width,
            output@.len() == params.width,
            forall|k: int| 0 <= k < output@.len() ==> (#[trigger] output@[k]).wf(),
            forall|k: int| 0 <= k < outs@.len() ==> (#[trigger] outs@[k]).wf(),
            i <= params.width,
            extends(c1, *cs),
            cs.n_vars == c1.n_vars,
            forall|x: Seq<int>| #[trigger]
                satisfied(*cs, x) ==> forall|k: int|
                    0 <= k < i ==> lc_value(#[trigger] outs@[k], x) == output@[k]@,
        decreases params.width - i,
    {
        let ghost prev = *cs;
        let lc = outs[i].duplicate();
        let ghost glc = lc;
        let val = output[i].duplicate();
        let ghost gval = val;
        cs.add(Constraint::EqualsConst { lc, value: val });
        proof {
            let n = prev.constraints@.len() as int;
            assert(prev.constraints@ =~= cs.constraints@.subrange(0, n));
            lemma_extends_trans(c1, prev, *cs);
            assert forall|x: Seq<int>| #[trigger] satisfied(c0, x) implies (gadget_ok(*params, *sbox_type, input@, crate::params::fe_vals(output@), x) ==> completable(
                c0,
                *cs,
                x,
            )) by {
                if gadget_ok(*params, *sbox_type, input@, crate::params::fe_vals(output@), x) {
                    let y1 = choose|y1: Seq<int>|
                        y1.len() == prev.n_vars && agree(x, y1, c0.n_vars as int)
                            && #[trigger] satisfied(prev, y1);
                    lemma_satisfied_extends(c1, prev, y1);
                    lemma_satisfied_extends(c0, prev, y1);
                    assert forall|k: int| 0 <= k < glcs.len() implies lc_value(glcs[k], y1)
                        == lc_value(#[trigger] glcs[k], x) by {
                        lemma_lc_agree(glcs[k], x, y1, c0.n_vars as int);
                    }
                    assert(lc_values(glcs, y1) =~= lc_values(glcs, x));
                    let v = var_values(input@, x);
                    assert(v =~= Seq::new(input@.len(), |k: int| x[input@[k] as int]));
                    assert(lc_values(glcs, x) == v);
                    assert(permutation_spec(*params, *sbox_type, v) == crate::params::fe_vals(
                        output@,
                    ));
                    assert(lc_values(outs@, y1) == permutation_spec(
                        *params,
                        *sbox_type,
                        lc_values(glcs, y1),
                    ));
                    assert(crate::params::fe_vals(output@)[i as int] == output@[i as int]@);
                    assert(lc_value(glc, y1) == lc_values(outs@, y1)[i as int]);
                    assert(lc_value(glc, y1) == gval@);
                    assert(cs.constraints@[n] == Constraint::EqualsConst { lc: glc, value: gval });
                    assert(crate::circuit::holds(cs.constraints@[n], y1));
                    assert forall|j: int| 0 <= j < cs.constraints@.len() implies crate::circuit::holds(
                        #[trigger] cs.constraints@[j],
                        y1,
                    ) by {
                        if j < n {
                            assert(cs.constraints@[j] == prev.constraints@[j]);
                        }
                    }
                    assert(satisfied(*cs, y1));
                }
            }
            assert forall|x: Seq<int>| #[trigger] satisfied(*cs, x) implies forall|k: int|
                0 <= k < i + 1 ==> lc_value(#[trigger] outs@[k], x) == output@[k]@ by {
                lemma_satisfied_extends(prev, *cs, x);
                assert(crate::circuit::holds(cs.constraints@[n], x));
            }
        }
        i += 1;
    }
    proof {
        lemma_extends_trans(c0, c1, *cs);
        assert forall|x: Seq<int>| #[trigger] satisfied(*cs, x) implies permutation_spec(
            *params,
            *sbox_type,
            Seq::new(input@.len(), |k: int| x[input@[k] as int]),
        ) == crate::params::fe_vals(output@) by {
            lemma_satisfied_extends(c1, *cs, x);
            lemma_satisfied_extends(c0, *cs, x);
            assert(lc_values(glcs, x) =~= Seq::new(input@.len(), |k: int| x[input@[k] as int]));
            assert(lc_values(outs@, x) =~= crate::params::fe_vals(output@));
        }
    }
}

/// The contract shared by the three constrained hashes.
pub open spec fn hash_constraints_result(
    p: PoseidonParams,
    s: SboxType,
    arity: usize,
    inputs: Seq<LinComb>,
    capacity: LinComb,
    before: Circuit,
    after: Circuit,
    r: Result<LinComb, PoseidonError>,
) -> bool {
    &&& extends(before, after)
    &&& (inputs.len() != arity <==> r is Err)
    &&& r is Err ==> after == before && r->Err_0 == (PoseidonError::IncorrectWidthForPoseidon {
        width: arity,
        expected: inputs.len() as usize,
    })
    &&& after.wf()
    &&& r is Ok ==> lc_below(r->Ok_0, after.n_vars as int)
    &&& r is Ok ==> forall|x: Seq<int>| #[trigger]
        satisfied(before, x) ==> sbox_args_ok(
            p,
            s,
            seq![lc_value(capacity, x)] + lc_values(inputs, x),
        ) ==> completable(before, after, x)
    &&& r is Ok ==> r->Ok_0.wf() && forall|x: Seq<int>| #[trigger]
        satisfied(after, x) ==> lc_value(r->Ok_0, x) == hash_spec(
            p,
            s,
            lc_value(capacity, x),
            lc_values(inputs, x),
        )
}

/// The contract shared by the three hash gadgets.
pub open spec fn hash_gadget_result(
    p: PoseidonParams,
    s: SboxType,
    arity: usize,
    inputs: Seq<usize>,
    capacity: usize,
    image: int,
    before: Circuit,
    after: Circuit,
    r: Result<(), PoseidonError>,
) -> bool {
    &&& extends(before, after)
    &&& (inputs.len() != arity <==> r is Err)
    &&& r is Err ==> after == before && r->Err_0 == (PoseidonError::IncorrectWidthForPoseidon {
        width: arity,
        expected: inputs.len() as usize,
    })
    &&& after.wf()
    &&& r is Ok ==> forall|x: Seq<int>| #[trigger]
        satisfied(before, x) ==> ({
            let v = seq![x[capacity as int]] + var_values(inputs, x);
            sbox_args_ok(p, s, v) && permutation_spec(p, s, v)[1] == image
        }) ==> completable(before, after, x)
    &&& r is Ok ==> forall|x: Seq<int>| #[trigger]
        satisfied(after, x) ==> hash_spec(
            p,
            s,
            x[capacity as int],
            Seq::new(inputs.len(), |k: int| x[inputs[k] as int]),
        ) == image
}

fn hash_constraints(
    cs: &mut Circuit,
    inputs: Vec<LinComb>,
    capacity_const: LinComb,
    arity: usize,
    params: &PoseidonParams,
    sbox_type: &SboxType,
) -> (r: Result<LinComb, PoseidonError>)
    requires
        params.wf(),
        params.width == arity + 1,
        forall|k: int| 0 <= k < inputs@.len() ==> (#[trigger] inputs@[k]).wf(),
        capacity_const.wf(),
        old(cs).n_vars + 9 * params.round_keys@.len() <= usize::MAX,
        old(cs).wf(),
        lc_below(capacity_const, old(cs).n_vars as int),
        forall|k: int| 0 <= k < inputs@.len() ==> lc_below(#[trigger] inputs@[k], old(cs).n_vars as int),
    ensures
        hash_constraints_result(
            *params,
            *sbox_type,
            arity,
            inputs@,
            capacity_const,
            *old(cs),
            *final(cs),
            r,
        ),
{
    if inputs.len() != arity {
        proof {
            assert(cs.constraints@ =~= cs.constraints@.subrange(0, cs.constraints@.len() as int));
        }
        return Err(PoseidonError::IncorrectWidthForPoseidon { width: arity, expected: inputs.len() });
    }
    let ghost gin = inputs@;
    let ghost gcap = capacity_const;
    let mut input: Vec<LinComb> = Vec::new();
    input.push(capacity_const);
    let mut i: usize = 0;
    while i < arity
        invariant
            inputs@ == gin,
            inputs@.len() == arity,
            forall|k: int| 0 <= k < inputs@.len() ==> (#[trigger] inputs@[k]).wf(),
            i <= arity,
            input@.len() == i + 1,
            forall|k: int| 0 <= k < input@.len() ==> (#[trigger] input@[k]).wf(),
            cs.wf(),
            forall|k: int| 0 <= k < inputs@.len() ==> lc_below(#[trigger] inputs@[k], cs.n_vars as int),
            forall|k: int| 0 <= k < input@.len() ==> lc_below(#[trigger] input@[k], cs.n_vars as int),
            forall|x: Seq<int>| lc_value(#[trigger] input@[0], x) == lc_value(gcap, x),
            forall|x: Seq<int>, k: int|
                0 <= k < i ==> #[trigger] lc_value(input@[k + 1], x) == lc_value(inputs@[k], x),
        decreases arity - i,
    {
        let d = inputs[i].duplicate();
        proof {
            assert forall|k: int| 0 <= k < input@.push(d).len() implies lc_below(
                #[trigger] input@.push(d)[k],
                cs.n_vars as int,
            ) by {
                if k < input@.len() {
                    assert(input@.push(d)[k] == input@[k]);
                }
            }
        }
        input.push(d);
        i += 1;
    }
    let ghost gperm = input@;
    let ghost c0 = *cs;
    proof {
        assert forall|x: Seq<int>| #[trigger] lc_values(gperm, x) == seq![lc_value(gcap, x)]
            + lc_values(gin, x) by {
            assert(lc_values(gperm, x) =~= seq![lc_value(gcap, x)] + lc_values(gin, x)) by {
                assert forall|k: int| 1 <= k < gperm.len() implies #[trigger] lc_value(gperm[k], x)
                    == lc_value(gin[k - 1], x) by {
                    assert(lc_value(gperm[(k - 1) + 1], x) == lc_value(gin[k - 1], x));
                }
                assert(lc_value(gperm[0], x) == lc_value(gcap, x));
            }
        }
    }
    let out = Poseidon_permutation_constraints(cs, input, params, sbox_type);
    let res = out[1].duplicate();
    proof {
        assert(lc_below(out@[1], cs.n_vars as int));
        assert forall|x: Seq<int>| #[trigger] satisfied(c0, x) implies (sbox_args_ok(
            *params,
            *sbox_type,
            seq![lc_value(gcap, x)] + lc_values(gin, x),
        ) ==> completable(c0, *cs, x)) by {
            assert(lc_values(gperm, x) == seq![lc_value(gcap, x)] + lc_values(gin, x));
        }
        assert forall|x: Seq<int>| #[trigger] satisfied(*cs, x) implies lc_value(res, x) == hash_spec(
            *params,
            *sbox_type,
            lc_value(gcap, x),
            lc_values(gin, x),
        ) by {
            assert(lc_values(gperm, x) =~= seq![lc_value(gcap, x)] + lc_values(gin, x)) by {
                assert forall|k: int| 1 <= k < gperm.len() implies #[trigger] lc_value(gperm[k], x)
                    == lc_value(gin[k - 1], x) by {
                    assert(lc_value(gperm[(k - 1) + 1], x) == lc_value(gin[k - 1], x));
                }
                assert(lc_value(gperm[0], x) == lc_value(gcap, x));
            }
        }
    }
    Ok(res)
}

fn hash_gadget(
    cs: &mut Circuit,
    input: Vec<usize>,
    capacity_const: usize,
    arity: usize,
    params: &PoseidonParams,
    sbox_type: &SboxType,
    image: &Fe,
) -> (r: Result<(), PoseidonError>)
    requires
        params.wf(),
        params.width == arity + 1,
        image.wf(),
        capacity_const < old(cs).n_vars,
        forall|k: int| 0 <= k < input@.len() ==> #[trigger] input@[k] < old(cs).n_vars,
        old(cs).n_vars + 9 * params.round_keys@.len() <= usize::MAX,
        old(cs).wf(),
    ensures
        hash_gadget_result(
            *params,
            *sbox_type,
            arity,
            input@,
            capacity_const,
            image@,
            *old(cs),
            *final(cs),
            r,
        ),
{
    let ghost c0 = *cs;
    let lcs = var_lcs(&input);
    let cap = LinComb::var(capacity_const);
    let ghost glcs = lcs@;
    let ghost gcap = cap;
    proof {
        lemma_lc_below_grow(cap, capacity_const + 1, c0.n_vars as int);
        assert forall|k: int| 0 <= k < lcs@.len() implies lc_below(
            #[trigger] lcs@[k],
            c0.n_vars as int,
        ) by {
            lemma_lc_below_grow(lcs@[k], input@[k] + 1, c0.n_vars as int);
        }
        assert forall|x: Seq<int>| #[trigger] satisfied(c0, x) implies seq![lc_value(gcap, x)]
            + lc_values(glcs, x) == seq![x[capacity_const as int]] + var_values(input@, x) by {
            assert(lc_values(glcs, x) =~= var_values(input@, x));
        }
    }
    let hash = match hash_constraints(cs, lcs, cap, arity, params, sbox_type) {
        Ok(h) => h,
        Err(e) => return Err(e),
    };
    let ghost c1 = *cs;
    let ghost gh = hash;
    let val = image.duplicate();
    let ghost gval = val;
    cs.add(Constraint::EqualsConst { lc: hash, value: val });
    proof {
        let n = c1.constraints@.len() as int;
        assert(c1.constraints@ =~= cs.constraints@.subrange(0, n));
        lemma_extends_trans(c0, c1, *cs);
        assert forall|x: Seq<int>| #[trigger] satisfied(c0, x) implies (({
            let v = seq![x[capacity_const as int]] + var_values(input@, x);
            sbox_args_ok(*params, *sbox_type, v) && permutation_spec(*params, *sbox_type, v)[1]
                == image@
        }) ==> completable(c0, *cs, x)) by {
            let v = seq![x[capacity_const as int]] + var_values(input@, x);
            if sbox_args_ok(*params, *sbox_type, v) && permutation_spec(*params, *sbox_type, v)[1]
                == image@ {
                assert(seq![lc_value(gcap, x)] + lc_values(glcs, x) == v);
                let y1 = choose|y1: Seq<int>|
                    y1.len() == c1.n_vars && agree(x, y1, c0.n_vars as int)
                        && #[trigger] satisfied(c1, y1);
                lemma_lc_agree(gcap, x, y1, c0.n_vars as int);
                assert forall|k: int| 0 <= k < glcs.len() implies lc_value(glcs[k], y1)
                    == lc_value(#[trigger] glcs[k], x) by {
                    lemma_lc_agree(glcs[k], x, y1, c0.n_vars as int);
                }
                assert(lc_values(glcs, y1) =~= lc_values(glcs, x));
                assert(lc_value(gh, y1) == gval@);
                assert(crate::circuit::holds(cs.constraints@[n], y1));
                assert forall|j: int| 0 <= j < cs.constraints@.len() implies crate::circuit::holds(
                    #[trigger] cs.constraints@[j],
                    y1,
                ) by {
                    if j < n {
                        assert(cs.constraints@[j] == c1.constraints@[j]);
                    }
                }
                assert(satisfied(*cs, y1));
            }
        }
        assert forall|x: Seq<int>| #[trigger] satisfied(*cs, x) implies hash_spec(
            *params,
            *sbox_type,
            x[capacity_const as int],
            Seq::new(input@.len(), |k: int| x[input@[k] as int]),
        ) == image@ by {
            lemma_satisfied_extends(c1, *cs, x);
            lemma_satisfied_extends(c0, *cs, x);
            assert(crate::circuit::holds(cs.constraints@[n], x));
            assert(lc_values(glcs, x) =~= Seq::new(input@.len(), |k: int| x[input@[k] as int]));
            assert(lc_value(gcap, x) == x[capacity_const as int]);
        }
    }
    Ok(())
}

/// Emits the constraints of the hash of 2 inputs at width 3, with
/// `capacity_const` in slot 0; the caller binds it to the capacity constant.
/// Returns the combination that holds output 1.
#[allow(non_snake_case)]
pub fn Poseidon_hash_2_constraints(
    cs: &mut Circuit,
    inputs: Vec<LinComb>,
    capacity_const: LinComb,
    params: &PoseidonParams,
    sbox_type: &SboxType,
) -> (r: Result<LinComb, PoseidonError>)
    requires
        params.wf(),
        params.width == 3,
        forall|k: int| 0 <= k < inputs@.len() ==> (#[trigger] inputs@[k]).wf(),
        capacity_const.wf(),
        old(cs).n_vars + 9 * params.round_keys@.len() <= usize::MAX,
        old(cs).wf(),
        lc_below(capacity_const, old(cs).n_vars as int),
        forall|k: int| 0 <= k < inputs@.len() ==> lc_below(#[trigger] inputs@[k], old(cs).n_vars as int),
    ensures
        hash_constraints_result(
            *params,
            *sbox_type,
            2,
            inputs@,
            capacity_const,
            *old(cs),
            *final(cs),
            r,
        ),
{
    hash_constraints(cs, inputs, capacity_const, 2, params, sbox_type)
}

/// Emits the constraints of the hash of 2 variables at width 3 and binds
/// the digest to `image`.
#[allow(non_snake_case)]
pub fn Poseidon_hash_2_gadget(
    cs: &mut Circuit,
    input: Vec<usize>,
    capacity_const: usize,
    params: &PoseidonParams,
    sbox_type: &SboxType,
    image: &Fe,
) -> (r: Result<(), PoseidonError>)
    requires
        params.wf(),
        params.width == 3,
        image.wf(),
        capacity_const < old(cs).n_vars,
        forall|k: int| 0 <= k < input@.len() ==> #[trigger] input@[k] < old(cs).n_vars,
        old(cs).n_vars + 9 * params.round_keys@.len() <= usize::MAX,
        old(cs).wf(),
    ensures
        hash_gadget_result(
            *params,
            *sbox_type,
            2,
            input@,
            capacity_const,
            image@,
            *old(cs),
            *final(cs),
            r,
        ),
{
    hash_gadget(cs, input, capacity_const, 2, params, sbox_type, image)
}

/// Emits the constraints of the hash of 4 inputs at width 5, with
/// `capacity_const` in slot 0; the caller binds it to the capacity constant.
/// Returns the combination that holds output 1.
#[allow(non_snake_case)]
pub fn Poseidon_hash_4_constraints(
    cs: &mut Circuit,
    inputs: Vec<LinComb>,
    capacity_const: LinComb,
    params: &PoseidonParams,
    sbox_type: &SboxType,
) -> (r: Result<LinComb, PoseidonError>)
    requires
        params.wf(),
        params.width == 5,
        forall|k: int| 0 <= k < inputs@.len() ==> (#[trigger] inputs@[k]).wf(),
        capacity_const.wf(),
        old(cs).n_vars + 9 * params.round_keys@.len() <= usize::MAX,
        old(cs).wf(),
        lc_below(capacity_const, old(cs).n_vars as int),
        forall|k: int| 0 <= k < inputs@.len() ==> lc_below(#[trigger] inputs@[k], old(cs).n_vars as int),
    ensures
        hash_constraints_result(
            *params,
            *sbox_type,
            4,
            inputs@,
            capacity_const,
            *old(cs),
            *final(cs),
            r,
        ),
{
    hash_constraints(cs, inputs, capacity_const, 4, params, sbox_type)
}

/// Emits the constraints of the hash of 4 variables at width 5 and binds
/// the digest to `image`.
#[allow(non_snake_case)]
pub fn Poseidon_hash_4_gadget(
    cs: &mut Circuit,
    input: Vec<usize>,
    capacity_const: usize,
    params: &PoseidonParams,
    sbox_type: &SboxType,
    image: &Fe,
) -> (r: Result<(), PoseidonError>)
    requires
        params.wf(),
        params.width == 5,
        image.wf(),
        capacity_const < old(cs).n_vars,
        forall|k: int| 0 <= k < input@.len() ==> #[trigger] input@[k] < old(cs).n_vars,
        old(cs).n_vars + 9 * params.round_keys@.len() <= usize::MAX,
        old(cs).wf(),
    ensures
        hash_gadget_result(
            *params,
            *sbox_type,
            4,
            input@,
            capacity_const,
            image@,
            *old(cs),
            *final(cs),
            r,
        ),
{
    hash_gadget(cs, input, capacity_const, 4, params, sbox_type, image)
}

/// Emits the constraints of the hash of 8 inputs at width 9, with
/// `capacity_const` in slot 0; the caller binds it to the capacity constant.
/// Returns the combination that holds output 1.
#[allow(non_snake_case)]
pub fn Poseidon_hash_8_constraints(
    cs: &mut Circuit,
    inputs: Vec<LinComb>,
    capacity_const: LinComb,
    params: &PoseidonParams,
    sbox_type: &SboxType,
) -> (r: Result<LinComb, PoseidonError>)
    requires
        params.wf(),
        params.width == 9,
        forall|k: int| 0 <= k < inputs@.len() ==> (#[trigger] inputs@[k]).wf(),
        capacity_const.wf(),
        old(cs).n_vars + 9 * params.round_keys@.len() <= usize::MAX,
        old(cs).wf(),
        lc_below(capacity_const, old(cs).n_vars as int),
        forall|k: int| 0 <= k < inputs@.len() ==> lc_below(#[trigger] inputs@[k], old(cs).n_vars as int),
    ensures
        hash_constraints_result(
            *params,
            *sbox_type,
            8,
            inputs@,
            capacity_const,
            *old(cs),
            *final(cs),
            r,
        ),
{
    hash_constraints(cs, inputs, capacity_const, 8, params, sbox_type)
}

/// Emits the constraints of the hash of 8 variables at width 9 and binds
/// the digest to `image`.
#[allow(non_snake_case)]
pub fn Poseidon_hash_8_gadget(
    cs: &mut Circuit,
    input: Vec<usize>,
    capacity_const: usize,
    params: &PoseidonParams,
    sbox_type: &SboxType,
    image: &Fe,
) -> (r: Result<(), PoseidonError>)
    requires
        params.wf(),
        params.width == 9,
        image.wf(),
        capacity_const < old(cs).n_vars,
        forall|k: int| 0 <= k < input@.len() ==> #[trigger] input@[k] < old(cs).n_vars,
        old(cs).n_vars + 9 * params.round_keys@.len() <= usize::MAX,
        old(cs).wf(),
    ensures
        hash_gadget_result(
            *params,
            *sbox_type,
            8,
            input@,
            capacity_const,
            image@,
            *old(cs),
            *final(cs),
            r,
        ),
{
    hash_gadget(cs, input, capacity_const, 8, params, sbox_type, image)
}

} // verus!
