//! A rank-1 constraint system under construction: linear combinations over
//! numbered variables, and the constraints that a witness must meet.
use crate::field::{fadd, fmul, lemma_fadd_assoc, lemma_inverse_unique, modulus, Fe};
use vstd::arithmetic::div_mod::lemma_small_mod;
use vstd::prelude::*;

verus! {

/// `constant + sum of coefficient * variable`.
pub struct LinComb {
    pub terms: Vec<(usize, Fe)>,
    pub constant: Fe,
}

pub enum Constraint {
    /// A multiplication gate: `l = left`, `r = right` and `o = l * r`.
    Mul { left: LinComb, right: LinComb, l: usize, r: usize, o: usize },
    /// `var` is non-zero, with `inv` as its inverse.
    NonZero { var: usize, inv: usize },
    /// The linear combination equals `value`.
    EqualsConst { lc: LinComb, value: Fe },
    /// The variable equals the linear combination; no gate.
    Linear { lc: LinComb, var: usize },
}

/// The constraints emitted so far, over variables `0 .. n_vars`.
pub struct Circuit {
    pub n_vars: usize,
    pub constraints: Vec<Constraint>,
}

pub open spec fn term_vals(t: Seq<(usize, Fe)>) -> Seq<(usize, int)> {
    t.map_values(|p: (usize, Fe)| (p.0, p.1@))
}

/// The sum of the terms under the assignment `x`.
pub open spec fn terms_value(t: Seq<(usize, int)>, x: Seq<int>) -> int
    decreases t.len(),
{
    if t.len() == 0 {
        0
    } else {
        fadd(terms_value(t.drop_last(), x), fmul(t.last().1, x[t.last().0 as int]))
    }
}

pub open spec fn lc_value(lc: LinComb, x: Seq<int>) -> int {
    fadd(terms_value(term_vals(lc.terms@), x), lc.constant@)
}

pub open spec fn lc_values(v: Seq<LinComb>, x: Seq<int>) -> Seq<int> {
    v.map_values(|lc: LinComb| lc_value(lc, x))
}

impl LinComb {
    pub open spec fn wf(&self) -> bool {
        &&& self.constant.wf()
        &&& forall|i: int| 0 <= i < self.terms@.len() ==> (#[trigger] self.terms@[i]).1.wf()
    }

    /// The combination holding the variable `v` alone.
    pub fn var(v: usize) -> (r: LinComb)
        ensures
            r.wf(),
            lc_below(r, v + 1),
            r.terms@.len() == 1,
            forall|x: Seq<int>|
                0 <= x[v as int] < modulus() ==> #[trigger] lc_value(r, x) == x[v as int],
    {
        let mut terms: Vec<(usize, Fe)> = Vec::new();
        terms.push((v, Fe::from_u64(1)));
        let r = LinComb { terms, constant: Fe::zero() };
        assert forall|x: Seq<int>| 0 <= x[v as int] < modulus() implies #[trigger] lc_value(r, x)
            == x[v as int] by {
            let t = term_vals(r.terms@);
            let a = x[v as int];
            assert(t.len() == 1);
            assert(t.last() == (v, 1int));
            assert(t.drop_last().len() == 0);
            lemma_small_mod(a as nat, modulus() as nat);
            assert(1 * a == a);
            assert(fmul(1, a) == a);
            assert(0 + a == a);
            assert(fadd(0, a) == a);
            assert(a + 0 == a);
            assert(terms_value(t.drop_last(), x) == 0);
            assert(terms_value(t, x) == fadd(0, fmul(1, a)));
            assert(terms_value(t, x) == a);
        }
        r
    }

    /// The same combination with `k` added to its constant.
    pub fn plus_const(&self, k: &Fe) -> (r: LinComb)
        requires
            self.wf(),
            k.wf(),
        ensures
            r.wf(),
            forall|n: int| lc_below(*self, n) ==> #[trigger] lc_below(r, n),
            forall|x: Seq<int>| #[trigger] lc_value(r, x) == fadd(lc_value(*self, x), k@),
    {
        let r = LinComb { terms: self.copy_terms(), constant: self.constant.add(k) };
        assert forall|x: Seq<int>| #[trigger] lc_value(r, x) == fadd(lc_value(*self, x), k@) by {
            let t = terms_value(term_vals(self.terms@), x);
            lemma_terms_value_range(term_vals(self.terms@), x);
            self.constant.lemma_range();
            k.lemma_range();
            lemma_fadd_assoc(t, self.constant@, k@);
        }
        r
    }

    /// A second combination with the same terms and constant.
    pub fn duplicate(&self) -> (r: LinComb)
        requires
            self.wf(),
        ensures
            r.wf(),
            r.terms@.len() == self.terms@.len(),
            forall|n: int| lc_below(*self, n) ==> #[trigger] lc_below(r, n),
            forall|x: Seq<int>| #[trigger] lc_value(r, x) == lc_value(*self, x),
    {
        LinComb { terms: self.copy_terms(), constant: self.constant.duplicate() }
    }

    fn copy_terms(&self) -> (r: Vec<(usize, Fe)>)
        requires
            self.wf(),
        ensures
            term_vals(r@) == term_vals(self.terms@),
            r@.len() == self.terms@.len(),
            forall|i: int| 0 <= i < r@.len() ==> (#[trigger] r@[i]).1.wf() && r@[i].0
                == self.terms@[i].0,
    {
        let mut out: Vec<(usize, Fe)> = Vec::new();
        let mut i: usize = 0;
        while i < self.terms.len()
            invariant
                self.wf(),
                i <= self.terms@.len(),
                out@.len() == i,
                forall|k: int|
                    0 <= k < i ==> (#[trigger] out@[k]).1.wf() && out@[k].0 == self.terms@[k].0
                        && out@[k].1@ == self.terms@[k].1@,
            decreases self.terms@.len() - i,
        {
            let (v, c) = (self.terms[i].0, self.terms[i].1.duplicate());
            out.push((v, c));
            i += 1;
        }
        assert(term_vals(out@) =~= term_vals(self.terms@));
        out
    }
}

pub proof fn lemma_terms_value_range(t: Seq<(usize, int)>, x: Seq<int>)
    ensures
        0 <= terms_value(t, x) < modulus(),
    decreases t.len(),
{
    if t.len() > 0 {
        lemma_terms_value_range(t.drop_last(), x);
    }
}

/// Every variable of the combination is below `n`.
pub open spec fn lc_below(lc: LinComb, n: int) -> bool {
    forall|i: int| 0 <= i < lc.terms@.len() ==> (#[trigger] lc.terms@[i]).0 < n
}

/// Every variable of the constraint is below `n`.
pub open spec fn constraint_below(c: Constraint, n: int) -> bool {
    match c {
        Constraint::Mul { left, right, l, r, o } => lc_below(left, n) && lc_below(right, n) && l
            < n && r < n && o < n,
        Constraint::NonZero { var, inv } => var < n && inv < n,
        Constraint::EqualsConst { lc, value } => lc_below(lc, n),
        Constraint::Linear { lc, var } => lc_below(lc, n) && var < n,
    }
}

/// `x` and `y` agree on the variables below `n`.
pub open spec fn agree(x: Seq<int>, y: Seq<int>, n: int) -> bool {
    &&& 0 <= n <= x.len()
    &&& n <= y.len()
    &&& forall|k: int| #![trigger x[k]] #![trigger y[k]] 0 <= k < n ==> x[k] == y[k]
}

proof fn lemma_terms_agree(t: Seq<(usize, int)>, x: Seq<int>, y: Seq<int>, n: int)
    requires
        forall|i: int| 0 <= i < t.len() ==> (#[trigger] t[i]).0 < n,
        agree(x, y, n),
    ensures
        terms_value(t, x) == terms_value(t, y),
    decreases t.len(),
{
    if t.len() > 0 {
        lemma_terms_agree(t.drop_last(), x, y, n);
        assert(t.last() == t[t.len() - 1]);
    }
}

/// The value of a combination depends only on the variables it names.
pub proof fn lemma_lc_agree(lc: LinComb, x: Seq<int>, y: Seq<int>, n: int)
    requires
        lc_below(lc, n),
        agree(x, y, n),
    ensures
        lc_value(lc, x) == lc_value(lc, y),
{
    let t = term_vals(lc.terms@);
    assert forall|i: int| 0 <= i < t.len() implies (#[trigger] t[i]).0 < n by {
        assert(lc.terms@[i].0 < n);
    }
    lemma_terms_agree(t, x, y, n);
}

proof fn lemma_holds_agree(c: Constraint, x: Seq<int>, y: Seq<int>, n: int)
    requires
        constraint_below(c, n),
        agree(x, y, n),
        holds(c, x),
    ensures
        holds(c, y),
{
    match c {
        Constraint::Mul { left, right, l, r, o } => {
            lemma_lc_agree(left, x, y, n);
            lemma_lc_agree(right, x, y, n);
        },
        Constraint::NonZero { var, inv } => {},
        Constraint::EqualsConst { lc, value } => {
            lemma_lc_agree(lc, x, y, n);
        },
        Constraint::Linear { lc, var } => {
            lemma_lc_agree(lc, x, y, n);
        },
    }
}

/// A witness stays a witness when only variables the circuit does not name
/// change.
pub proof fn lemma_satisfied_agree(c: Circuit, x: Seq<int>, y: Seq<int>)
    requires
        c.wf(),
        satisfied(c, x),
        agree(x, y, c.n_vars as int),
    ensures
        satisfied(c, y),
{
    assert forall|i: int| 0 <= i < c.constraints@.len() implies holds(
        #[trigger] c.constraints@[i],
        y,
    ) by {
        lemma_holds_agree(c.constraints@[i], x, y, c.n_vars as int);
    }
}

/// Some witness of `b` agrees with `x` on the variables of `a`.
pub open spec fn completable(a: Circuit, b: Circuit, x: Seq<int>) -> bool {
    exists|y: Seq<int>|
        y.len() == b.n_vars && agree(x, y, a.n_vars as int) && #[trigger] satisfied(b, y)
}

pub proof fn lemma_agree_trans(x: Seq<int>, y: Seq<int>, z: Seq<int>, n: int, m: int)
    requires
        agree(x, y, n),
        agree(y, z, m),
        n <= m,
    ensures
        agree(x, z, n),
{
    assert forall|k: int| 0 <= k < n implies x[k] == z[k] by {
        assert(x[k] == y[k]);
        assert(y[k] == z[k]);
    }
}

/// A witness of `b` that agrees with `x` on `a`'s variables, and that can be
/// completed to one of `c`, gives a completion of `x` to `c`.
pub proof fn lemma_completable_step(a: Circuit, b: Circuit, c: Circuit, x: Seq<int>, y: Seq<int>)
    requires
        a.n_vars <= b.n_vars,
        agree(x, y, a.n_vars as int),
        completable(b, c, y),
    ensures
        completable(a, c, x),
{
    let z = choose|z: Seq<int>|
        z.len() == c.n_vars && agree(y, z, b.n_vars as int) && #[trigger] satisfied(c, z);
    lemma_agree_trans(x, y, z, a.n_vars as int, b.n_vars as int);
}

pub proof fn lemma_completable_refl(c: Circuit, x: Seq<int>)
    requires
        c.wf(),
        satisfied(c, x),
    ensures
        completable(c, c, x),
{
    let y = x.subrange(0, c.n_vars as int);
    lemma_satisfied_agree(c, x, y);
}

/// Whether the constraint holds under the assignment `x`.
pub open spec fn holds(c: Constraint, x: Seq<int>) -> bool {
    match c {
        Constraint::Mul { left, right, l, r, o } => {
            &&& x[l as int] == lc_value(left, x)
            &&& x[r as int] == lc_value(right, x)
            &&& x[o as int] == fmul(x[l as int], x[r as int])
        },
        Constraint::NonZero { var, inv } => fmul(x[var as int], x[inv as int]) == 1,
        Constraint::EqualsConst { lc, value } => lc_value(lc, x) == value@,
        Constraint::Linear { lc, var } => x[var as int] == lc_value(lc, x),
    }
}

/// `x` assigns a field element to every variable and meets every constraint.
pub open spec fn satisfied(c: Circuit, x: Seq<int>) -> bool {
    &&& x.len() >= c.n_vars
    &&& forall|k: int| 0 <= k < c.n_vars ==> 0 <= #[trigger] x[k] < modulus()
    &&& forall|i: int| 0 <= i < c.constraints@.len() ==> holds(#[trigger] c.constraints@[i], x)
}

/// The number of multiplication gates among the constraints.
pub open spec fn gate_count(s: Seq<Constraint>) -> nat
    decreases s.len(),
{
    if s.len() == 0 {
        0
    } else {
        gate_count(s.drop_last()) + if s.last() is Mul {
            1nat
        } else {
            0nat
        }
    }
}

/// `b` was reached from `a` by adding variables and constraints.
pub open spec fn extends(a: Circuit, b: Circuit) -> bool {
    a.n_vars <= b.n_vars && a.constraints@.is_prefix_of(b.constraints@)
}

pub proof fn lemma_extends_trans(a: Circuit, b: Circuit, c: Circuit)
    requires
        extends(a, b),
        extends(b, c),
    ensures
        extends(a, c),
{
    assert(a.constraints@ =~= c.constraints@.subrange(0, a.constraints@.len() as int)) by {
        assert forall|i: int| 0 <= i < a.constraints@.len() implies a.constraints@[i]
            == c.constraints@[i] by {
            assert(a.constraints@[i] == b.constraints@.subrange(0, a.constraints@.len() as int)[i]);
            assert(b.constraints@[i] == c.constraints@.subrange(0, b.constraints@.len() as int)[i]);
        }
    }
}

/// A witness of a circuit is a witness of every circuit that it extends.
pub proof fn lemma_satisfied_extends(a: Circuit, b: Circuit, x: Seq<int>)
    requires
        extends(a, b),
        satisfied(b, x),
    ensures
        satisfied(a, x),
{
    assert forall|i: int| 0 <= i < a.constraints@.len() implies holds(
        #[trigger] a.constraints@[i],
        x,
    ) by {
        assert(a.constraints@[i] == b.constraints@.subrange(0, a.constraints@.len() as int)[i]);
        assert(holds(b.constraints@[i], x));
    }
}

impl Circuit {
    /// Every constraint names only variables of the circuit.
    pub open spec fn wf(&self) -> bool {
        forall|i: int|
            0 <= i < self.constraints@.len() ==> constraint_below(
                #[trigger] self.constraints@[i],
                self.n_vars as int,
            )
    }

    /// An empty circuit.
    pub fn new() -> (r: Circuit)
        ensures
            r.wf(),
            r.n_vars == 0,
            r.constraints@.len() == 0,
    {
        Circuit { n_vars: 0, constraints: Vec::new() }
    }

    /// Introduces a fresh variable.
    pub fn new_var(&mut self) -> (v: usize)
        requires
            old(self).wf(),
            old(self).n_vars < usize::MAX,
        ensures
            final(self).wf(),
            v == old(self).n_vars,
            final(self).n_vars == old(self).n_vars + 1,
            final(self).constraints@ == old(self).constraints@,
            forall|x: Seq<int>| #[trigger]
                satisfied(*old(self), x) ==> completable(*old(self), *final(self), x),
    {
        let v = self.n_vars;
        self.n_vars = v + 1;
        proof {
            lemma_wf_grow(*old(self), *self);
            assert forall|x: Seq<int>| #[trigger] satisfied(*old(self), x) implies completable(
                *old(self),
                *self,
                x,
            ) by {
                let y = x.subrange(0, v as int).push(0);
                lemma_satisfied_agree(*old(self), x, y);
                assert(satisfied(*self, y));
            }
        }
        v
    }

    pub(crate) fn add(&mut self, c: Constraint)
        requires
            old(self).wf(),
            constraint_below(c, old(self).n_vars as int),
        ensures
            final(self).wf(),
            final(self).n_vars == old(self).n_vars,
            final(self).constraints@ == old(self).constraints@.push(c),
            gate_count(final(self).constraints@) == gate_count(old(self).constraints@) + if c is Mul {
                1nat
            } else {
                0nat
            },
    {
        self.constraints.push(c);
        assert(self.constraints@.drop_last() =~= old(self).constraints@);
        assert forall|i: int| 0 <= i < self.constraints@.len() implies constraint_below(
            #[trigger] self.constraints@[i],
            self.n_vars as int,
        ) by {
            if i < old(self).constraints@.len() {
                assert(self.constraints@[i] == old(self).constraints@[i]);
            }
        }
    }

    /// Introduces a variable bound to `lc` by a linear constraint.
    pub fn linear(&mut self, lc: LinComb) -> (v: usize)
        requires
            old(self).wf(),
            lc_below(lc, old(self).n_vars as int),
            old(self).n_vars < usize::MAX,
        ensures
            final(self).wf(),
            extends(*old(self), *final(self)),
            final(self).n_vars == old(self).n_vars + 1,
            gate_count(final(self).constraints@) == gate_count(old(self).constraints@),
            v == old(self).n_vars,
            forall|x: Seq<int>| #[trigger]
                satisfied(*final(self), x) ==> x[v as int] == lc_value(lc, x),
            forall|x: Seq<int>| #[trigger]
                satisfied(*old(self), x) ==> completable(*old(self), *final(self), x),
    {
        let ghost c0 = *self;
        let v = self.new_var();
        let ghost c1 = *self;
        proof {
            lemma_lc_below_grow(lc, c0.n_vars as int, c1.n_vars as int);
        }
        self.add(Constraint::Linear { lc, var: v });
        assert forall|x: Seq<int>| #[trigger] satisfied(*self, x) implies x[v as int] == lc_value(
            lc,
            x,
        ) by {
            assert(holds(self.constraints@[self.constraints@.len() - 1], x));
        }
        assert(c0.constraints@ =~= self.constraints@.subrange(0, c0.constraints@.len() as int));
        assert forall|x: Seq<int>| #[trigger] satisfied(c0, x) implies completable(c0, *self, x) by {
            let n = c0.n_vars as int;
            let y = x.subrange(0, n).push(lc_value(lc, x));
            lemma_satisfied_agree(c0, x, y);
            lemma_lc_agree(lc, x, y, n);
            lemma_terms_value_range(term_vals(lc.terms@), x);
            let last = self.constraints@.len() - 1;
            assert(holds(self.constraints@[last], y));
            assert forall|i: int| 0 <= i < self.constraints@.len() implies holds(
                #[trigger] self.constraints@[i],
                y,
            ) by {
                if i < last {
                    assert(self.constraints@[i] == c0.constraints@[i]);
                }
            }
            assert(satisfied(*self, y));
        }
        v
    }

    /// Adds a multiplication gate for `left * right`; returns its three wires.
    pub fn multiply(&mut self, left: LinComb, right: LinComb) -> (r: (usize, usize, usize))
        requires
            old(self).wf(),
            lc_below(left, old(self).n_vars as int),
            lc_below(right, old(self).n_vars as int),
            old(self).n_vars + 3 <= usize::MAX,
        ensures
            final(self).wf(),
            extends(*old(self), *final(self)),
            final(self).n_vars == old(self).n_vars + 3,
            final(self).constraints@ == old(self).constraints@.push(
                Constraint::Mul { left, right, l: r.0, r: r.1, o: r.2 },
            ),
            gate_count(final(self).constraints@) == gate_count(old(self).constraints@) + 1,
            r.0 == old(self).n_vars && r.1 == old(self).n_vars + 1 && r.2 == old(self).n_vars + 2,
            forall|x: Seq<int>| #[trigger]
                satisfied(*final(self), x) ==> {
                    &&& x[r.0 as int] == lc_value(left, x)
                    &&& x[r.1 as int] == lc_value(right, x)
                    &&& x[r.2 as int] == fmul(x[r.0 as int], x[r.1 as int])
                },
            forall|x: Seq<int>| #[trigger]
                satisfied(*old(self), x) ==> completable(*old(self), *final(self), x),
    {
        let ghost c0 = *self;
        let l = self.new_var();
        let r = self.new_var();
        let o = self.new_var();
        proof {
            lemma_lc_below_grow(left, c0.n_vars as int, self.n_vars as int);
            lemma_lc_below_grow(right, c0.n_vars as int, self.n_vars as int);
        }
        self.add(Constraint::Mul { left, right, l, r, o });
        assert forall|x: Seq<int>| #[trigger] satisfied(*self, x) implies {
            &&& x[l as int] == lc_value(left, x)
            &&& x[r as int] == lc_value(right, x)
            &&& x[o as int] == fmul(x[l as int], x[r as int])
        } by {
            assert(holds(self.constraints@[self.constraints@.len() - 1], x));
        }
        assert(c0.constraints@ =~= self.constraints@.subrange(0, c0.constraints@.len() as int));
        assert forall|x: Seq<int>| #[trigger] satisfied(c0, x) implies completable(c0, *self, x) by {
            let n = c0.n_vars as int;
            let a = lc_value(left, x);
            let b = lc_value(right, x);
            let y = x.subrange(0, n).push(a).push(b).push(fmul(a, b));
            lemma_satisfied_agree(c0, x, y);
            lemma_lc_agree(left, x, y, n);
            lemma_lc_agree(right, x, y, n);
            lemma_terms_value_range(term_vals(left.terms@), x);
            lemma_terms_value_range(term_vals(right.terms@), x);
            let last = self.constraints@.len() - 1;
            assert(holds(self.constraints@[last], y));
            assert forall|i: int| 0 <= i < self.constraints@.len() implies holds(
                #[trigger] self.constraints@[i],
                y,
            ) by {
                if i < last {
                    assert(self.constraints@[i] == c0.constraints@[i]);
                }
            }
            assert(satisfied(*self, y));
        }
        (l, r, o)
    }
}

pub proof fn lemma_lc_below_grow(lc: LinComb, n: int, m: int)
    requires
        lc_below(lc, n),
        n <= m,
    ensures
        lc_below(lc, m),
{
}

proof fn lemma_wf_grow(a: Circuit, b: Circuit)
    requires
        a.wf(),
        a.constraints@ == b.constraints@,
        a.n_vars <= b.n_vars,
    ensures
        b.wf(),
{
    assert forall|i: int| 0 <= i < b.constraints@.len() implies constraint_below(
        #[trigger] b.constraints@[i],
        b.n_vars as int,
    ) by {
        let c = a.constraints@[i];
        assert(constraint_below(c, a.n_vars as int));
        match c {
            Constraint::Mul { left, right, l, r, o } => {
                lemma_lc_below_grow(left, a.n_vars as int, b.n_vars as int);
                lemma_lc_below_grow(right, a.n_vars as int, b.n_vars as int);
            },
            Constraint::EqualsConst { lc, value } => {
                lemma_lc_below_grow(lc, a.n_vars as int, b.n_vars as int);
            },
            Constraint::Linear { lc, var } => {
                lemma_lc_below_grow(lc, a.n_vars as int, b.n_vars as int);
            },
            _ => {},
        }
    }
}

} // verus!
