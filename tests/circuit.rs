use amcl_wrapper::field_elem::FieldElement;
use poseidon_amcl::circuit::{Circuit, Constraint, LinComb};
use poseidon_amcl::constraints::{
    Poseidon_hash_2_constraints, Poseidon_hash_2_gadget, Poseidon_hash_4_gadget,
    Poseidon_hash_8_gadget, Poseidon_permutation_constraints, Poseidon_permutation_gadget,
};
use poseidon_amcl::field::Fe;
use poseidon_amcl::hash::{
    PoseidonError, Poseidon_hash_2, Poseidon_hash_4, Poseidon_hash_8, CAP_CONST_W_3,
    CAP_CONST_W_5, CAP_CONST_W_9,
};
use poseidon_amcl::params::PoseidonParams;
use poseidon_amcl::permutation::Poseidon_permutation;
use poseidon_amcl::sbox::SboxType;

fn params(w: usize, beg: usize, partial: usize, end: usize) -> PoseidonParams {
    let rc: Vec<String> =
        (0..(beg + partial + end) * w).map(|i| format!("0x{:x}", i * 7919 + 5)).collect();
    let rc: Vec<&str> = rc.iter().map(|s| s.as_str()).collect();
    let m: Vec<Vec<String>> =
        (0..w).map(|i| (0..w).map(|j| format!("0x{:x}", 2 * i + 5 * j + 3)).collect()).collect();
    let m: Vec<Vec<&str>> = m.iter().map(|r| r.iter().map(|s| s.as_str()).collect()).collect();
    PoseidonParams::new(w, beg, end, partial, &rc, &m).unwrap()
}

fn fe(x: u64) -> Fe {
    Fe::from_u64(x)
}

fn amcl(f: &Fe) -> FieldElement {
    FieldElement::from_bytes(&f.to_bytes()).unwrap()
}

fn eval(lc: &LinComb, x: &[Option<FieldElement>]) -> FieldElement {
    let mut v = amcl(&lc.constant);
    for (var, c) in &lc.terms {
        v = &v + &(&amcl(c) * x[*var].as_ref().unwrap());
    }
    v
}

fn holds(c: &Constraint, x: &[Option<FieldElement>]) -> bool {
    let get = |v: usize| x[v].clone().unwrap();
    match c {
        Constraint::Mul { left, right, l, r, o } => {
            get(*l) == eval(left, x) && get(*r) == eval(right, x) && get(*o) == &get(*l) * &get(*r)
        }
        Constraint::NonZero { var, inv } => &get(*var) * &get(*inv) == FieldElement::one(),
        Constraint::EqualsConst { lc, value } => eval(lc, x) == amcl(value),
        Constraint::Linear { lc, var } => get(*var) == eval(lc, x),
    }
}

/// Computes the witness of every variable that the circuit introduced after
/// the given inputs, in the order of the constraints.
fn solve(cs: &Circuit, inputs: &[(usize, u64)]) -> Vec<Option<FieldElement>> {
    let mut x: Vec<Option<FieldElement>> = vec![None; cs.n_vars];
    for (v, val) in inputs {
        x[*v] = Some(FieldElement::from(*val));
    }
    for c in &cs.constraints {
        match c {
            Constraint::Mul { left, right, l, r, o } => {
                let lv = eval(left, &x);
                x[*l] = Some(lv.clone());
                let rv = if right.terms.len() == 1 && right.terms[0].0 == *r {
                    lv.inverse()
                } else {
                    eval(right, &x)
                };
                x[*r] = Some(rv.clone());
                x[*o] = Some(&lv * &rv);
            }
            Constraint::Linear { lc, var } => x[*var] = Some(eval(lc, &x)),
            _ => {}
        }
    }
    x
}

fn satisfied(cs: &Circuit, x: &[Option<FieldElement>]) -> bool {
    x.iter().all(|v| v.is_some()) && cs.constraints.iter().all(|c| holds(c, x))
}

fn inputs_as_vars(cs: &mut Circuit, vals: &[u64]) -> (Vec<usize>, Vec<(usize, u64)>) {
    let vars: Vec<usize> = vals.iter().map(|_| cs.new_var()).collect();
    let assignment = vars.iter().cloned().zip(vals.iter().cloned()).collect();
    (vars, assignment)
}

fn check_circuit(vals: &[u64], w: usize, beg: usize, partial: usize, end: usize, s: SboxType) {
    let p = params(w, beg, partial, end);
    let mut cs = Circuit::new();
    let (vars, assignment) = inputs_as_vars(&mut cs, vals);
    let lcs: Vec<LinComb> = vars.iter().map(|v| LinComb::var(*v)).collect();
    let out = Poseidon_permutation_constraints(&mut cs, lcs, &p, &s);
    let x = solve(&cs, &assignment);
    assert!(satisfied(&cs, &x));
    let native = Poseidon_permutation(&vals.iter().map(|v| fe(*v)).collect::<Vec<_>>(), &p, &s);
    for i in 0..w {
        assert_eq!(eval(&out[i], &x), amcl(&native[i]));
    }
    // every output combination stays one term per slot
    assert!(out.iter().all(|lc| lc.terms.len() == w));
}

#[test]
fn circuit_matches_native_width_3_quint() {
    check_circuit(&[1, 2, 3], 3, 4, 57, 4, SboxType::Quint);
}

#[test]
fn circuit_matches_native_width_5_cube_zero_input() {
    check_circuit(&[0, 0, 0, 0, 0], 5, 8, 83, 8, SboxType::Cube);
}

#[test]
fn circuit_matches_native_width_9_inverse() {
    check_circuit(&[1, 2, 3, 4, 5, 6, 7, 8, 9], 9, 8, 33, 8, SboxType::Inverse);
}

#[test]
fn gate_counts() {
    for (s, per) in [(SboxType::Cube, 2), (SboxType::Quint, 3), (SboxType::Inverse, 1)] {
        let p = params(3, 2, 5, 2);
        let mut cs = Circuit::new();
        let (vars, _) = inputs_as_vars(&mut cs, &[1, 2, 3]);
        let lcs: Vec<LinComb> = vars.iter().map(|v| LinComb::var(*v)).collect();
        Poseidon_permutation_constraints(&mut cs, lcs, &p, &s);
        let gates = cs.constraints.iter().filter(|c| matches!(c, Constraint::Mul { .. })).count();
        assert_eq!(gates, ((2 + 2) * 3 + 5) * per);
    }
}

#[test]
fn permutation_gadget_binds_outputs() {
    let p = params(3, 2, 5, 2);
    let native = Poseidon_permutation(&[fe(4), fe(5), fe(6)], &p, &SboxType::Cube);
    let mut cs = Circuit::new();
    let (vars, assignment) = inputs_as_vars(&mut cs, &[4, 5, 6]);
    Poseidon_permutation_gadget(&mut cs, vars.clone(), &p, &SboxType::Cube, &native);
    assert!(satisfied(&cs, &solve(&cs, &assignment)));
    let mut wrong = native.clone();
    wrong[2] = wrong[2].add(&fe(1));
    let mut cs = Circuit::new();
    let (vars, assignment) = inputs_as_vars(&mut cs, &[4, 5, 6]);
    Poseidon_permutation_gadget(&mut cs, vars, &p, &SboxType::Cube, &wrong);
    assert!(!satisfied(&cs, &solve(&cs, &assignment)));
}

fn check_hash_gadget(k: usize, w: usize, s: SboxType, cap: u64) {
    let p = params(w, 2, 7, 2);
    let vals: Vec<u64> = (1..=k as u64).collect();
    let ins: Vec<Fe> = vals.iter().map(|v| fe(*v)).collect();
    let h = match k {
        2 => Poseidon_hash_2(ins, &p, &s),
        4 => Poseidon_hash_4(ins, &p, &s),
        _ => Poseidon_hash_8(ins, &p, &s),
    }
    .unwrap();
    for (image, ok) in [(h.duplicate(), true), (h.add(&fe(1)), false)] {
        for (flip, expect) in [(false, ok), (true, false)] {
            let mut cs = Circuit::new();
            let mut vals = vals.clone();
            if flip {
                vals[0] += 1;
            }
            let (vars, mut assignment) = inputs_as_vars(&mut cs, &vals);
            let c = cs.new_var();
            assignment.push((c, cap));
            let r = match k {
                2 => Poseidon_hash_2_gadget(&mut cs, vars, c, &p, &s, &image),
                4 => Poseidon_hash_4_gadget(&mut cs, vars, c, &p, &s, &image),
                _ => Poseidon_hash_8_gadget(&mut cs, vars, c, &p, &s, &image),
            };
            assert_eq!(r, Ok(()));
            assert_eq!(satisfied(&cs, &solve(&cs, &assignment)), expect);
        }
    }
}

#[test]
fn hash_2_gadget_round_trip() {
    check_hash_gadget(2, 3, SboxType::Quint, CAP_CONST_W_3);
}

#[test]
fn hash_4_gadget_round_trip() {
    check_hash_gadget(4, 5, SboxType::Cube, CAP_CONST_W_5);
}

#[test]
fn hash_8_gadget_round_trip() {
    check_hash_gadget(8, 9, SboxType::Inverse, CAP_CONST_W_9);
}

#[test]
fn hash_constraints_output_and_arity() {
    let p = params(3, 4, 57, 4);
    let h = Poseidon_hash_2(vec![fe(10), fe(20)], &p, &SboxType::Quint).unwrap();
    let mut cs = Circuit::new();
    let (vars, mut assignment) = inputs_as_vars(&mut cs, &[10, 20]);
    let c = cs.new_var();
    assignment.push((c, CAP_CONST_W_3));
    let lcs: Vec<LinComb> = vars.iter().map(|v| LinComb::var(*v)).collect();
    let out = Poseidon_hash_2_constraints(&mut cs, lcs, LinComb::var(c), &p, &SboxType::Quint)
        .unwrap();
    let x = solve(&cs, &assignment);
    assert!(satisfied(&cs, &x));
    assert_eq!(eval(&out, &x), amcl(&h));

    let mut cs = Circuit::new();
    let lcs = vec![LinComb::var(0)];
    let before = cs.constraints.len();
    let r = Poseidon_hash_2_constraints(&mut cs, lcs, LinComb::var(0), &p, &SboxType::Quint);
    assert_eq!(r.err(), Some(PoseidonError::IncorrectWidthForPoseidon { width: 2, expected: 1 }));
    assert_eq!(cs.constraints.len(), before);
    let mut cs = Circuit::new();
    let v = cs.new_var();
    let r = Poseidon_hash_4_gadget(&mut cs, vec![v; 3], v, &params(5, 1, 1, 1), &SboxType::Cube, &fe(1));
    assert_eq!(r, Err(PoseidonError::IncorrectWidthForPoseidon { width: 4, expected: 3 }));
}
