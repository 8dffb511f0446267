use amcl_wrapper::field_elem::FieldElement;
use poseidon_amcl::field::Fe;
use poseidon_amcl::hash::{
    PoseidonError, Poseidon_hash_2, Poseidon_hash_4, Poseidon_hash_8, CAP_CONST_W_3,
    CAP_CONST_W_5, CAP_CONST_W_9,
};
use poseidon_amcl::params::{decode_constant, PoseidonParams};
use poseidon_amcl::permutation::Poseidon_permutation;
use poseidon_amcl::sbox::SboxType;

fn round_const_table(n: usize) -> Vec<String> {
    (0..n)
        .map(|i| {
            if i % 4 == 0 {
                // longer than the field: exercises the reduction
                format!("0x{}{:016x}", "f".repeat(64), i)
            } else {
                format!("0x{:x}", (i as u64) * 1_000_003 + 17)
            }
        })
        .collect()
}

fn mds_table(w: usize) -> Vec<Vec<String>> {
    (0..w)
        .map(|i| (0..w).map(|j| format!("0x{:x}", 3 * i + 7 * j + 1)).collect())
        .collect()
}

fn params(w: usize, beg: usize, partial: usize, end: usize) -> PoseidonParams {
    let rc = round_const_table((beg + partial + end) * w);
    let rc: Vec<&str> = rc.iter().map(|s| s.as_str()).collect();
    let m = mds_table(w);
    let m: Vec<Vec<&str>> = m.iter().map(|r| r.iter().map(|s| s.as_str()).collect()).collect();
    PoseidonParams::new(w, beg, end, partial, &rc, &m).unwrap()
}

fn fe(x: u64) -> Fe {
    Fe::from_u64(x)
}

fn to_amcl(f: &Fe) -> FieldElement {
    FieldElement::from_bytes(&f.to_bytes()).unwrap()
}

fn hex(s: &str) -> FieldElement {
    FieldElement::from_hex(s[2..].to_string()).unwrap()
}

fn sbox_ref(s: SboxType, y: &FieldElement) -> FieldElement {
    match s {
        SboxType::Cube => y * y * y,
        SboxType::Quint => y * y * y * y * y,
        SboxType::Inverse => y.inverse(),
    }
}

/// A direct evaluation of the permutation on the same tables.
fn permutation_ref(
    input: &[u64],
    w: usize,
    beg: usize,
    partial: usize,
    end: usize,
    s: SboxType,
) -> Vec<FieldElement> {
    let rc: Vec<FieldElement> = round_const_table((beg + partial + end) * w)
        .iter()
        .map(|c| hex(c))
        .collect();
    let m: Vec<Vec<FieldElement>> = mds_table(w)
        .iter()
        .map(|r| r.iter().map(|c| hex(c)).collect())
        .collect();
    let mut state: Vec<FieldElement> = input.iter().map(|x| FieldElement::from(*x)).collect();
    let mut o = 0;
    for r in 0..(beg + partial + end) {
        let full = r < beg || r >= beg + partial;
        for i in 0..w {
            state[i] = &state[i] + &rc[o];
            o += 1;
            if full || i == w - 1 {
                state[i] = sbox_ref(s, &state[i]);
            }
        }
        let mut next = vec![FieldElement::zero(); w];
        for i in 0..w {
            for j in 0..w {
                next[i] = &next[i] + &(&state[j] * &m[j][i]);
            }
        }
        state = next;
    }
    assert_eq!(o, rc.len());
    state
}

fn check_permutation(input: &[u64], w: usize, beg: usize, partial: usize, end: usize, s: SboxType) {
    let p = params(w, beg, partial, end);
    let inp: Vec<Fe> = input.iter().map(|x| fe(*x)).collect();
    let out = Poseidon_permutation(&inp, &p, &s);
    let expected = permutation_ref(input, w, beg, partial, end, s);
    assert_eq!(out.len(), w);
    for i in 0..w {
        assert_eq!(to_amcl(&out[i]), expected[i]);
    }
    assert_ne!(out, inp);
}

#[test]
fn permutation_width_3_quint() {
    check_permutation(&[1, 2, 3], 3, 4, 57, 4, SboxType::Quint);
}

#[test]
fn permutation_width_5_cube_zero_input() {
    check_permutation(&[0, 0, 0, 0, 0], 5, 8, 83, 8, SboxType::Cube);
}

#[test]
fn permutation_width_9_inverse() {
    check_permutation(&[1, 2, 3, 4, 5, 6, 7, 8, 9], 9, 8, 33, 8, SboxType::Inverse);
}

#[test]
fn hash_2_of_10_20() {
    let p = params(3, 4, 57, 4);
    let h = Poseidon_hash_2(vec![fe(10), fe(20)], &p, &SboxType::Quint).unwrap();
    let expected = permutation_ref(&[CAP_CONST_W_3, 10, 20], 3, 4, 57, 4, SboxType::Quint);
    assert_eq!(to_amcl(&h), expected[1]);
}

#[test]
fn hash_4_of_1_to_4() {
    let p = params(5, 8, 83, 8);
    let h = Poseidon_hash_4(vec![fe(1), fe(2), fe(3), fe(4)], &p, &SboxType::Cube).unwrap();
    let expected = permutation_ref(&[CAP_CONST_W_5, 1, 2, 3, 4], 5, 8, 83, 8, SboxType::Cube);
    assert_eq!(to_amcl(&h), expected[1]);
}

#[test]
fn hash_8_of_1_to_8() {
    let p = params(9, 8, 33, 8);
    let inputs: Vec<Fe> = (1..=8).map(fe).collect();
    let h = Poseidon_hash_8(inputs, &p, &SboxType::Cube).unwrap();
    let expected =
        permutation_ref(&[CAP_CONST_W_9, 1, 2, 3, 4, 5, 6, 7, 8], 9, 8, 33, 8, SboxType::Cube);
    assert_eq!(to_amcl(&h), expected[1]);
}

#[test]
fn hash_arity_guards() {
    let p3 = params(3, 1, 1, 1);
    for n in [0usize, 1, 3] {
        let r = Poseidon_hash_2((0..n as u64).map(fe).collect(), &p3, &SboxType::Cube);
        assert_eq!(r, Err(PoseidonError::IncorrectWidthForPoseidon { width: 2, expected: n }));
    }
    let p5 = params(5, 1, 1, 1);
    for n in [0usize, 3, 5] {
        let r = Poseidon_hash_4((0..n as u64).map(fe).collect(), &p5, &SboxType::Cube);
        assert_eq!(r, Err(PoseidonError::IncorrectWidthForPoseidon { width: 4, expected: n }));
    }
    let p9 = params(9, 1, 1, 1);
    for n in [2usize, 7, 9] {
        let r = Poseidon_hash_8((0..n as u64).map(fe).collect(), &p9, &SboxType::Cube);
        assert_eq!(r, Err(PoseidonError::IncorrectWidthForPoseidon { width: 8, expected: n }));
    }
}

#[test]
fn zero_keys_identity_matrix() {
    let rc = vec!["0x0"; 2 * 3];
    let m = vec![vec!["0x1", "0x0", "0x0"], vec!["0x0", "0x1", "0x0"], vec!["0x0", "0x0", "0x1"]];
    // one full round then one partial round
    let p = PoseidonParams::new(3, 1, 0, 1, &rc, &m).unwrap();
    let out = Poseidon_permutation(&[fe(1), fe(2), fe(3)], &p, &SboxType::Cube);
    assert_eq!(out, vec![fe(1), fe(8), fe(27 * 27 * 27)]);
    let out = Poseidon_permutation(&[fe(2), fe(3), fe(4)], &p, &SboxType::Quint);
    assert_eq!(out, vec![fe(32), fe(243), fe(1u64 << 50)]);
}

#[test]
fn partial_round_swaps_only_mix_linearly() {
    let rc = vec!["0x5"; 3];
    let m = vec![vec!["0x1", "0x0", "0x0"], vec!["0x0", "0x1", "0x0"], vec!["0x0", "0x0", "0x1"]];
    let p = PoseidonParams::new(3, 0, 0, 1, &rc, &m).unwrap();
    let a = Poseidon_permutation(&[fe(1), fe(2), fe(3)], &p, &SboxType::Cube);
    let b = Poseidon_permutation(&[fe(2), fe(1), fe(3)], &p, &SboxType::Cube);
    assert_eq!(a, vec![fe(6), fe(7), fe(512)]);
    assert_eq!(b, vec![fe(7), fe(6), fe(512)]);
}

#[test]
fn sbox_values() {
    assert_eq!(SboxType::Cube.apply_sbox(&fe(3)), fe(27));
    assert_eq!(SboxType::Quint.apply_sbox(&fe(3)), fe(243));
    let inv = SboxType::Inverse.apply_sbox(&fe(7));
    assert_eq!(inv.mul(&fe(7)), fe(1));
    assert_eq!(SboxType::Inverse.apply_sbox(&Fe::zero()), Fe::zero());
}

#[test]
fn field_operations() {
    assert_eq!(fe(5).add(&fe(6)), fe(11));
    assert_eq!(fe(5).mul(&fe(6)), fe(30));
    assert_eq!(fe(9).square(), fe(81));
    let m1 = decode_constant(
        "0x73eda753299d7d483339d80809a1d80553bda402fffe5bfeffffffff00000000",
    )
    .unwrap();
    assert_eq!(to_amcl(&m1), to_amcl(&Fe::zero()) - FieldElement::one());
    assert_eq!(m1.add(&fe(1)), Fe::zero());
    assert_eq!(m1.mul(&m1), fe(1));
    assert_eq!(m1.add(&fe(3)).square(), fe(4));
    let modulus_plus_two = decode_constant(
        "0x73eda753299d7d483339d80809a1d80553bda402fffe5bfeffffffff00000003",
    );
    assert_eq!(modulus_plus_two, Some(fe(2)));
    let mut b = vec![0u8; 48];
    b[47] = 42;
    assert_eq!(fe(42).to_bytes(), b);
}

#[test]
fn constant_decoding() {
    assert_eq!(decode_constant("0x1f"), Some(fe(31)));
    assert_eq!(decode_constant("0xAbC"), Some(fe(0xabc)));
    assert_eq!(decode_constant("0x"), Some(Fe::zero()));
    assert_eq!(decode_constant("1f"), None);
    assert_eq!(decode_constant("0y1f"), None);
    assert_eq!(decode_constant("0x1g"), None);
    assert_eq!(decode_constant(&format!("0x{}", "1".repeat(97))), None);
}

#[test]
fn params_errors() {
    let rc = round_const_table(30);
    let rc: Vec<&str> = rc.iter().map(|s| s.as_str()).collect();
    let m = mds_table(3);
    let m: Vec<Vec<&str>> = m.iter().map(|r| r.iter().map(|s| s.as_str()).collect()).collect();
    assert_eq!(
        PoseidonParams::new(4, 1, 1, 1, &rc, &m).err(),
        Some(PoseidonError::UnsupportedWidth { width: 4 })
    );
    assert_eq!(
        PoseidonParams::new(3, 4, 4, 3, &rc, &m).err(),
        Some(PoseidonError::NotEnoughRoundConstants { needed: 33, found: 30 })
    );
    assert_eq!(
        PoseidonParams::new(3, usize::MAX, 1, 1, &rc, &m).err(),
        Some(PoseidonError::NotEnoughRoundConstants { needed: usize::MAX, found: 30 })
    );
    let mut bad = rc.clone();
    bad[3] = "12";
    assert_eq!(
        PoseidonParams::new(3, 1, 1, 1, &bad, &m).err(),
        Some(PoseidonError::MalformedConstant)
    );
    // entries past those the schedule uses are not read
    bad[3] = rc[3];
    bad[20] = "zz";
    assert!(PoseidonParams::new(3, 1, 1, 1, &bad, &m).is_ok());
    let short = vec![m[0].clone(), m[1].clone()];
    assert_eq!(
        PoseidonParams::new(3, 1, 1, 1, &rc, &short).err(),
        Some(PoseidonError::IncorrectMdsShape { width: 3 })
    );
    let mut ragged = m.clone();
    ragged[2].pop();
    assert_eq!(
        PoseidonParams::new(3, 1, 1, 1, &rc, &ragged).err(),
        Some(PoseidonError::IncorrectMdsShape { width: 3 })
    );
    let mut badm = m.clone();
    badm[1][1] = "0xq";
    assert_eq!(
        PoseidonParams::new(3, 1, 1, 1, &rc, &badm).err(),
        Some(PoseidonError::MalformedConstant)
    );
    let p = PoseidonParams::new(3, 2, 1, 3, &rc, &m).unwrap();
    assert_eq!(p.round_keys.len(), 18);
    assert_eq!(p.MDS_matrix[2][1], fe(14));
    assert_eq!(p.round_keys[1], fe(1_000_020));
}
