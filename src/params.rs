//! The parameter block of a permutation: widths, round schedule, round keys
//! and the MDS matrix.
use crate::field::{hex_val, is_hex_digit, modulus, Fe, FE_BYTES};
use crate::hash::PoseidonError;
use vstd::prelude::*;
use vstd::slice::slice_subrange;
use vstd::string::StringSliceAdditionalSpecFns;

verus! {

/// The values of a sequence of field elements.
pub open spec fn fe_vals(v: Seq<Fe>) -> Seq<int> {
    v.map_values(|f: Fe| f@)
}

/// The values of a matrix of field elements.
pub open spec fn mat_vals(m: Seq<Vec<Fe>>) -> Seq<Seq<int>> {
    m.map_values(|row: Vec<Fe>| fe_vals(row@))
}

pub open spec fn all_wf(v: Seq<Fe>) -> bool {
    forall|i: int| 0 <= i < v.len() ==> (#[trigger] v[i]).wf()
}

pub open spec fn supported_width(w: int) -> bool {
    w == 3 || w == 5 || w == 9
}

/// A table entry: `0x` followed by at most `2 * FE_BYTES` hexadecimal digits.
pub open spec fn well_formed_constant(s: &str) -> bool {
    let b = s.spec_bytes();
    &&& 2 <= b.len() <= 2 + 2 * FE_BYTES
    &&& b[0] == 0x30 && b[1] == 0x78
    &&& forall|i: int| 2 <= i < b.len() ==> is_hex_digit(#[trigger] b[i])
}

/// The field element that a well-formed entry denotes.
pub open spec fn constant_value(s: &str) -> int {
    let b = s.spec_bytes();
    hex_val(b.subrange(2, b.len() as int)) % modulus()
}

pub open spec fn all_well_formed(entries: Seq<&str>, n: int) -> bool {
    forall|i: int| 0 <= i < n ==> well_formed_constant(#[trigger] entries[i])
}

/// The values of the first `n` entries.
pub open spec fn decoded(entries: Seq<&str>, n: int) -> Seq<int> {
    Seq::new(n as nat, |i: int| constant_value(entries[i]))
}

pub open spec fn mds_shape_ok(m: Seq<Vec<&str>>, w: int) -> bool {
    m.len() == w && forall|j: int| 0 <= j < w ==> (#[trigger] m[j])@.len() == w
}

pub open spec fn mds_well_formed(m: Seq<Vec<&str>>, w: int) -> bool {
    forall|j: int| 0 <= j < w ==> all_well_formed((#[trigger] m[j])@, w)
}

pub open spec fn decoded_mds(m: Seq<Vec<&str>>, w: int) -> Seq<Seq<int>> {
    Seq::new(w as nat, |j: int| decoded(m[j]@, w))
}

fn is_hex_byte(c: u8) -> (r: bool)
    ensures
        r == is_hex_digit(c),
{
    (0x30 <= c && c <= 0x39) || (0x41 <= c && c <= 0x46) || (0x61 <= c && c <= 0x66)
}

/// Decodes one table entry; `None` where it is not well formed.
pub fn decode_constant(s: &str) -> (r: Option<Fe>)
    ensures
        r is Some <==> well_formed_constant(s),
        r is Some ==> r->0.wf() && r->0@ == constant_value(s),
{
    let b = s.as_bytes();
    let n = b.len();
    if n < 2 || n > 2 + 2 * FE_BYTES || b[0] != 0x30 || b[1] != 0x78 {
        return None;
    }
    let mut i: usize = 2;
    while i < n
        invariant
            b@ == s.spec_bytes(),
            n == b@.len(),
            2 <= i <= n,
            forall|k: int| 2 <= k < i ==> is_hex_digit(#[trigger] b@[k]),
        decreases n - i,
    {
        if !is_hex_byte(b[i]) {
            return None;
        }
        i += 1;
    }
    let digits = slice_subrange(b, 2, n);
    assert forall|k: int| 0 <= k < digits@.len() implies is_hex_digit(#[trigger] digits@[k]) by {
        assert(digits@[k] == b@[k + 2]);
    }
    Some(Fe::from_hex_digits(digits))
}

/// Decodes the first `n` entries; `None` where one of them is not well formed.
fn decode_constants(entries: &[&str], n: usize) -> (r: Option<Vec<Fe>>)
    requires
        n <= entries@.len(),
    ensures
        r is Some <==> all_well_formed(entries@, n as int),
        r is Some ==> r->0@.len() == n && all_wf(r->0@) && fe_vals(r->0@) == decoded(
            entries@,
            n as int,
        ),
{
    let mut out: Vec<Fe> = Vec::new();
    let mut i: usize = 0;
    while i < n
        invariant
            n <= entries@.len(),
            i <= n,
            all_well_formed(entries@, i as int),
            out@.len() == i,
            all_wf(out@),
            forall|k: int| 0 <= k < i ==> (#[trigger] out@[k])@ == constant_value(entries@[k]),
        decreases n - i,
    {
        match decode_constant(entries[i]) {
            Some(c) => out.push(c),
            None => return None,
        }
        i += 1;
    }
    assert(fe_vals(out@) =~= decoded(entries@, n as int));
    Some(out)
}

#[allow(non_snake_case)]
#[derive(Clone, Debug)]
pub struct PoseidonParams {
    pub width: usize,
    /// Number of full S-box rounds before the partial rounds.
    pub full_rounds_beginning: usize,
    /// Number of full S-box rounds after the partial rounds.
    pub full_rounds_end: usize,
    /// Number of partial S-box rounds.
    pub partial_rounds: usize,
    pub round_keys: Vec<Fe>,
    /// Indexed `[j][i]`: output `i` of the linear layer is the inner product
    /// of the state with column `i`.
    pub MDS_matrix: Vec<Vec<Fe>>,
}

impl PoseidonParams {
    pub open spec fn total_rounds(&self) -> int {
        self.full_rounds_beginning + self.partial_rounds + self.full_rounds_end
    }

    pub open spec fn keys(&self) -> Seq<int> {
        fe_vals(self.round_keys@)
    }

    pub open spec fn mds(&self) -> Seq<Seq<int>> {
        mat_vals(self.MDS_matrix@)
    }

    /// Whether round `r` (counted from zero) applies the S-box to every slot.
    pub open spec fn is_full_round(&self, r: int) -> bool {
        r < self.full_rounds_beginning || r >= self.full_rounds_beginning + self.partial_rounds
    }

    pub open spec fn wf(&self) -> bool {
        &&& supported_width(self.width as int)
        &&& self.round_keys@.len() == self.total_rounds() * self.width
        &&& all_wf(self.round_keys@)
        &&& self.MDS_matrix@.len() == self.width
        &&& forall|j: int|
            0 <= j < self.width ==> (#[trigger] self.MDS_matrix@[j])@.len() == self.width
                && all_wf(self.MDS_matrix@[j]@)
    }
}

impl PoseidonParams {
    /// Builds the parameters of a permutation of the given width and round
    /// schedule from its tables of round constants and MDS entries. Every
    /// entry is `0x` followed by hexadecimal digits; only the first
    /// `total_rounds * width` round constants are used.
    pub fn new(
        width: usize,
        full_rounds_beginning: usize,
        full_rounds_end: usize,
        partial_rounds: usize,
        round_consts: &[&str],
        mds_entries: &[Vec<&str>],
    ) -> (r: Result<PoseidonParams, PoseidonError>)
        ensures
            !supported_width(width as int) <==> r == Err::<PoseidonParams, PoseidonError>(
                PoseidonError::UnsupportedWidth { width },
            ),
            ({
                let total = full_rounds_beginning + partial_rounds + full_rounds_end;
                let cap = total * width;
                let ok_count = supported_width(width as int) && cap <= round_consts@.len();
                let ok_keys = ok_count && all_well_formed(round_consts@, cap);
                let ok_shape = ok_keys && mds_shape_ok(mds_entries@, width as int);
                &&& (supported_width(width as int) && !ok_count) ==> r == Err::<
                    PoseidonParams,
                    PoseidonError,
                >(
                    PoseidonError::NotEnoughRoundConstants {
                        needed: if cap <= usize::MAX {
                            cap as usize
                        } else {
                            usize::MAX
                        },
                        found: #[verifier::truncate] (round_consts@.len() as usize),
                    },
                )
                &&& (ok_count && !ok_keys) ==> r == Err::<PoseidonParams, PoseidonError>(
                    PoseidonError::MalformedConstant,
                )
                &&& (ok_keys && !ok_shape) ==> r == Err::<PoseidonParams, PoseidonError>(
                    PoseidonError::IncorrectMdsShape { width },
                )
                &&& ok_shape ==> (r is Ok <==> mds_well_formed(mds_entries@, width as int))
                &&& (ok_shape && !mds_well_formed(mds_entries@, width as int)) ==> r == Err::<
                    PoseidonParams,
                    PoseidonError,
                >(PoseidonError::MalformedConstant)
            }),
            r is Ok ==> ({
                let p = r->Ok_0;
                &&& p.wf()
                &&& p.width == width
                &&& p.full_rounds_beginning == full_rounds_beginning
                &&& p.full_rounds_end == full_rounds_end
                &&& p.partial_rounds == partial_rounds
                &&& p.keys() == decoded(round_consts@, p.total_rounds() * width)
                &&& p.mds() == decoded_mds(mds_entries@, width as int)
            }),
    {
        if width != 3 && width != 5 && width != 9 {
            return Err(PoseidonError::UnsupportedWidth { width });
        }
        let found = round_consts.len();
        let cap: usize = match full_rounds_beginning.checked_add(partial_rounds) {
            Some(a) => match a.checked_add(full_rounds_end) {
                Some(t) => match t.checked_mul(width) {
                    Some(c) => c,
                    None => {
                        return Err(
                            PoseidonError::NotEnoughRoundConstants { needed: usize::MAX, found },
                        );
                    },
                },
                None => {
                    proof {
                        assert((a + full_rounds_end) * width >= a + full_rounds_end)
                            by (nonlinear_arith)
                            requires
                                width >= 3,
                                a + full_rounds_end >= 0,
                        ;
                    }
                    return Err(PoseidonError::NotEnoughRoundConstants { needed: usize::MAX, found });
                },
            },
            None => {
                proof {
                    let t = full_rounds_beginning + partial_rounds + full_rounds_end;
                    assert(t * width >= t) by (nonlinear_arith)
                        requires
                            width >= 3,
                            t >= 0,
                    ;
                }
                return Err(PoseidonError::NotEnoughRoundConstants { needed: usize::MAX, found });
            },
        };
        if found < cap {
            return Err(PoseidonError::NotEnoughRoundConstants { needed: cap, found });
        }
        let round_keys = match decode_constants(round_consts, cap) {
            Some(k) => k,
            None => return Err(PoseidonError::MalformedConstant),
        };
        if mds_entries.len() != width {
            return Err(PoseidonError::IncorrectMdsShape { width });
        }
        let mut j: usize = 0;
        while j < width
            invariant
                supported_width(width as int),
                cap == (full_rounds_beginning + partial_rounds + full_rounds_end) * width,
                cap <= round_consts@.len(),
                all_well_formed(round_consts@, cap as int),
                mds_entries@.len() == width,
                j <= width,
                forall|k: int| 0 <= k < j ==> (#[trigger] mds_entries@[k])@.len() == width,
            decreases width - j,
        {
            if mds_entries[j].len() != width {
                return Err(PoseidonError::IncorrectMdsShape { width });
            }
            j += 1;
        }
        let mut matrix: Vec<Vec<Fe>> = Vec::new();
        let mut j: usize = 0;
        while j < width
            invariant
                supported_width(width as int),
                cap == (full_rounds_beginning + partial_rounds + full_rounds_end) * width,
                cap <= round_consts@.len(),
                all_well_formed(round_consts@, cap as int),
                mds_shape_ok(mds_entries@, width as int),
                j <= width,
                matrix@.len() == j,
                forall|k: int| 0 <= k < j ==> all_well_formed((#[trigger] mds_entries@[k])@, width as int),
                forall|k: int|
                    0 <= k < j ==> (#[trigger] matrix@[k])@.len() == width && all_wf(matrix@[k]@)
                        && fe_vals(matrix@[k]@) == decoded(mds_entries@[k]@, width as int),
            decreases width - j,
        {
            match decode_constants(mds_entries[j].as_slice(), width) {
                Some(row) => matrix.push(row),
                None => return Err(PoseidonError::MalformedConstant),
            }
            j += 1;
        }
        let p = PoseidonParams {
            width,
            full_rounds_beginning,
            full_rounds_end,
            partial_rounds,
            round_keys,
            MDS_matrix: matrix,
        };
        assert(p.mds() =~= decoded_mds(mds_entries@, width as int));
        Ok(p)
    }
}

} // verus!
