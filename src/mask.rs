//! The query algebra shared by every index: which positions survive a
//! classification of the zones, and how rows split into blocks.
use vstd::prelude::*;
use crate::bits::{
    bits_of, lemma_true_below_full, lemma_true_below_step, lists_true_below, lists_true_positions, Bits,
};
use crate::zones::Zone;

verus! {

/// What an index holds, as mathematics: its zones, one row of bits per zone
/// (bit `i` of row `z` says whether point `i` lies in zone `z`), and the
/// number of points.
pub struct IndexView {
    pub zones: Seq<Zone>,
    pub matrix: Seq<Seq<bool>>,
    pub points: nat,
}

impl IndexView {
    /// One row per zone, each as long as the dataset.
    pub open spec fn well_formed(self) -> bool {
        &&& self.zones.len() == self.matrix.len()
        &&& forall|z: int| 0 <= z < self.matrix.len() ==> (#[trigger] self.matrix[z]).len() == self.points
    }

    /// Every listed zone index names a zone of the index.
    pub open spec fn names_zones(self, ids: Seq<usize>) -> bool {
        forall|j: int| 0 <= j < ids.len() ==> (#[trigger] ids[j]) < self.zones.len()
    }
}

/// Whether point `i` survives: its bit is set in every row listed in `ins`
/// and clear in every row listed in `outs`.
pub open spec fn survives(m: Seq<Seq<bool>>, ins: Seq<usize>, outs: Seq<usize>, i: int) -> bool {
    &&& forall|j: int| 0 <= j < ins.len() ==> m[#[trigger] ins[j] as int][i]
    &&& forall|j: int| 0 <= j < outs.len() ==> !m[#[trigger] outs[j] as int][i]
}

/// The candidate mask: for each of the `n` points, whether it survives.
pub open spec fn mask(m: Seq<Seq<bool>>, n: nat, ins: Seq<usize>, outs: Seq<usize>) -> Seq<bool> {
    Seq::new(n, |i: int| survives(m, ins, outs, i))
}

/// Whether `r` is the result of the bit phase of a query: exactly the
/// surviving positions, in increasing order.
pub open spec fn lists_candidates(r: Seq<usize>, v: IndexView, ins: Seq<usize>, outs: Seq<usize>) -> bool {
    lists_true_positions(r, mask(v.matrix, v.points, ins, outs))
}

/// The zones classified "in" and "out" from two flag vectors: a zone is in
/// when its must-be-in flag is set, and out when only its must-be-out flag is.
pub open spec fn out_flags(must_in: Seq<bool>, must_out: Seq<bool>) -> Seq<bool> {
    Seq::new(must_in.len(), |z: int| !must_in[z] && must_out[z])
}

/// Splits zones into those that must hold every answer and those that must
/// hold none, given for each zone whether the query ball lies wholly inside
/// it and whether it lies wholly outside. A zone with both flags counts as in.
pub fn classify(must_in: &Vec<bool>, must_out: &Vec<bool>) -> (r: (Vec<usize>, Vec<usize>))
    requires
        must_in@.len() == must_out@.len(),
    ensures
        lists_true_positions(r.0@, must_in@),
        lists_true_positions(r.1@, out_flags(must_in@, must_out@)),
{
    let mut ins: Vec<usize> = Vec::new();
    let mut outs: Vec<usize> = Vec::new();
    let ghost outf = out_flags(must_in@, must_out@);
    let mut z: usize = 0;
    while z < must_in.len()
        invariant
            z <= must_in@.len(),
            must_in@.len() == must_out@.len(),
            outf == out_flags(must_in@, must_out@),
            lists_true_below(ins@, must_in@, z as int),
            lists_true_below(outs@, outf, z as int),
        decreases must_in@.len() - z,
    {
        proof {
            lemma_true_below_step(ins@, must_in@, z as int);
            lemma_true_below_step(outs@, outf, z as int);
        }
        if must_in[z] {
            ins.push(z);
        } else if must_out[z] {
            outs.push(z);
        }
        z = z + 1;
    }
    proof {
        lemma_true_below_full(ins@, must_in@);
        lemma_true_below_full(outs@, outf);
    }
    (ins, outs)
}

/// The rows a vector of bit rows holds.
pub open spec fn rows_of(rows: Seq<Bits>) -> Seq<Seq<bool>> {
    rows.map_values(|b: Bits| bits_of(b))
}

/// Every row named in `ids` has `n` bits.
pub open spec fn named_rows_have_len(rows: Seq<Bits>, ids: Seq<usize>, n: nat) -> bool {
    forall|j: int|
        0 <= j < ids.len() ==> ids[j] < rows.len() && bits_of(#[trigger] rows[ids[j] as int]).len() == n
}

/// The candidate mask over rows of `n` bits, computed with the bit vector's
/// own operations: the and of the `ins` rows, and the complement of the or
/// of the `outs` rows.
pub(crate) fn row_candidates(rows: &Vec<Bits>, n: usize, ins: &Vec<usize>, outs: &Vec<usize>) -> (r: Vec<usize>)
    requires
        named_rows_have_len(rows@, ins@, n as nat),
        named_rows_have_len(rows@, outs@, n as nat),
    ensures
        lists_true_positions(r@, mask(rows_of(rows@), n as nat, ins@, outs@)),
{
    let ghost m = rows_of(rows@);
    let mut ands = Bits::ones(n);
    let mut j: usize = 0;
    while j < ins.len()
        invariant
            m == rows_of(rows@),
            named_rows_have_len(rows@, ins@, n as nat),
            j <= ins@.len(),
            bits_of(ands) == Seq::new(
                n as nat,
                |i: int| forall|l: int| 0 <= l < j ==> m[#[trigger] ins@[l] as int][i],
            ),
        decreases ins@.len() - j,
    {
        let z = ins[j];
        assert(m[z as int] == bits_of(rows@[z as int]));
        ands.and_with(&rows[z]);
        j = j + 1;
        assert forall|i: int| 0 <= i < n implies bits_of(ands)[i] == (forall|l: int|
            0 <= l < j ==> m[#[trigger] ins@[l] as int][i]) by {
            if bits_of(ands)[i] {
                assert forall|l: int| 0 <= l < j implies m[#[trigger] ins@[l] as int][i] by {
                    if l < j - 1 {
                    }
                }
            }
        }
        assert(bits_of(ands) =~= Seq::new(
            n as nat,
            |i: int| forall|l: int| 0 <= l < j ==> m[#[trigger] ins@[l] as int][i],
        ));
    }
    let mut ors = Bits::zeros(n);
    let mut j: usize = 0;
    while j < outs.len()
        invariant
            m == rows_of(rows@),
            named_rows_have_len(rows@, outs@, n as nat),
            j <= outs@.len(),
            bits_of(ors) == Seq::new(
                n as nat,
                |i: int| exists|l: int| 0 <= l < j && m[#[trigger] outs@[l] as int][i],
            ),
        decreases outs@.len() - j,
    {
        let z = outs[j];
        assert(m[z as int] == bits_of(rows@[z as int]));
        ors.or_with(&rows[z]);
        j = j + 1;
        assert forall|i: int| 0 <= i < n implies bits_of(ors)[i] == (exists|l: int|
            0 <= l < j && m[#[trigger] outs@[l] as int][i]) by {
            if m[z as int][i] {
                assert(m[outs@[j - 1] as int][i]);
            }
        }
        assert(bits_of(ors) =~= Seq::new(
            n as nat,
            |i: int| exists|l: int| 0 <= l < j && m[#[trigger] outs@[l] as int][i],
        ));
    }
    let nots = ors.inverse();
    ands.and_with(&nots);
    let r = ands.into_positions();
    proof {
        assert forall|i: int| 0 <= i < n implies bits_of(ands)[i] == survives(m, ins@, outs@, i) by {
            if !bits_of(ands)[i] {
                if !(forall|l: int| 0 <= l < ins@.len() ==> m[#[trigger] ins@[l] as int][i]) {
                } else {
                    let l = choose|l: int| 0 <= l < outs@.len() && m[#[trigger] outs@[l] as int][i];
                }
            }
        }
        assert(bits_of(ands) =~= mask(m, n as nat, ins@, outs@));
    }
    r
}

/// The candidate mask over `n` points from the rows themselves: set in
/// every row of `ins`, clear in every row of `outs`.
pub open spec fn row_mask(ins: Seq<Seq<bool>>, outs: Seq<Seq<bool>>, n: nat) -> Seq<bool> {
    Seq::new(
        n,
        |i: int|
            (forall|j: int| 0 <= j < ins.len() ==> #[trigger] ins[j][i]) && (forall|j: int|
                0 <= j < outs.len() ==> !#[trigger] outs[j][i]),
    )
}

/// The numbers `lo .. hi`, in order.
pub open spec fn span(lo: nat, hi: nat) -> Seq<usize> {
    Seq::new((hi - lo) as nat, |j: int| (lo + j) as usize)
}

/// The bit phase of a range search over rows loaded on their own: the
/// positions set in every row of `in_rows` and clear in every row of
/// `out_rows`, in increasing order.
pub fn rows_candidates(points: usize, in_rows: &Vec<Vec<bool>>, out_rows: &Vec<Vec<bool>>) -> (r: Vec<usize>)
    requires
        forall|j: int| 0 <= j < in_rows@.len() ==> (#[trigger] in_rows@[j])@.len() == points,
        forall|j: int| 0 <= j < out_rows@.len() ==> (#[trigger] out_rows@[j])@.len() == points,
        in_rows@.len() + out_rows@.len() <= usize::MAX,
    ensures
        lists_true_positions(
            r@,
            row_mask(
                in_rows@.map_values(|v: Vec<bool>| v@),
                out_rows@.map_values(|v: Vec<bool>| v@),
                points as nat,
            ),
        ),
{
    let mut rows: Vec<Bits> = Vec::new();
    let mut ins: Vec<usize> = Vec::new();
    let mut outs: Vec<usize> = Vec::new();
    let mut j: usize = 0;
    while j < in_rows.len()
        invariant
            j <= in_rows@.len(),
            rows@.len() == j,
            ins@ == span(0, j as nat),
            forall|l: int| 0 <= l < j ==> bits_of(#[trigger] rows@[l]) == in_rows@[l]@,
        decreases in_rows@.len() - j,
    {
        rows.push(Bits::from_bools(&in_rows[j]));
        ins.push(j);
        j = j + 1;
        assert(ins@ =~= span(0, j as nat));
    }
    let a = in_rows.len();
    let mut j: usize = 0;
    while j < out_rows.len()
        invariant
            a == in_rows@.len(),
            a + out_rows@.len() <= usize::MAX,
            j <= out_rows@.len(),
            rows@.len() == a + j,
            outs@ == span(a as nat, (a + j) as nat),
            forall|l: int| 0 <= l < a ==> bits_of(#[trigger] rows@[l]) == in_rows@[l]@,
            forall|l: int| a <= l < a + j ==> bits_of(#[trigger] rows@[l]) == out_rows@[l - a]@,
        decreases out_rows@.len() - j,
    {
        rows.push(Bits::from_bools(&out_rows[j]));
        outs.push(a + j);
        j = j + 1;
        assert(outs@ =~= span(a as nat, (a + j) as nat));
    }
    let r = row_candidates(&rows, points, &ins, &outs);
    proof {
        let m = rows_of(rows@);
        let im = in_rows@.map_values(|v: Vec<bool>| v@);
        let om = out_rows@.map_values(|v: Vec<bool>| v@);
        assert forall|i: int| 0 <= i < points implies mask(m, points as nat, ins@, outs@)[i] == row_mask(im, om, points as nat)[i] by {
            if mask(m, points as nat, ins@, outs@)[i] {
                assert forall|j: int| 0 <= j < im.len() implies #[trigger] im[j][i] by {
                    assert(m[ins@[j] as int] == im[j]);
                }
                assert forall|j: int| 0 <= j < om.len() implies !#[trigger] om[j][i] by {
                    assert(m[outs@[j] as int] == om[j]);
                }
            }
            if row_mask(im, om, points as nat)[i] {
                assert forall|j: int| 0 <= j < ins@.len() implies m[#[trigger] ins@[j] as int][i] by {
                    assert(m[ins@[j] as int] == im[j]);
                }
                assert forall|j: int| 0 <= j < outs@.len() implies !m[#[trigger] outs@[j] as int][i] by {
                    assert(outs@[j] == a + j);
                    assert(m[a + j] == om[j]);
                    assert(!om[j][i]);
                }
            }
        }
        assert(mask(m, points as nat, ins@, outs@) =~= row_mask(im, om, points as nat));
    }
    r
}

} // verus!
