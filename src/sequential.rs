//! The sequential index: one full-length bit row per zone.
use vstd::prelude::*;
use crate::bits::{bits_of, tail_clear, Bits};
use crate::mask::{lists_candidates, row_candidates, rows_of, IndexView};
use crate::zones::Zone;

verus! {

/// Sequential partition index over a dataset of `points` points.
pub struct Sequential {
    zones: Vec<Zone>,
    bitset: Vec<Bits>,
    points: usize,
}

/// The rows of a vector of `Vec<bool>`.
pub open spec fn bool_rows(rows: Seq<Vec<bool>>) -> Seq<Seq<bool>> {
    rows.map_values(|r: Vec<bool>| r@)
}

impl View for Sequential {
    type V = IndexView;

    closed spec fn view(&self) -> IndexView {
        IndexView { zones: self.zones@, matrix: rows_of(self.bitset@), points: self.points as nat }
    }
}

impl Sequential {
    /// The index's invariant: one row per zone, as long as the dataset, with
    /// clean storage past the end.
    pub closed spec fn wf(&self) -> bool {
        &&& self@.well_formed()
        &&& forall|z: int| 0 <= z < self.bitset@.len() ==> tail_clear(#[trigger] self.bitset@[z])
    }

    /// Builds the index from its zones and, for each zone, the row saying
    /// which of the `points` points lie in it.
    pub fn setup(zones: Vec<Zone>, rows: &Vec<Vec<bool>>, points: usize) -> (r: Sequential)
        requires
            rows@.len() == zones@.len(),
            forall|z: int| 0 <= z < rows@.len() ==> (#[trigger] rows@[z])@.len() == points,
        ensures
            r.wf(),
            r@.zones == zones@,
            r@.matrix == bool_rows(rows@),
            r@.points == points,
    {
        let bitset = make_bitset(rows);
        Sequential { zones, bitset, points }
    }

    /// Size of the dataset.
    pub fn len(&self) -> (r: usize)
        ensures
            r == self@.points,
    {
        self.points
    }

    /// Whether the dataset is empty.
    pub fn is_empty(&self) -> (r: bool)
        ensures
            r == (self@.points == 0),
    {
        self.points == 0
    }

    /// Number of exclusion zones.
    pub fn zones(&self) -> (r: usize)
        ensures
            r == self@.zones.len(),
    {
        self.zones.len()
    }

    /// The exclusion zones, in index order.
    pub fn zone_list(&self) -> (r: &Vec<Zone>)
        ensures
            r@ == self@.zones,
    {
        &self.zones
    }

    /// The bit phase of a range search: the positions whose bit is set in
    /// every row of `ins` and clear in every row of `outs`, in increasing
    /// order. With no rows named, every position is a candidate.
    pub fn candidates(&self, ins: &Vec<usize>, outs: &Vec<usize>) -> (r: Vec<usize>)
        requires
            self.wf(),
            self@.names_zones(ins@),
            self@.names_zones(outs@),
        ensures
            lists_candidates(r@, self@, ins@, outs@),
    {
        proof {
            assert forall|j: int| 0 <= j < ins@.len() implies bits_of(
                #[trigger] self.bitset@[ins@[j] as int],
            ).len() == self.points by {
                assert(self@.matrix[ins@[j] as int] == bits_of(self.bitset@[ins@[j] as int]));
            }
            assert forall|j: int| 0 <= j < outs@.len() implies bits_of(
                #[trigger] self.bitset@[outs@[j] as int],
            ).len() == self.points by {
                assert(self@.matrix[outs@[j] as int] == bits_of(self.bitset@[outs@[j] as int]));
            }
        }
        row_candidates(&self.bitset, self.points, ins, outs)
    }
}

/// One bit row per zone, copied from the boolean rows.
fn make_bitset(rows: &Vec<Vec<bool>>) -> (r: Vec<Bits>)
    ensures
        rows_of(r@) == bool_rows(rows@),
        forall|z: int| 0 <= z < r@.len() ==> tail_clear(#[trigger] r@[z]),
{
    let mut r: Vec<Bits> = Vec::new();
    let mut z: usize = 0;
    while z < rows.len()
        invariant
            z <= rows@.len(),
            r@.len() == z,
            forall|y: int| 0 <= y < z ==> bits_of(#[trigger] r@[y]) == rows@[y]@ && tail_clear(r@[y]),
        decreases rows@.len() - z,
    {
        r.push(Bits::from_bools(&rows[z]));
        z = z + 1;
    }
    assert(rows_of(r@) =~= bool_rows(rows@));
    r
}

} // verus!
