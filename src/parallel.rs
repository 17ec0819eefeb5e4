//! The blocked index: the dataset's positions cut into consecutive blocks,
//! each block holding one short bit row per zone. Blocks can be scanned
//! independently; the rows of a zone, joined block after block, form its
//! full row.
use vstd::prelude::*;
use crate::bits::{bits_of, count_true, lists_true_below, lists_true_positions, tail_clear, Bits};
use crate::mask::{lists_candidates, mask, row_candidates, row_mask, rows_candidates, rows_of, IndexView};
use crate::sequential::bool_rows;
use crate::zones::{pairs, zone_pairs, Zone};

verus! {

/// Blocked partition index over a dataset of `points` points.
pub struct Parallel {
    zones: Vec<Zone>,
    blocks: Vec<Vec<Bits>>,
    starts: Vec<usize>,
    lens: Vec<usize>,
    block_size: usize,
    points: usize,
}

/// Row `z` of the first `nb` blocks, joined end to end.
pub open spec fn joined(blocks: Seq<Vec<Bits>>, z: int, nb: nat) -> Seq<bool>
    decreases nb,
{
    if nb == 0 {
        Seq::empty()
    } else {
        joined(blocks, z, (nb - 1) as nat) + bits_of(blocks[nb - 1]@[z])
    }
}

/// Sum of the first `nb` lengths.
pub open spec fn total(lens: Seq<usize>, nb: nat) -> nat
    decreases nb,
{
    if nb == 0 {
        0
    } else {
        total(lens, (nb - 1) as nat) + lens[nb - 1] as nat
    }
}

/// The full rows of an index with `zones` zones, from its blocks.
pub open spec fn joined_rows(blocks: Seq<Vec<Bits>>, zones: nat) -> Seq<Seq<bool>> {
    Seq::new(zones, |z: int| joined(blocks, z, blocks.len()))
}

/// `r` lists, in strictly increasing order, exactly the positions `i` with
/// `lo <= i < hi` where `s` is `true`.
pub open spec fn lists_true_between(r: Seq<usize>, s: Seq<bool>, lo: int, hi: int) -> bool {
    &&& forall|j: int, l: int| 0 <= j < l < r.len() ==> r[j] < r[l]
    &&& forall|j: int| 0 <= j < r.len() ==> lo <= r[j] < hi && s[r[j] as int]
    &&& forall|i: int| lo <= i < hi && s[i] ==> exists|j: int| 0 <= j < r.len() && r[j] == i
}

/// Every block has one row per zone; each row of block `b` has `lens[b]` bits.
pub open spec fn blocks_shaped(blocks: Seq<Vec<Bits>>, lens: Seq<usize>, zones: nat) -> bool {
    &&& lens.len() == blocks.len()
    &&& forall|b: int| 0 <= b < blocks.len() ==> (#[trigger] blocks[b])@.len() == zones
    &&& forall|b: int, z: int|
        0 <= b < blocks.len() && 0 <= z < zones ==> bits_of(#[trigger] blocks[b]@[z]).len() == lens[b]
            && tail_clear(blocks[b]@[z])
}

/// The joined row of the first `nb` blocks is as long as those blocks.
proof fn lemma_joined_len(blocks: Seq<Vec<Bits>>, lens: Seq<usize>, zones: nat, z: int, nb: nat)
    requires
        blocks_shaped(blocks, lens, zones),
        0 <= z < zones,
        nb <= blocks.len(),
    ensures
        joined(blocks, z, nb).len() == total(lens, nb),
    decreases nb,
{
    if nb > 0 {
        lemma_joined_len(blocks, lens, zones, z, (nb - 1) as nat);
        assert(bits_of(blocks[nb - 1]@[z]).len() == lens[nb - 1]);
    }
}

/// Bit `p` of block `b`'s row is bit `total(b) + p` of the full row.
proof fn lemma_block_entry(blocks: Seq<Vec<Bits>>, lens: Seq<usize>, zones: nat, z: int, b: int, nb: nat, p: int)
    requires
        blocks_shaped(blocks, lens, zones),
        0 <= z < zones,
        0 <= b < nb <= blocks.len(),
        0 <= p < lens[b],
    ensures
        joined(blocks, z, nb)[total(lens, b as nat) + p] == bits_of(blocks[b]@[z])[p],
        total(lens, b as nat) + p < total(lens, nb),
    decreases nb,
{
    lemma_joined_len(blocks, lens, zones, z, (nb - 1) as nat);
    if b == nb - 1 {
        assert(joined(blocks, z, nb) == joined(blocks, z, (nb - 1) as nat) + bits_of(blocks[nb - 1]@[z]));
    } else {
        lemma_block_entry(blocks, lens, zones, z, b, (nb - 1) as nat, p);
        lemma_total_monotone(lens, (nb - 1) as nat);
    }
}

/// Totals grow with the number of blocks.
proof fn lemma_total_monotone(lens: Seq<usize>, nb: nat)
    requires
        nb <= lens.len(),
    ensures
        forall|a: nat| a <= nb ==> #[trigger] total(lens, a) <= total(lens, nb),
    decreases nb,
{
    if nb > 0 {
        lemma_total_monotone(lens, (nb - 1) as nat);
    }
}

/// Ones of two sequences joined are the ones of each, added.
pub proof fn lemma_count_true_append(a: Seq<bool>, b: Seq<bool>)
    ensures
        count_true(a + b) == count_true(a) + count_true(b),
    decreases b.len(),
{
    if b.len() > 0 {
        lemma_count_true_append(a, b.drop_last());
        assert((a + b).drop_last() == a + b.drop_last());
    } else {
        assert(a + b == a);
    }
}

/// A sequence has no more ones than entries.
pub proof fn lemma_count_true_le(s: Seq<bool>)
    ensures
        count_true(s) <= s.len(),
    decreases s.len(),
{
    if s.len() > 0 {
        lemma_count_true_le(s.drop_last());
    }
}

/// The differing positions of two sequences of one length.
pub open spec fn differ(a: Seq<bool>, b: Seq<bool>) -> Seq<bool> {
    Seq::new(a.len(), |i: int| a[i] != b[i])
}

/// Appending a block's exact list to an exact list below its start gives an
/// exact list below its end.
proof fn lemma_append_between(r: Seq<usize>, q: Seq<usize>, s: Seq<bool>, lo: int, hi: int)
    requires
        lists_true_below(r, s, lo),
        lists_true_between(q, s, lo, hi),
        lo <= hi,
    ensures
        lists_true_below(r + q, s, hi),
{
    let rq = r + q;
    assert forall|j: int, l: int| 0 <= j < l < rq.len() implies rq[j] < rq[l] by {
        if l >= r.len() && j < r.len() {
            assert(rq[l] == q[l - r.len()]);
        }
    }
    assert forall|i: int| 0 <= i < hi && s[i] implies exists|j: int| 0 <= j < rq.len() && rq[j] == i by {
        if i < lo {
            let j = choose|j: int| 0 <= j < r.len() && r[j] == i;
            assert(rq[j] == i);
        } else {
            let j = choose|j: int| 0 <= j < q.len() && q[j] == i;
            assert(rq[r.len() + j] == i);
        }
    }
}

impl View for Parallel {
    type V = IndexView;

    closed spec fn view(&self) -> IndexView {
        IndexView {
            zones: self.zones@,
            matrix: joined_rows(self.blocks@, self.zones@.len()),
            points: self.points as nat,
        }
    }
}

impl Parallel {
    /// The index's invariant: blocks of consistent shape, each starting
    /// where the previous one ends, none empty or longer than the block
    /// size, together covering the dataset.
    pub closed spec fn wf(&self) -> bool {
        &&& blocks_shaped(self.blocks@, self.lens@, self.zones@.len())
        &&& self.starts@.len() == self.blocks@.len()
        &&& forall|b: int| 0 <= b < self.starts@.len() ==> #[trigger] self.starts@[b] == total(self.lens@, b as nat)
        &&& forall|b: int| 0 <= b < self.lens@.len() ==> 0 < #[trigger] self.lens@[b] <= self.block_size
        &&& total(self.lens@, self.lens@.len()) == self.points
        &&& self.block_size > 0
    }

    /// Number of points in each block, in order.
    pub closed spec fn block_lens(&self) -> Seq<usize> {
        self.lens@
    }

    /// The full rows of a well-formed index are as long as the dataset.
    proof fn lemma_view_well_formed(&self)
        requires
            self.wf(),
        ensures
            self@.well_formed(),
    {
        assert forall|z: int| 0 <= z < self@.matrix.len() implies (#[trigger] self@.matrix[z]).len() == self@.points by {
            lemma_joined_len(self.blocks@, self.lens@, self.zones@.len(), z, self.blocks@.len());
        }
    }

    /// Builds the index from its zones and, for each zone, the row saying
    /// which of the `points` points lie in it. The points are cut into
    /// blocks of `block_size` (the last one may be shorter); `None` makes
    /// one block of the whole dataset.
    pub fn setup(zones: Vec<Zone>, rows: &Vec<Vec<bool>>, points: usize, block_size: Option<usize>) -> (r: Parallel)
        requires
            rows@.len() == zones@.len(),
            forall|z: int| 0 <= z < rows@.len() ==> (#[trigger] rows@[z])@.len() == points,
            block_size matches Some(b) ==> b > 0,
            block_size is None ==> points > 0,
        ensures
            r.wf(),
            r@.well_formed(),
            r@.zones == zones@,
            r@.matrix == bool_rows(rows@),
            r@.points == points,
            forall|b: int| 0 <= b < r.block_lens().len() - 1 ==> #[trigger] r.block_lens()[b] == match block_size {
                Some(s) => s,
                None => points,
            },
            forall|b: int| 0 <= b < r.block_lens().len() ==> 0 < #[trigger] r.block_lens()[b] <= match block_size {
                Some(s) => s,
                None => points,
            },
            total(r.block_lens(), r.block_lens().len()) == points,
    {
        let bs = match block_size {
            Some(s) => s,
            None => points,
        };
        let nz = zones.len();
        let mut blocks: Vec<Vec<Bits>> = Vec::new();
        let mut starts: Vec<usize> = Vec::new();
        let mut lens: Vec<usize> = Vec::new();
        let mut offset: usize = 0;
        while offset < points
            invariant
                bs > 0,
                nz == zones@.len(),
                rows@.len() == nz,
                forall|z: int| 0 <= z < rows@.len() ==> (#[trigger] rows@[z])@.len() == points,
                offset <= points,
                blocks_shaped(blocks@, lens@, nz as nat),
                starts@.len() == blocks@.len(),
                forall|b: int| 0 <= b < starts@.len() ==> #[trigger] starts@[b] == total(lens@, b as nat),
                forall|b: int| 0 <= b < lens@.len() ==> 0 < #[trigger] lens@[b] <= bs,
                forall|b: int| 0 <= b < lens@.len() - 1 ==> #[trigger] lens@[b] == bs,
                lens@.len() > 0 && lens@[lens@.len() - 1] < bs ==> offset == points,
                total(lens@, lens@.len()) == offset,
                forall|z: int| 0 <= z < nz ==> joined(blocks@, z, blocks@.len()) == (#[trigger] rows@[z])@.subrange(0, offset as int),
            decreases points - offset,
        {
            let len = if points - offset < bs { points - offset } else { bs };
            let mut block: Vec<Bits> = Vec::new();
            let mut z: usize = 0;
            while z < nz
                invariant
                    nz == rows@.len(),
                    forall|y: int| 0 <= y < rows@.len() ==> (#[trigger] rows@[y])@.len() == points,
                    offset + len <= points,
                    z <= nz,
                    block@.len() == z,
                    forall|y: int| 0 <= y < z ==> bits_of(#[trigger] block@[y]) == rows@[y]@.subrange(offset as int, offset + len)
                        && tail_clear(block@[y]),
                decreases nz - z,
            {
                let part = slice_bools(&rows[z], offset, len);
                block.push(Bits::from_bools(&part));
                z = z + 1;
            }
            let ghost old_blocks = blocks@;
            let ghost old_lens = lens@;
            blocks.push(block);
            starts.push(offset);
            lens.push(len);
            proof {
                assert(total(lens@, (lens@.len() - 1) as nat) == total(old_lens, old_lens.len())) by {
                    assert(lens@.subrange(0, old_lens.len() as int) == old_lens);
                    lemma_total_prefix(lens@, old_lens, old_lens.len());
                }
                assert forall|b: int| 0 <= b < starts@.len() implies #[trigger] starts@[b] == total(lens@, b as nat) by {
                    lemma_total_prefix(lens@, old_lens, b as nat);
                }
                assert forall|z: int| 0 <= z < nz implies joined(blocks@, z, blocks@.len()) == (#[trigger] rows@[z])@.subrange(0, offset + len) by {
                    lemma_joined_prefix(blocks@, old_blocks, z, old_blocks.len());
                    assert(rows@[z]@.subrange(0, offset + len) =~= rows@[z]@.subrange(0, offset as int)
                        + rows@[z]@.subrange(offset as int, offset + len));
                }
                assert forall|b: int, z: int| 0 <= b < blocks@.len() && 0 <= z < nz implies bits_of(
                    #[trigger] blocks@[b]@[z],
                ).len() == lens@[b] && tail_clear(blocks@[b]@[z]) by {
                    if b < old_blocks.len() {
                        assert(blocks@[b] == old_blocks[b]);
                    }
                }
            }
            offset = offset + len;
        }
        let r = Parallel { zones, blocks, starts, lens, block_size: bs, points };
        proof {
            r.lemma_view_well_formed();
            assert forall|z: int| 0 <= z < nz implies r@.matrix[z] == bool_rows(rows@)[z] by {
                assert(rows@[z]@.subrange(0, points as int) =~= rows@[z]@);
            }
            assert(r@.matrix =~= bool_rows(rows@));
        }
        r
    }

    /// Size of the dataset.
    pub fn len(&self) -> (r: usize)
        ensures
            r == self@.points,
    {
        self.points
    }

    /// Whether the dataset is empty.
    pub fn is_empty(&self) -> (r: bool)
        ensures
            r == (self@.points == 0),
    {
        self.points == 0
    }

    /// Number of exclusion zones.
    pub fn zones(&self) -> (r: usize)
        ensures
            r == self@.zones.len(),
    {
        self.zones.len()
    }

    /// The exclusion zones, in index order.
    pub fn zone_list(&self) -> (r: &Vec<Zone>)
        ensures
            r@ == self@.zones,
    {
        &self.zones
    }

    /// Number of blocks.
    pub fn block_count(&self) -> (r: usize)
        requires
            self.wf(),
        ensures
            r == self.block_lens().len(),
    {
        self.blocks.len()
    }

    /// The bit phase of a range search restricted to block `b`: the
    /// surviving positions of that block, in increasing order, as positions
    /// of the whole dataset.
    pub fn block_candidates(&self, b: usize, ins: &Vec<usize>, outs: &Vec<usize>) -> (r: Vec<usize>)
        requires
            self.wf(),
            b < self.block_lens().len(),
            self@.names_zones(ins@),
            self@.names_zones(outs@),
        ensures
            lists_true_between(
                r@,
                mask(self@.matrix, self@.points, ins@, outs@),
                total(self.block_lens(), b as nat) as int,
                total(self.block_lens(), b as nat + 1) as int,
            ),
    {
        let ghost nz = self.zones@.len();
        let block = &self.blocks[b];
        let len = self.lens[b];
        let start = self.starts[b];
        proof {
            assert forall|j: int| 0 <= j < ins@.len() implies ins@[j] < block@.len() && bits_of(
                #[trigger] block@[ins@[j] as int],
            ).len() == len by {
                assert(ins@[j] < nz);
            }
            assert forall|j: int| 0 <= j < outs@.len() implies outs@[j] < block@.len() && bits_of(
                #[trigger] block@[outs@[j] as int],
            ).len() == len by {
                assert(outs@[j] < nz);
            }
        }
        let local = row_candidates(block, len, ins, outs);
        let ghost lm = mask(rows_of(block@), len as nat, ins@, outs@);
        let ghost gm = mask(self@.matrix, self@.points, ins@, outs@);
        proof {
            lemma_total_monotone(self.lens@, self.lens@.len());
            assert(total(self.lens@, b as nat + 1) == start + len);
            assert(total(self.lens@, b as nat + 1) <= self.points);
            assert forall|p: int| 0 <= p < len implies lm[p] == gm[start + p] by {
                assert forall|z: int| 0 <= z < nz implies rows_of(block@)[z][p] == #[trigger] self@.matrix[z][start + p] by {
                    lemma_block_entry(self.blocks@, self.lens@, nz, z, b as int, self.blocks@.len(), p);
                }
                assert(forall|j: int| 0 <= j < ins@.len() ==> ins@[j] < nz);
                assert(forall|j: int| 0 <= j < outs@.len() ==> outs@[j] < nz);
            }
        }
        let mut r: Vec<usize> = Vec::new();
        let mut t: usize = 0;
        while t < local.len()
            invariant
                lists_true_positions(local@, lm),
                lm.len() == len,
                start + len <= self.points,
                gm.len() == self.points,
                forall|p: int| 0 <= p < len ==> lm[p] == gm[start + p],
                t <= local@.len(),
                r@.len() == t,
                forall|j: int| 0 <= j < t ==> #[trigger] r@[j] == start + local@[j],
            decreases local@.len() - t,
        {
            r.push(start + local[t]);
            t = t + 1;
        }
        proof {
            assert forall|i: int| start <= i < start + len && gm[i] implies exists|j: int|
                0 <= j < r@.len() && r@[j] == i by {
                assert(lm[i - start]);
                let j = choose|j: int| 0 <= j < local@.len() && local@[j] == i - start;
                assert(r@[j] == i);
            }
        }
        r
    }

    /// The bit phase of a range search: the positions whose bit is set in
    /// every row of `ins` and clear in every row of `outs`, in increasing
    /// order, gathered block by block.
    pub fn candidates(&self, ins: &Vec<usize>, outs: &Vec<usize>) -> (r: Vec<usize>)
        requires
            self.wf(),
            self@.names_zones(ins@),
            self@.names_zones(outs@),
        ensures
            lists_candidates(r@, self@, ins@, outs@),
    {
        let ghost gm = mask(self@.matrix, self@.points, ins@, outs@);
        let mut r: Vec<usize> = Vec::new();
        let mut b: usize = 0;
        while b < self.blocks.len()
            invariant
                self.wf(),
                self@.names_zones(ins@),
                self@.names_zones(outs@),
                gm == mask(self@.matrix, self@.points, ins@, outs@),
                b <= self.blocks@.len(),
                lists_true_below(r@, gm, total(self.lens@, b as nat) as int),
            decreases self.blocks@.len() - b,
        {
            let mut part = self.block_candidates(b, ins, outs);
            proof {
                lemma_append_between(
                    r@,
                    part@,
                    gm,
                    total(self.lens@, b as nat) as int,
                    total(self.lens@, b as nat + 1) as int,
                );
            }
            r.append(&mut part);
            b = b + 1;
        }
        r
    }

    /// For each zone, the number of points inside it.
    pub fn popcounts(&self) -> (r: Vec<usize>)
        requires
            self.wf(),
            self@.points <= u32::MAX,
        ensures
            r@.len() == self@.zones.len(),
            forall|z: int| 0 <= z < r@.len() ==> #[trigger] r@[z] == count_true(self@.matrix[z]),
    {
        let nz = self.zones.len();
        let mut r: Vec<usize> = Vec::new();
        let mut z: usize = 0;
        while z < nz
            invariant
                self.wf(),
                self@.points <= u32::MAX,
                nz == self.zones@.len(),
                z <= nz,
                r@.len() == z,
                forall|y: int| 0 <= y < z ==> #[trigger] r@[y] == count_true(self@.matrix[y]),
            decreases nz - z,
        {
            let c = self.zone_popcount(z);
            r.push(c);
            z = z + 1;
        }
        r
    }

    /// Number of points inside zone `z`, summed over the blocks.
    fn zone_popcount(&self, z: usize) -> (r: usize)
        requires
            self.wf(),
            self@.points <= u32::MAX,
            z < self@.zones.len(),
        ensures
            r == count_true(self@.matrix[z as int]),
    {
        let ghost nz = self.zones@.len();
        let mut acc: usize = 0;
        let mut b: usize = 0;
        proof {
            lemma_total_monotone(self.lens@, self.lens@.len());
        }
        while b < self.blocks.len()
            invariant
                self.wf(),
                self@.points <= u32::MAX,
                z < nz,
                nz == self.zones@.len(),
                b <= self.blocks@.len(),
                forall|a: nat| a <= self.lens@.len() ==> #[trigger] total(self.lens@, a) <= total(self.lens@, self.lens@.len()),
                acc == count_true(joined(self.blocks@, z as int, b as nat)),
            decreases self.blocks@.len() - b,
        {
            let row = &self.blocks[b][z];
            proof {
                assert(bits_of(*row).len() == self.lens@[b as int]);
                assert(total(self.lens@, b as nat + 1) <= self.points);
                lemma_joined_len(self.blocks@, self.lens@, nz, z as int, b as nat + 1);
                lemma_count_true_append(joined(self.blocks@, z as int, b as nat), bits_of(*row));
                lemma_count_true_le(joined(self.blocks@, z as int, b as nat + 1));
            }
            let c = row.count_ones();
            acc = acc + c;
            b = b + 1;
        }
        acc
    }

    /// Number of points on which the rows of zones `i` and `j` disagree.
    pub fn hamming(&self, i: usize, j: usize) -> (r: usize)
        requires
            self.wf(),
            self@.points <= u32::MAX,
            i < self@.zones.len(),
            j < self@.zones.len(),
        ensures
            r == count_true(differ(self@.matrix[i as int], self@.matrix[j as int])),
    {
        let ghost nz = self.zones@.len();
        let mut acc: usize = 0;
        let mut b: usize = 0;
        proof {
            lemma_total_monotone(self.lens@, self.lens@.len());
        }
        while b < self.blocks.len()
            invariant
                self.wf(),
                self@.points <= u32::MAX,
                i < nz,
                j < nz,
                nz == self.zones@.len(),
                b <= self.blocks@.len(),
                forall|a: nat| a <= self.lens@.len() ==> #[trigger] total(self.lens@, a) <= total(self.lens@, self.lens@.len()),
                acc == count_true(differ(joined(self.blocks@, i as int, b as nat), joined(self.blocks@, j as int, b as nat))),
            decreases self.blocks@.len() - b,
        {
            let ri = &self.blocks[b][i];
            let rj = &self.blocks[b][j];
            let ghost ji = joined(self.blocks@, i as int, b as nat);
            let ghost jj = joined(self.blocks@, j as int, b as nat);
            proof {
                assert(bits_of(*ri).len() == self.lens@[b as int]);
                assert(bits_of(*rj).len() == self.lens@[b as int]);
                assert(total(self.lens@, b as nat + 1) <= self.points);
                lemma_joined_len(self.blocks@, self.lens@, nz, i as int, b as nat);
                lemma_joined_len(self.blocks@, self.lens@, nz, j as int, b as nat);
            }
            let x = ri.xor(rj);
            proof {
                assert(differ(ji + bits_of(*ri), jj + bits_of(*rj)) =~= differ(ji, jj) + bits_of(x));
                lemma_count_true_append(differ(ji, jj), bits_of(x));
                lemma_count_true_le(differ(ji, jj) + bits_of(x));
            }
            let c = x.count_ones();
            acc = acc + c;
            b = b + 1;
        }
        acc
    }

    /// Hamming distance between the rows of every pair of zones `i < j`,
    /// pairs in lexicographic order: `(i, j, distance)`.
    pub fn pair_distances(&self) -> (r: Vec<(usize, usize, usize)>)
        requires
            self.wf(),
            self@.points <= u32::MAX,
        ensures
            r@.len() == pairs(self@.zones.len()).len(),
            forall|p: int| 0 <= p < r@.len() ==> {
                let (i, j) = #[trigger] pairs(self@.zones.len())[p];
                r@[p] == (i, j, count_true(differ(self@.matrix[i as int], self@.matrix[j as int])) as usize)
            },
    {
        let ps = zone_pairs(self.zones.len());
        let mut r: Vec<(usize, usize, usize)> = Vec::new();
        let mut p: usize = 0;
        while p < ps.len()
            invariant
                self.wf(),
                self@.points <= u32::MAX,
                ps@ == pairs(self@.zones.len()),
                forall|q: int| 0 <= q < ps@.len() ==> (#[trigger] ps@[q]).0 < ps@[q].1 < self@.zones.len(),
                p <= ps@.len(),
                r@.len() == p,
                forall|q: int| 0 <= q < p ==> {
                    let (i, j) = #[trigger] pairs(self@.zones.len())[q];
                    r@[q] == (i, j, count_true(differ(self@.matrix[i as int], self@.matrix[j as int])) as usize)
                },
            decreases ps@.len() - p,
        {
            let (i, j) = ps[p];
            let h = self.hamming(i, j);
            r.push((i, j, h));
            p = p + 1;
        }
        r
    }

    /// Drops the listed zones (indices out of range are ignored), together
    /// with their rows in every block. The zones that stay keep their order
    /// and their rows.
    pub fn cull(&mut self, to_cull: &Vec<usize>)
        requires
            old(self).wf(),
        ensures
            final(self).wf(),
            final(self)@.well_formed(),
            final(self)@.points == old(self)@.points,
            final(self).block_lens() == old(self).block_lens(),
            final(self)@.zones == true_positions(keep_flags(to_cull@, old(self)@.zones.len())).map_values(
                |z: usize| old(self)@.zones[z as int],
            ),
            final(self)@.matrix == true_positions(keep_flags(to_cull@, old(self)@.zones.len())).map_values(
                |z: usize| old(self)@.matrix[z as int],
            ),
            forall|t: int|
                0 <= t < true_positions(keep_flags(to_cull@, old(self)@.zones.len())).len()
                    ==> #[trigger] true_positions(keep_flags(to_cull@, old(self)@.zones.len()))[t]
                    < old(self)@.zones.len(),
    {
        let nz = self.zones.len();
        let keep = keep_list(to_cull, nz);
        let sel = positions_of(&keep);
        proof {
            lemma_true_positions_bound(keep@);
        }
        let ghost old_self = *self;
        let mut zones: Vec<Zone> = Vec::new();
        let mut t: usize = 0;
        while t < sel.len()
            invariant
                sel@ == true_positions(keep@),
                keep@.len() == nz,
                nz == self.zones@.len(),
                forall|u: int| 0 <= u < sel@.len() ==> (#[trigger] sel@[u]) < nz,
                t <= sel@.len(),
                zones@ == sel@.take(t as int).map_values(|z: usize| self.zones@[z as int]),
            decreases sel@.len() - t,
        {
            zones.push(self.zones[sel[t]]);
            t = t + 1;
            assert(zones@ =~= sel@.take(t as int).map_values(|z: usize| self.zones@[z as int]));
        }
        let mut blocks: Vec<Vec<Bits>> = Vec::new();
        let mut b: usize = 0;
        while b < self.blocks.len()
            invariant
                self.wf(),
                sel@ == true_positions(keep@),
                nz == self.zones@.len(),
                forall|u: int| 0 <= u < sel@.len() ==> (#[trigger] sel@[u]) < nz,
                b <= self.blocks@.len(),
                blocks@.len() == b,
                forall|c: int| 0 <= c < b ==> (#[trigger] blocks@[c])@.len() == sel@.len(),
                forall|c: int, u: int| 0 <= c < b && 0 <= u < sel@.len() ==>
                    bits_of(#[trigger] blocks@[c]@[u]) == bits_of(self.blocks@[c]@[sel@[u] as int])
                    && tail_clear(blocks@[c]@[u]),
            decreases self.blocks@.len() - b,
        {
            let mut row_set: Vec<Bits> = Vec::new();
            let mut u: usize = 0;
            while u < sel.len()
                invariant
                    self.wf(),
                    b < self.blocks@.len(),
                    nz == self.zones@.len(),
                    forall|v: int| 0 <= v < sel@.len() ==> (#[trigger] sel@[v]) < nz,
                    u <= sel@.len(),
                    row_set@.len() == u,
                    forall|v: int| 0 <= v < u ==> bits_of(#[trigger] row_set@[v]) == bits_of(self.blocks@[b as int]@[sel@[v] as int])
                        && tail_clear(row_set@[v]),
                decreases sel@.len() - u,
            {
                assert(tail_clear(self.blocks@[b as int]@[sel@[u as int] as int]));
                row_set.push(self.blocks[b][sel[u]].copy());
                u = u + 1;
            }
            blocks.push(row_set);
            b = b + 1;
        }
        assert(zones@ =~= sel@.take(sel@.len() as int).map_values(|z: usize| old_self.zones@[z as int]));
        self.zones = zones;
        self.blocks = blocks;
        proof {
            let ns = *self;
            assert(ns.zones@ =~= sel@.map_values(|z: usize| old_self.zones@[z as int]));
            assert forall|b: int, z: int| 0 <= b < ns.blocks@.len() && 0 <= z < ns.zones@.len() implies bits_of(
                #[trigger] ns.blocks@[b]@[z],
            ).len() == ns.lens@[b] && tail_clear(ns.blocks@[b]@[z]) by {
                assert(old_self.zones@.len() == nz);
                assert(bits_of(old_self.blocks@[b]@[sel@[z] as int]).len() == old_self.lens@[b]);
            }
            assert forall|z: int| 0 <= z < ns.zones@.len() implies #[trigger] ns@.matrix[z] == old_self@.matrix[sel@[z] as int] by {
                lemma_joined_pick(ns.blocks@, old_self.blocks@, z, sel@[z] as int, ns.blocks@.len());
            }
            assert(ns@.matrix =~= sel@.map_values(|z: usize| old_self@.matrix[z as int]));
            ns.lemma_view_well_formed();
        }
    }
}

/// The positions where `s` is `true`, in increasing order.
pub open spec fn true_positions(s: Seq<bool>) -> Seq<usize>
    decreases s.len(),
{
    if s.len() == 0 {
        Seq::empty()
    } else if s.last() {
        true_positions(s.drop_last()).push((s.len() - 1) as usize)
    } else {
        true_positions(s.drop_last())
    }
}

/// For each of `n` zones, whether it stays after the listed zones are culled.
pub open spec fn keep_flags(to_cull: Seq<usize>, n: nat) -> Seq<bool> {
    Seq::new(n, |z: int| !to_cull.contains(z as usize))
}

/// The positions of a flag vector are positions of the vector.
pub proof fn lemma_true_positions_bound(s: Seq<bool>)
    requires
        s.len() <= usize::MAX + 1,
    ensures
        forall|t: int| 0 <= t < true_positions(s).len() ==> (#[trigger] true_positions(s)[t]) < s.len(),
    decreases s.len(),
{
    if s.len() > 0 {
        let prev = true_positions(s.drop_last());
        lemma_true_positions_bound(s.drop_last());
        assert forall|t: int| 0 <= t < true_positions(s).len() implies (#[trigger] true_positions(s)[t]) < s.len() by {
            if t < prev.len() {
                assert(true_positions(s)[t] == prev[t]);
            }
        }
    }
}

/// Rows picked out of every block, joined, are the picked full rows.
proof fn lemma_joined_pick(new_blocks: Seq<Vec<Bits>>, blocks: Seq<Vec<Bits>>, z2: int, z: int, nb: nat)
    requires
        nb <= new_blocks.len() == blocks.len(),
        forall|b: int| 0 <= b < nb ==> bits_of(#[trigger] new_blocks[b]@[z2]) == bits_of(blocks[b]@[z]),
    ensures
        joined(new_blocks, z2, nb) == joined(blocks, z, nb),
    decreases nb,
{
    if nb > 0 {
        lemma_joined_pick(new_blocks, blocks, z2, z, (nb - 1) as nat);
    }
}

/// The joined rows of a longer list of blocks start with those of a prefix.
proof fn lemma_joined_prefix(blocks: Seq<Vec<Bits>>, prefix: Seq<Vec<Bits>>, z: int, nb: nat)
    requires
        nb <= prefix.len() <= blocks.len(),
        forall|b: int| 0 <= b < prefix.len() ==> #[trigger] blocks[b] == prefix[b],
    ensures
        joined(blocks, z, nb) == joined(prefix, z, nb),
    decreases nb,
{
    if nb > 0 {
        lemma_joined_prefix(blocks, prefix, z, (nb - 1) as nat);
    }
}

/// Totals over a prefix of the lengths agree.
proof fn lemma_total_prefix(lens: Seq<usize>, prefix: Seq<usize>, nb: nat)
    requires
        nb <= prefix.len() <= lens.len(),
        forall|b: int| 0 <= b < prefix.len() ==> #[trigger] lens[b] == prefix[b],
    ensures
        total(lens, nb) == total(prefix, nb),
    decreases nb,
{
    if nb > 0 {
        lemma_total_prefix(lens, prefix, (nb - 1) as nat);
    }
}

/// The bit phase over loaded rows, restricted to the block of positions
/// `from .. to`: the positions of that block set in every row of `in_rows`
/// and clear in every row of `out_rows`, in increasing order.
pub fn rows_block_candidates(
    points: usize,
    in_rows: &Vec<Vec<bool>>,
    out_rows: &Vec<Vec<bool>>,
    from: usize,
    to: usize,
) -> (r: Vec<usize>)
    requires
        from <= to <= points,
        forall|j: int| 0 <= j < in_rows@.len() ==> (#[trigger] in_rows@[j])@.len() == points,
        forall|j: int| 0 <= j < out_rows@.len() ==> (#[trigger] out_rows@[j])@.len() == points,
        in_rows@.len() + out_rows@.len() <= usize::MAX,
    ensures
        lists_true_between(
            r@,
            row_mask(
                in_rows@.map_values(|v: Vec<bool>| v@),
                out_rows@.map_values(|v: Vec<bool>| v@),
                points as nat,
            ),
            from as int,
            to as int,
        ),
{
    let len = to - from;
    let blk_ins = slice_rows(in_rows, from, len, points);
    let blk_outs = slice_rows(out_rows, from, len, points);
    let local = rows_candidates(len, &blk_ins, &blk_outs);
    let ghost im = in_rows@.map_values(|v: Vec<bool>| v@);
    let ghost om = out_rows@.map_values(|v: Vec<bool>| v@);
    let ghost bim = blk_ins@.map_values(|v: Vec<bool>| v@);
    let ghost bom = blk_outs@.map_values(|v: Vec<bool>| v@);
    let ghost lm = row_mask(bim, bom, len as nat);
    let ghost gm = row_mask(im, om, points as nat);
    proof {
        assert forall|p: int| 0 <= p < len implies lm[p] == gm[from + p] by {
            if lm[p] {
                assert forall|j: int| 0 <= j < im.len() implies #[trigger] im[j][from + p] by {
                    assert(bim[j][p]);
                }
                assert forall|j: int| 0 <= j < om.len() implies !#[trigger] om[j][from + p] by {
                    assert(!bom[j][p]);
                }
            }
            if gm[from + p] {
                assert forall|j: int| 0 <= j < bim.len() implies #[trigger] bim[j][p] by {
                    assert(im[j][from + p]);
                }
                assert forall|j: int| 0 <= j < bom.len() implies !#[trigger] bom[j][p] by {
                    assert(!om[j][from + p]);
                }
            }
        }
    }
    let mut r: Vec<usize> = Vec::new();
    let mut t: usize = 0;
    while t < local.len()
        invariant
            lists_true_positions(local@, lm),
            lm.len() == len,
            from + len <= points,
            gm.len() == points,
            forall|p: int| 0 <= p < len ==> lm[p] == gm[from + p],
            t <= local@.len(),
            r@.len() == t,
            forall|j: int| 0 <= j < t ==> #[trigger] r@[j] == from + local@[j],
        decreases local@.len() - t,
    {
        r.push(from + local[t]);
        t = t + 1;
    }
    proof {
        assert forall|i: int| from <= i < to && gm[i] implies exists|j: int| 0 <= j < r@.len() && r@[j] == i by {
            assert(lm[i - from]);
            let j = choose|j: int| 0 <= j < local@.len() && local@[j] == i - from;
            assert(r@[j] == i);
        }
    }
    r
}

/// Positions `start .. start + len` of each row, copied.
fn slice_rows(rows: &Vec<Vec<bool>>, start: usize, len: usize, points: usize) -> (r: Vec<Vec<bool>>)
    requires
        start + len <= points,
        forall|j: int| 0 <= j < rows@.len() ==> (#[trigger] rows@[j])@.len() == points,
    ensures
        r@.len() == rows@.len(),
        forall|j: int| 0 <= j < r@.len() ==> (#[trigger] r@[j])@ == rows@[j]@.subrange(start as int, start + len),
{
    let mut r: Vec<Vec<bool>> = Vec::new();
    let mut j: usize = 0;
    while j < rows.len()
        invariant
            start + len <= points,
            forall|l: int| 0 <= l < rows@.len() ==> (#[trigger] rows@[l])@.len() == points,
            j <= rows@.len(),
            r@.len() == j,
            forall|l: int| 0 <= l < j ==> (#[trigger] r@[l])@ == rows@[l]@.subrange(start as int, start + len),
        decreases rows@.len() - j,
    {
        r.push(slice_bools(&rows[j], start, len));
        j = j + 1;
    }
    r
}

/// Positions `start .. start + len` of `v`, copied.
fn slice_bools(v: &Vec<bool>, start: usize, len: usize) -> (r: Vec<bool>)
    requires
        start + len <= v@.len(),
    ensures
        r@ == v@.subrange(start as int, start + len),
{
    let mut r: Vec<bool> = Vec::new();
    let mut t: usize = 0;
    let total_len = v.len();
    while t < len
        invariant
            total_len == v@.len(),
            start + len <= v@.len(),
            t <= len,
            r@ == v@.subrange(start as int, start + t),
        decreases len - t,
    {
        r.push(v[start + t]);
        t = t + 1;
        assert(r@ =~= v@.subrange(start as int, start + t));
    }
    r
}

/// For each of `n` zones, whether it is absent from `to_cull`.
fn keep_list(to_cull: &Vec<usize>, n: usize) -> (r: Vec<bool>)
    ensures
        r@ == keep_flags(to_cull@, n as nat),
{
    let mut r: Vec<bool> = Vec::new();
    let mut z: usize = 0;
    while z < n
        invariant
            z <= n,
            r@.len() == z,
            forall|y: int| 0 <= y < z ==> #[trigger] r@[y] == !to_cull@.contains(y as usize),
        decreases n - z,
    {
        let mut listed = false;
        let mut j: usize = 0;
        while j < to_cull.len()
            invariant
                j <= to_cull@.len(),
                listed == exists|l: int| 0 <= l < j && to_cull@[l] == z,
            decreases to_cull@.len() - j,
        {
            if to_cull[j] == z {
                listed = true;
            }
            j = j + 1;
        }
        r.push(!listed);
        z = z + 1;
    }
    assert(r@ =~= keep_flags(to_cull@, n as nat));
    r
}

/// The positions where `s` is `true`, in increasing order.
fn positions_of(s: &Vec<bool>) -> (r: Vec<usize>)
    ensures
        r@ == true_positions(s@),
{
    let mut r: Vec<usize> = Vec::new();
    let mut z: usize = 0;
    while z < s.len()
        invariant
            z <= s@.len(),
            r@ == true_positions(s@.take(z as int)),
        decreases s@.len() - z,
    {
        assert(s@.take(z + 1).drop_last() == s@.take(z as int));
        if s[z] {
            r.push(z);
        }
        z = z + 1;
    }
    assert(s@.take(z as int) == s@);
    r
}

} // verus!
