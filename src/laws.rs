//! Why the index answers range queries exactly.
//!
//! Distances are modelled exactly, as integers over point identifiers:
//! identifiers `0 .. points` are the dataset, so a zone's reference points
//! are identifiers too, and the query is one more identifier. Radii are given
//! per ring. Under the metric axioms, the must-be-in and must-be-out tests of
//! every zone are conservative, and from that the bit phase never drops an
//! answer.
use vstd::prelude::*;
use crate::mask::{lists_candidates, mask, row_mask, survives, IndexView};
use crate::parallel::{lemma_true_positions_bound, true_positions};
use crate::zones::{lemma_zone_layout, zone_layout, zone_within, Zone};

verus! {

/// `d` satisfies the metric axioms: non-negative, zero on a point and
/// itself, symmetric, and the triangle inequality.
pub open spec fn is_metric(d: spec_fn(int, int) -> int) -> bool {
    &&& forall|x: int, y: int| #[trigger] d(x, y) >= 0
    &&& forall|x: int| #[trigger] d(x, x) == 0
    &&& forall|x: int, y: int| #[trigger] d(x, y) == d(y, x)
    &&& forall|x: int, y: int, z: int| #![trigger d(x, y), d(y, z)] d(x, z) <= d(x, y) + d(y, z)
}

/// Whether point `x` lies in zone `z`: inside the ball's radius, or
/// strictly closer to the sheet's first reference point than to its second.
pub open spec fn is_in(d: spec_fn(int, int) -> int, radius: spec_fn(int) -> int, z: Zone, x: int) -> bool {
    match z {
        Zone::Ball { center, ring } => d(center as int, x) < radius(ring as int),
        Zone::Sheet { a, b } => d(a as int, x) - d(b as int, x) < 0,
    }
}

/// Whether every point within `t` of `q` must lie in zone `z`.
pub open spec fn must_be_in(d: spec_fn(int, int) -> int, radius: spec_fn(int) -> int, z: Zone, q: int, t: int) -> bool {
    match z {
        Zone::Ball { center, ring } => d(center as int, q) < radius(ring as int) - t,
        Zone::Sheet { a, b } => d(q, a as int) - d(q, b as int) < -2 * t,
    }
}

/// Whether every point within `t` of `q` must lie outside zone `z`.
pub open spec fn must_be_out(d: spec_fn(int, int) -> int, radius: spec_fn(int) -> int, z: Zone, q: int, t: int) -> bool {
    match z {
        Zone::Ball { center, ring } => d(center as int, q) >= radius(ring as int) + t,
        Zone::Sheet { a, b } => d(q, a as int) - d(q, b as int) >= 2 * t,
    }
}

/// Bit `i` of row `z` records whether point `i` lies in zone `z`.
pub open spec fn consistent(v: IndexView, d: spec_fn(int, int) -> int, radius: spec_fn(int) -> int) -> bool {
    forall|z: int, i: int|
        0 <= z < v.zones.len() && 0 <= i < v.points ==> #[trigger] v.matrix[z][i] == is_in(d, radius, v.zones[z], i)
}

/// The zones listed as in pass the must-be-in test for `(q, t)`, and those
/// listed as out pass the must-be-out test.
pub open spec fn classified(
    v: IndexView,
    d: spec_fn(int, int) -> int,
    radius: spec_fn(int) -> int,
    q: int,
    t: int,
    ins: Seq<usize>,
    outs: Seq<usize>,
) -> bool {
    &&& v.names_zones(ins)
    &&& v.names_zones(outs)
    &&& forall|j: int| 0 <= j < ins.len() ==> must_be_in(d, radius, v.zones[#[trigger] ins[j] as int], q, t)
    &&& forall|j: int| 0 <= j < outs.len() ==> must_be_out(d, radius, v.zones[#[trigger] outs[j] as int], q, t)
}

/// The must-be tests are conservative: for a point `x` within `t` of `q`,
/// passing must-be-in puts `x` in the zone, and passing must-be-out puts it
/// outside.
pub proof fn lemma_zone_tests_conservative(
    d: spec_fn(int, int) -> int,
    radius: spec_fn(int) -> int,
    z: Zone,
    q: int,
    t: int,
    x: int,
)
    requires
        is_metric(d),
        d(q, x) <= t,
    ensures
        must_be_in(d, radius, z, q, t) ==> is_in(d, radius, z, x),
        must_be_out(d, radius, z, q, t) ==> !is_in(d, radius, z, x),
{
    match z {
        Zone::Ball { center, ring } => {
            let c = center as int;
            assert(d(c, x) <= d(c, q) + d(q, x));
            assert(d(c, q) <= d(c, x) + d(x, q));
            assert(d(x, q) == d(q, x));
        },
        Zone::Sheet { a, b } => {
            let a = a as int;
            let b = b as int;
            assert(d(a, x) <= d(a, q) + d(q, x));
            assert(d(b, x) <= d(b, q) + d(q, x));
            assert(d(q, a) <= d(q, x) + d(x, a));
            assert(d(q, b) <= d(q, x) + d(x, b));
            assert(d(a, q) == d(q, a));
            assert(d(b, q) == d(q, b));
            assert(d(x, a) == d(a, x));
            assert(d(x, b) == d(b, x));
        },
    }
}

/// No answer is pruned: with rows that record the zones and a
/// classification by the must-be tests, every point within `t` of `q`
/// survives the bit phase.
pub proof fn lemma_answer_survives(
    v: IndexView,
    d: spec_fn(int, int) -> int,
    radius: spec_fn(int) -> int,
    q: int,
    t: int,
    ins: Seq<usize>,
    outs: Seq<usize>,
    i: int,
)
    requires
        is_metric(d),
        v.well_formed(),
        consistent(v, d, radius),
        classified(v, d, radius, q, t, ins, outs),
        0 <= i < v.points,
        d(q, i) <= t,
    ensures
        survives(v.matrix, ins, outs, i),
{
    assert forall|j: int| 0 <= j < ins.len() implies v.matrix[#[trigger] ins[j] as int][i] by {
        lemma_zone_tests_conservative(d, radius, v.zones[ins[j] as int], q, t, i);
        assert(v.matrix[ins[j] as int][i] == is_in(d, radius, v.zones[ins[j] as int], i));
    }
    assert forall|j: int| 0 <= j < outs.len() implies !v.matrix[#[trigger] outs[j] as int][i] by {
        lemma_zone_tests_conservative(d, radius, v.zones[outs[j] as int], q, t, i);
        assert(v.matrix[outs[j] as int][i] == is_in(d, radius, v.zones[outs[j] as int], i));
    }
}

/// Soundness: every dataset point within `t` of `q` is among the
/// candidates of the bit phase, so the final distance check keeps it.
pub proof fn lemma_soundness(
    v: IndexView,
    d: spec_fn(int, int) -> int,
    radius: spec_fn(int) -> int,
    q: int,
    t: int,
    ins: Seq<usize>,
    outs: Seq<usize>,
    r: Seq<usize>,
    i: int,
)
    requires
        is_metric(d),
        v.well_formed(),
        consistent(v, d, radius),
        classified(v, d, radius, q, t, ins, outs),
        lists_candidates(r, v, ins, outs),
        0 <= i < v.points,
        d(q, i) <= t,
    ensures
        r.contains(i as usize),
{
    lemma_answer_survives(v, d, radius, q, t, ins, outs, i);
    assert(mask(v.matrix, v.points, ins, outs)[i]);
    let j = choose|j: int| 0 <= j < r.len() && r[j] == i;
    assert(r[j] == i as usize);
}

/// Soundness and completeness together: the candidates that pass the final
/// distance check are exactly the dataset points within `t` of `q`.
pub proof fn lemma_exact_answers(
    v: IndexView,
    d: spec_fn(int, int) -> int,
    radius: spec_fn(int) -> int,
    q: int,
    t: int,
    ins: Seq<usize>,
    outs: Seq<usize>,
    r: Seq<usize>,
)
    requires
        is_metric(d),
        v.well_formed(),
        consistent(v, d, radius),
        classified(v, d, radius, q, t, ins, outs),
        lists_candidates(r, v, ins, outs),
    ensures
        forall|i: int|
            0 <= i < v.points ==> ((r.contains(i as usize) && #[trigger] d(q, i) <= t) <==> d(q, i) <= t),
        forall|j: int| 0 <= j < r.len() ==> #[trigger] r[j] < v.points,
{
    assert forall|i: int| 0 <= i < v.points implies ((r.contains(i as usize) && #[trigger] d(q, i) <= t) <==> d(q, i) <= t) by {
        if d(q, i) <= t {
            lemma_soundness(v, d, radius, q, t, ins, outs, r, i);
        }
    }
}

/// Zero threshold: the points kept are exactly those at distance zero from
/// the query, the points that coincide with it.
pub proof fn lemma_zero_threshold(
    v: IndexView,
    d: spec_fn(int, int) -> int,
    radius: spec_fn(int) -> int,
    q: int,
    ins: Seq<usize>,
    outs: Seq<usize>,
    r: Seq<usize>,
)
    requires
        is_metric(d),
        v.well_formed(),
        consistent(v, d, radius),
        classified(v, d, radius, q, 0, ins, outs),
        lists_candidates(r, v, ins, outs),
    ensures
        forall|i: int| 0 <= i < v.points ==> ((r.contains(i as usize) && #[trigger] d(q, i) <= 0) <==> d(q, i) == 0),
{
    lemma_exact_answers(v, d, radius, q, 0, ins, outs, r);
    assert forall|i: int| 0 <= i < v.points implies ((r.contains(i as usize) && #[trigger] d(q, i) <= 0) <==> d(q, i) == 0) by {
        assert(d(q, i) >= 0);
    }
}

/// A threshold at least the dataset's diameter keeps every point, when the
/// query coincides with a point of the dataset.
pub proof fn lemma_threshold_covers_dataset(
    v: IndexView,
    d: spec_fn(int, int) -> int,
    radius: spec_fn(int) -> int,
    q: int,
    t: int,
    ins: Seq<usize>,
    outs: Seq<usize>,
    r: Seq<usize>,
    home: int,
)
    requires
        is_metric(d),
        v.well_formed(),
        consistent(v, d, radius),
        classified(v, d, radius, q, t, ins, outs),
        lists_candidates(r, v, ins, outs),
        forall|a: int, b: int| 0 <= a < v.points && 0 <= b < v.points ==> #[trigger] d(a, b) <= t,
        0 <= home < v.points,
        d(q, home) == 0,
    ensures
        forall|i: int| 0 <= i < v.points ==> #[trigger] r.contains(i as usize),
        forall|i: int| 0 <= i < v.points ==> #[trigger] d(q, i) <= t,
{
    assert forall|i: int| 0 <= i < v.points implies #[trigger] d(q, i) <= t by {
        assert(d(q, i) <= d(q, home) + d(home, i));
        assert(d(home, i) <= t);
    }
    assert forall|i: int| 0 <= i < v.points implies #[trigger] r.contains(i as usize) by {
        assert(d(q, i) <= d(q, home) + d(home, i));
        assert(d(home, i) <= t);
        lemma_soundness(v, d, radius, q, t, ins, outs, r, i);
    }
}

/// An empty dataset has no candidates.
pub proof fn lemma_empty_dataset(v: IndexView, ins: Seq<usize>, outs: Seq<usize>, r: Seq<usize>)
    requires
        v.points == 0,
        lists_candidates(r, v, ins, outs),
    ensures
        r.len() == 0,
{
    if r.len() > 0 {
        assert(r[0] < 0);
    }
}

/// Two indexes with the same rows give the same candidates for every
/// classification, whichever backend or block size holds the rows.
pub proof fn lemma_same_rows_same_candidates(
    v1: IndexView,
    v2: IndexView,
    ins: Seq<usize>,
    outs: Seq<usize>,
    r1: Seq<usize>,
    r2: Seq<usize>,
)
    requires
        v1.matrix == v2.matrix,
        v1.points == v2.points,
        lists_candidates(r1, v1, ins, outs),
        lists_candidates(r2, v2, ins, outs),
    ensures
        forall|i: usize| r1.contains(i) <==> r2.contains(i),
{
    assert forall|i: usize| r1.contains(i) implies r2.contains(i) by {
        let j = choose|j: int| 0 <= j < r1.len() && r1[j] == i;
        assert(mask(v2.matrix, v2.points, ins, outs)[i as int]);
        let l = choose|l: int| 0 <= l < r2.len() && r2[l] == i as int;
        assert(r2[l] == i);
    }
    assert forall|i: usize| r2.contains(i) implies r1.contains(i) by {
        let j = choose|j: int| 0 <= j < r2.len() && r2[j] == i;
        assert(mask(v1.matrix, v1.points, ins, outs)[i as int]);
        let l = choose|l: int| 0 <= l < r1.len() && r1[l] == i as int;
        assert(r1[l] == i);
    }
}

/// Loading only the rows of the classified zones, as the on-disk backend
/// does, gives the same candidate mask as the index holding every row.
pub proof fn lemma_loaded_rows_match_index(v: IndexView, ins: Seq<usize>, outs: Seq<usize>)
    requires
        v.names_zones(ins),
        v.names_zones(outs),
    ensures
        row_mask(
            ins.map_values(|z: usize| v.matrix[z as int]),
            outs.map_values(|z: usize| v.matrix[z as int]),
            v.points,
        ) == mask(v.matrix, v.points, ins, outs),
{
    let im = ins.map_values(|z: usize| v.matrix[z as int]);
    let om = outs.map_values(|z: usize| v.matrix[z as int]);
    assert forall|i: int| 0 <= i < v.points implies row_mask(im, om, v.points)[i] == mask(v.matrix, v.points, ins, outs)[i] by {
        if row_mask(im, om, v.points)[i] {
            assert forall|j: int| 0 <= j < ins.len() implies v.matrix[#[trigger] ins[j] as int][i] by {
                assert(im[j][i]);
            }
            assert forall|j: int| 0 <= j < outs.len() implies !v.matrix[#[trigger] outs[j] as int][i] by {
                assert(!om[j][i]);
            }
        }
        if mask(v.matrix, v.points, ins, outs)[i] {
            assert forall|j: int| 0 <= j < im.len() implies #[trigger] im[j][i] by {
                assert(v.matrix[ins[j] as int][i]);
            }
            assert forall|j: int| 0 <= j < om.len() implies !#[trigger] om[j][i] by {
                assert(!v.matrix[outs[j] as int][i]);
            }
        }
    }
    assert(row_mask(im, om, v.points) =~= mask(v.matrix, v.points, ins, outs));
}

/// Culling keeps the rows faithful: zones picked out of an index whose rows
/// record its zones, each with its own row, still have rows that record them.
pub proof fn lemma_cull_keeps_consistency(
    before: IndexView,
    after: IndexView,
    keep: Seq<bool>,
    d: spec_fn(int, int) -> int,
    radius: spec_fn(int) -> int,
)
    requires
        consistent(before, d, radius),
        keep.len() == before.zones.len(),
        keep.len() <= usize::MAX,
        after.points == before.points,
        after.zones == true_positions(keep).map_values(|z: usize| before.zones[z as int]),
        after.matrix == true_positions(keep).map_values(|z: usize| before.matrix[z as int]),
    ensures
        consistent(after, d, radius),
{
    lemma_true_positions_bound(keep);
    assert forall|z: int, i: int| 0 <= z < after.zones.len() && 0 <= i < after.points implies #[trigger] after.matrix[z][i]
        == is_in(d, radius, after.zones[z], i) by {
        let w = true_positions(keep)[z] as int;
        assert(before.matrix[w][i] == is_in(d, radius, before.zones[w], i));
    }
}

/// Culling preserves soundness: after culling an index whose rows recorded
/// its zones, every point within `t` of `q` is still a candidate.
pub proof fn lemma_cull_preserves_soundness(
    before: IndexView,
    after: IndexView,
    keep: Seq<bool>,
    d: spec_fn(int, int) -> int,
    radius: spec_fn(int) -> int,
    q: int,
    t: int,
    ins: Seq<usize>,
    outs: Seq<usize>,
    r: Seq<usize>,
    i: int,
)
    requires
        is_metric(d),
        consistent(before, d, radius),
        keep.len() == before.zones.len(),
        keep.len() <= usize::MAX,
        after.well_formed(),
        after.points == before.points,
        after.zones == true_positions(keep).map_values(|z: usize| before.zones[z as int]),
        after.matrix == true_positions(keep).map_values(|z: usize| before.matrix[z as int]),
        classified(after, d, radius, q, t, ins, outs),
        lists_candidates(r, after, ins, outs),
        0 <= i < after.points,
        d(q, i) <= t,
    ensures
        r.contains(i as usize),
{
    lemma_cull_keeps_consistency(before, after, keep, d, radius);
    lemma_soundness(after, d, radius, q, t, ins, outs, r, i);
}

/// With `k` reference points taken from a dataset of `n >= k` points, every
/// zone refers to points of the dataset, also when `k == n`.
pub proof fn lemma_references_in_dataset(k: nat, n: nat)
    requires
        k <= n,
        k <= usize::MAX,
    ensures
        forall|z: int| 0 <= z < zone_layout(k).len() ==> match #[trigger] zone_layout(k)[z] {
            Zone::Ball { center, ring } => center < n,
            Zone::Sheet { a, b } => a < n && b < n,
        },
{
    lemma_zone_layout(k);
    assert forall|z: int| 0 <= z < zone_layout(k).len() implies match #[trigger] zone_layout(k)[z] {
        Zone::Ball { center, ring } => center < n,
        Zone::Sheet { a, b } => a < n && b < n,
    } by {
        assert(zone_within(zone_layout(k)[z], k));
    }
}

} // verus!
