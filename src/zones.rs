//! Exclusion zones: which zones an index holds, and in what order.
//!
//! A zone names its reference points by their position in the dataset (the
//! reference points are the first `k` points). A ball also names its ring:
//! ring `j` has radius `mean_distance + (j - 2) * radius_increment`, so the
//! five rings run from the smallest radius to the largest.
use vstd::prelude::*;
use itertools::Itertools;

verus! {

/// Number of ball radii per reference point.
pub const RINGS: usize = 5;

/// One exclusion zone.
#[derive(Clone, Copy, Debug, PartialEq, Eq, Structural)]
pub enum Zone {
    /// Ball around reference point `center`, with radius of ring `ring`.
    Ball { center: usize, ring: usize },
    /// Sheet between reference points `a` and `b` (offset zero): a point is in
    /// it when it is strictly closer to `a` than to `b`.
    Sheet { a: usize, b: usize },
}

/// All pairs `(i, j)` with `start <= i < j < k`, in lexicographic order.
pub open spec fn pairs_from(start: nat, k: nat) -> Seq<(usize, usize)>
    decreases k - start,
{
    if start >= k {
        Seq::empty()
    } else {
        Seq::new((k - start - 1) as nat, |j: int| (start as usize, (start + 1 + j) as usize))
            + pairs_from(start + 1, k)
    }
}

/// All pairs `(i, j)` with `i < j < k`, in lexicographic order: the
/// two-element combinations of `0..k`.
pub open spec fn pairs(k: nat) -> Seq<(usize, usize)> {
    pairs_from(0, k)
}

/// `(c, r)` for every reference point `c < k` and ring `r`, reference point
/// first.
pub open spec fn grid(k: nat) -> Seq<(usize, usize)> {
    Seq::new(k * RINGS as nat, |i: int| ((i / RINGS as int) as usize, (i % RINGS as int) as usize))
}

/// Ball zones for `k` reference points: five per point, by increasing radius.
pub open spec fn ball_layout(k: nat) -> Seq<Zone> {
    grid(k).map_values(|p: (usize, usize)| Zone::Ball { center: p.0, ring: p.1 })
}

/// Sheet zones for `k` reference points: one per unordered pair.
pub open spec fn sheet_layout(k: nat) -> Seq<Zone> {
    pairs(k).map_values(|p: (usize, usize)| Zone::Sheet { a: p.0, b: p.1 })
}

/// All zones for `k` reference points: the balls, then the sheets.
pub open spec fn zone_layout(k: nat) -> Seq<Zone> {
    ball_layout(k) + sheet_layout(k)
}

/// Number of zones for `k` reference points.
pub open spec fn zone_count(k: nat) -> nat {
    (RINGS as nat * k + k * (k - 1) / 2) as nat
}

/// Whether a zone refers only to the first `k` points and to a valid ring.
pub open spec fn zone_within(z: Zone, k: nat) -> bool {
    match z {
        Zone::Ball { center, ring } => center < k && ring < RINGS,
        Zone::Sheet { a, b } => a < b && b < k,
    }
}

/// `m` new pairs on top of the `m(m - 1)/2` pairs of a smaller range make
/// `(m + 1)m/2`.
proof fn lemma_triangle_step(m: int)
    requires
        m >= 0,
    ensures
        m + m * (m - 1) / 2 == (m + 1) * m / 2,
{
    let x = m * (m - 1);
    assert((m + 1) * m == x + 2 * m) by (nonlinear_arith)
        requires
            x == m * (m - 1),
    ;
    assert((x + 2 * m) / 2 == x / 2 + m);
}

/// The pairs starting at `start` number `(k - start)(k - start - 1) / 2`,
/// and each is an ordered pair below `k`.
pub proof fn lemma_pairs_from(start: nat, k: nat)
    requires
        start <= k,
        k <= usize::MAX,
    ensures
        pairs_from(start, k).len() == ((k - start) * (k - start - 1) / 2) as nat,
        forall|p: int|
            0 <= p < pairs_from(start, k).len() ==> start <= (#[trigger] pairs_from(start, k)[p]).0
                && pairs_from(start, k)[p].0 < pairs_from(start, k)[p].1
                && pairs_from(start, k)[p].1 < k,
    decreases k - start,
{
    if start < k {
        lemma_pairs_from(start + 1, k);
        let m = k - start - 1;
        lemma_triangle_step(m);
        assert(m * (m - 1) == (k - (start + 1)) * (k - (start + 1) - 1));
        assert((m + 1) * m == (k - start) * (k - start - 1));
        let head = Seq::new(m as nat, |j: int| (start as usize, (start + 1 + j) as usize));
        assert(pairs_from(start, k) == head + pairs_from(start + 1, k));
        let rest = pairs_from(start + 1, k).len() as int;
        assert(rest == m * (m - 1) / 2);
        assert(pairs_from(start, k).len() == m + rest);
        assert(pairs_from(start, k).len() == (m + 1) * m / 2);
        assert(pairs_from(start, k).len() == (k - start) * (k - start - 1) / 2);
        assert forall|p: int| 0 <= p < pairs_from(start, k).len() implies start <= (
        #[trigger] pairs_from(start, k)[p]).0 && pairs_from(start, k)[p].0 < pairs_from(start, k)[p].1
            && pairs_from(start, k)[p].1 < k by {
            if p >= m {
                assert(pairs_from(start, k)[p] == pairs_from(start + 1, k)[p - m]);
            } else {
                assert(pairs_from(start, k)[p] == head[p]);
            }
        }
    } else {
        assert(pairs_from(start, k).len() == 0);
        assert(k - start == 0);
        assert((k - start) * (k - start - 1) == 0) by (nonlinear_arith)
            requires
                k - start == 0,
        ;
    }
}

/// There are `k(k - 1)/2` pairs below `k`, each `(i, j)` with `i < j < k`.
pub proof fn lemma_pairs(k: nat)
    requires
        k <= usize::MAX,
    ensures
        pairs(k).len() == (k * (k - 1) / 2) as nat,
        forall|p: int| 0 <= p < pairs(k).len() ==> (#[trigger] pairs(k)[p]).0 < pairs(k)[p].1 < k,
{
    lemma_pairs_from(0, k);
}

/// The layout holds `5k + k(k - 1)/2` zones, each within the first `k` points.
pub proof fn lemma_zone_layout(k: nat)
    requires
        k <= usize::MAX,
    ensures
        zone_layout(k).len() == zone_count(k),
        forall|z: int| 0 <= z < zone_layout(k).len() ==> zone_within(#[trigger] zone_layout(k)[z], k),
{
    lemma_pairs(k);
    assert forall|z: int| 0 <= z < zone_layout(k).len() implies zone_within(#[trigger] zone_layout(k)[z], k) by {
        if z < ball_layout(k).len() {
            let i = z;
            assert(0 <= i / 5) by (nonlinear_arith) requires i >= 0;
            assert(i / 5 < k) by (nonlinear_arith) requires 0 <= i, i < k * 5;
        } else {
            assert(zone_layout(k)[z] == sheet_layout(k)[z - ball_layout(k).len()]);
        }
    }
}

/// Relies on `Itertools::combinations` on `0..k` with two items: every pair
/// of positions `i < j`, in lexicographic order.
#[verifier::external_body]
fn combinations_of_two(k: usize) -> (r: Vec<(usize, usize)>)
    ensures
        r@ == pairs(k as nat),
{
    (0..k).combinations(2).map(|v| (v[0], v[1])).collect()
}

/// Relies on `Itertools::cartesian_product` of `0..k` and `0..5`: each
/// item of the first range with each of the second, first range outermost.
#[verifier::external_body]
fn reference_rings(k: usize) -> (r: Vec<(usize, usize)>)
    requires
        k * RINGS <= usize::MAX,
    ensures
        r@ == grid(k as nat),
{
    (0..k).cartesian_product(0..RINGS).collect()
}

/// Ball zones for the first `k` points: five rings around each.
pub fn ball_zones(k: usize) -> (r: Vec<Zone>)
    requires
        k * RINGS <= usize::MAX,
    ensures
        r@ == ball_layout(k as nat),
{
    let grid_points = reference_rings(k);
    let mut r: Vec<Zone> = Vec::new();
    let mut i: usize = 0;
    while i < grid_points.len()
        invariant
            i <= grid_points@.len(),
            grid_points@ == grid(k as nat),
            r@ == grid(k as nat).take(i as int).map_values(
                |p: (usize, usize)| Zone::Ball { center: p.0, ring: p.1 },
            ),
        decreases grid_points@.len() - i,
    {
        let (center, ring) = grid_points[i];
        r.push(Zone::Ball { center, ring });
        i = i + 1;
        assert(grid(k as nat).take(i as int) == grid(k as nat).take(i - 1).push(grid_points@[i - 1]));
    }
    assert(grid(k as nat).take(i as int) == grid(k as nat));
    r
}

/// Sheet zones for the first `k` points: one per pair `i < j`.
pub fn sheet_zones(k: usize) -> (r: Vec<Zone>)
    ensures
        r@ == sheet_layout(k as nat),
{
    let pair_list = combinations_of_two(k);
    let mut r: Vec<Zone> = Vec::new();
    let mut i: usize = 0;
    while i < pair_list.len()
        invariant
            i <= pair_list@.len(),
            pair_list@ == pairs(k as nat),
            r@ == pairs(k as nat).take(i as int).map_values(
                |p: (usize, usize)| Zone::Sheet { a: p.0, b: p.1 },
            ),
        decreases pair_list@.len() - i,
    {
        let (a, b) = pair_list[i];
        r.push(Zone::Sheet { a, b });
        i = i + 1;
        assert(pairs(k as nat).take(i as int) == pairs(k as nat).take(i - 1).push(pair_list@[i - 1]));
    }
    assert(pairs(k as nat).take(i as int) == pairs(k as nat));
    r
}

/// All zones for the first `k` points: the balls, then the sheets.
pub fn zones_for(k: usize) -> (r: Vec<Zone>)
    requires
        k * RINGS <= usize::MAX,
    ensures
        r@ == zone_layout(k as nat),
        r@.len() == zone_count(k as nat),
        forall|z: int| 0 <= z < r@.len() ==> zone_within(#[trigger] r@[z], k as nat),
{
    let mut r = ball_zones(k);
    let mut sheets = sheet_zones(k);
    r.append(&mut sheets);
    proof {
        lemma_zone_layout(k as nat);
    }
    r
}

/// Exclusion pairs `(i, j)`, `i < j < n`, in lexicographic order, for
/// comparing rows of an index with `n` zones.
pub fn zone_pairs(n: usize) -> (r: Vec<(usize, usize)>)
    ensures
        r@ == pairs(n as nat),
        forall|p: int| 0 <= p < r@.len() ==> (#[trigger] r@[p]).0 < r@[p].1 < n,
{
    proof {
        lemma_pairs(n as nat);
    }
    combinations_of_two(n)
}

/// The zones of an index over `points` points with `ref_points` reference
/// points, or `None` when the count of reference points is zero, larger than
/// the dataset, or too large for five balls per point to be counted.
pub fn plan_zones(points: usize, ref_points: u64) -> (r: Option<Vec<Zone>>)
    ensures
        r is Some <==> (0 < ref_points && ref_points <= points && ref_points * RINGS <= usize::MAX),
        r matches Some(zs) ==> zs@ == zone_layout(ref_points as nat) && zs@.len() == zone_count(
            ref_points as nat,
        ),
{
    if ref_points == 0 || ref_points > points as u64 {
        return None;
    }
    let k = ref_points as usize;
    if k > usize::MAX / RINGS {
        return None;
    }
    Some(zones_for(k))
}

} // verus!
