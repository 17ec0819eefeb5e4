use bitpart::{
    classify, plan_zones, rows_block_candidates, rows_candidates, zones_for, Euclidean, Parallel, Sequential, Zone,
};

const MEAN: f64 = 1.81;
const INC: f64 = 0.3;

fn dist(a: &[f64], b: &[f64]) -> f64 {
    a.iter().zip(b).map(|(x, y)| (x - y) * (x - y)).sum::<f64>().sqrt()
}

fn radius(ring: usize) -> f64 {
    [MEAN - 2.0 * INC, MEAN - INC, MEAN, MEAN + INC, MEAN + 2.0 * INC][ring]
}

fn is_in(z: &Zone, data: &[Vec<f64>], x: &[f64]) -> bool {
    match *z {
        Zone::Ball { center, ring } => dist(&data[center], x) < radius(ring),
        Zone::Sheet { a, b } => dist(&data[a], x) - dist(&data[b], x) < 0.0,
    }
}

fn must_be_in(z: &Zone, data: &[Vec<f64>], q: &[f64], t: f64) -> bool {
    match *z {
        Zone::Ball { center, ring } => dist(&data[center], q) < radius(ring) - t,
        Zone::Sheet { a, b } => dist(q, &data[a]) - dist(q, &data[b]) < -2.0 * t,
    }
}

fn must_be_out(z: &Zone, data: &[Vec<f64>], q: &[f64], t: f64) -> bool {
    match *z {
        Zone::Ball { center, ring } => dist(&data[center], q) >= radius(ring) + t,
        Zone::Sheet { a, b } => dist(q, &data[a]) - dist(q, &data[b]) >= 2.0 * t,
    }
}

fn rows(zones: &[Zone], data: &[Vec<f64>]) -> Vec<Vec<bool>> {
    zones.iter().map(|z| data.iter().map(|x| is_in(z, data, x)).collect()).collect()
}

fn flags(zones: &[Zone], data: &[Vec<f64>], q: &[f64], t: f64) -> (Vec<usize>, Vec<usize>) {
    let ins: Vec<bool> = zones.iter().map(|z| must_be_in(z, data, q, t)).collect();
    let outs: Vec<bool> = zones.iter().map(|z| must_be_out(z, data, q, t)).collect();
    classify(&ins, &outs)
}

fn verify(cands: Vec<usize>, data: &[Vec<f64>], q: &[f64], t: f64) -> Vec<(usize, f64)> {
    cands.into_iter().map(|i| (i, dist(&data[i], q))).filter(|(_, d)| *d <= t).collect()
}

fn search_seq(index: &Sequential, data: &[Vec<f64>], q: &[f64], t: f64) -> Vec<(usize, f64)> {
    let (ins, outs) = flags(index.zone_list(), data, q, t);
    verify(index.candidates(&ins, &outs), data, q, t)
}

fn search_par(index: &Parallel, data: &[Vec<f64>], q: &[f64], t: f64) -> Vec<(usize, f64)> {
    let (ins, outs) = flags(index.zone_list(), data, q, t);
    verify(index.candidates(&ins, &outs), data, q, t)
}

fn brute(data: &[Vec<f64>], q: &[f64], t: f64) -> Vec<(usize, f64)> {
    (0..data.len()).map(|i| (i, dist(&data[i], q))).filter(|(_, d)| *d <= t).collect()
}

fn square() -> Vec<Vec<f64>> {
    vec![vec![0.0, 0.0], vec![1.0, 0.0], vec![0.0, 1.0], vec![1.0, 1.0], vec![5.0, 5.0]]
}

fn sequential(data: &[Vec<f64>], k: u64) -> Sequential {
    let zones = plan_zones(data.len(), k).unwrap();
    let r = rows(&zones, data);
    Sequential::setup(zones, &r, data.len())
}

fn parallel(data: &[Vec<f64>], k: u64, block: Option<usize>) -> Parallel {
    let zones = plan_zones(data.len(), k).unwrap();
    let r = rows(&zones, data);
    Parallel::setup(zones, &r, data.len(), block)
}

/// Deterministic pseudo-random points in the unit cube.
fn cloud(n: usize, dims: usize, seed: u64) -> Vec<Vec<f64>> {
    let mut state = seed;
    (0..n)
        .map(|_| {
            (0..dims)
                .map(|_| {
                    state = state.wrapping_mul(6364136223846793005).wrapping_add(1442695040888963407);
                    (state >> 11) as f64 / (1u64 << 53) as f64
                })
                .collect()
        })
        .collect()
}

#[test]
fn square_within_one_and_a_half() {
    let data = square();
    let index = sequential(&data, 2);
    let res = search_seq(&index, &data, &[0.0, 0.0], 1.5);
    assert_eq!(res, vec![(0, 0.0), (1, 1.0), (2, 1.0), (3, 2.0_f64.sqrt())]);
}

#[test]
fn square_zero_threshold() {
    let data = square();
    let index = sequential(&data, 2);
    assert_eq!(search_seq(&index, &data, &[0.0, 0.0], 0.0), vec![(0, 0.0)]);
}

#[test]
fn square_far_query() {
    let data = square();
    let index = sequential(&data, 2);
    assert!(search_seq(&index, &data, &[10.0, 10.0], 1.0).is_empty());
}

#[test]
fn threshold_beyond_diameter_returns_everything() {
    let data = square();
    let index = sequential(&data, 2);
    let res = search_seq(&index, &data, &[1.0, 1.0], 8.0);
    assert_eq!(res, brute(&data, &[1.0, 1.0], 8.0));
    assert_eq!(res.len(), data.len());
}

#[test]
fn empty_dataset_gives_no_candidates() {
    let index = Sequential::setup(Vec::new(), &Vec::new(), 0);
    assert!(index.is_empty());
    assert!(index.candidates(&vec![], &vec![]).is_empty());
    assert_eq!(plan_zones(0, 1), None);
}

#[test]
fn reference_points_may_equal_dataset_size() {
    let data = square();
    let index = sequential(&data, 5);
    assert_eq!(index.zones(), 25 + 10);
    let res = search_seq(&index, &data, &[0.5, 0.5], 0.8);
    assert_eq!(res, brute(&data, &[0.5, 0.5], 0.8));
}

#[test]
fn reference_point_count_is_checked() {
    assert_eq!(plan_zones(5, 0), None);
    assert_eq!(plan_zones(5, 6), None);
    assert_eq!(plan_zones(5, 1).unwrap().len(), 5);
}

#[test]
fn zone_layout_order() {
    let z = zones_for(3);
    assert_eq!(z.len(), 15 + 3);
    assert_eq!(z[0], Zone::Ball { center: 0, ring: 0 });
    assert_eq!(z[4], Zone::Ball { center: 0, ring: 4 });
    assert_eq!(z[5], Zone::Ball { center: 1, ring: 0 });
    assert_eq!(z[14], Zone::Ball { center: 2, ring: 4 });
    assert_eq!(&z[15..], &[Zone::Sheet { a: 0, b: 1 }, Zone::Sheet { a: 0, b: 2 }, Zone::Sheet { a: 1, b: 2 }]);
    assert_eq!(zones_for(40).len(), 980);
}

#[test]
fn classify_prefers_in() {
    let (ins, outs) = classify(&vec![true, false, false, true], &vec![true, true, false, false]);
    assert_eq!(ins, vec![0, 3]);
    assert_eq!(outs, vec![1]);
}

#[test]
fn rows_record_zone_membership() {
    let data = square();
    let zones = zones_for(2);
    let r = rows(&zones, &data);
    let index = Sequential::setup(zones.clone(), &r, data.len());
    let par = Parallel::setup(zones.clone(), &r, data.len(), Some(2));
    for (z, zone) in zones.iter().enumerate() {
        let expect: Vec<usize> = (0..data.len()).filter(|&i| is_in(zone, &data, &data[i])).collect();
        assert_eq!(index.candidates(&vec![z], &vec![]), expect);
        assert_eq!(par.candidates(&vec![z], &vec![]), expect);
        let outside: Vec<usize> = (0..data.len()).filter(|i| !expect.contains(i)).collect();
        assert_eq!(index.candidates(&vec![], &vec![z]), outside);
    }
}

#[test]
fn candidates_combine_rows() {
    let zones = vec![Zone::Sheet { a: 0, b: 1 }, Zone::Sheet { a: 0, b: 2 }, Zone::Sheet { a: 1, b: 2 }];
    let r = vec![
        vec![true, true, false, true, false],
        vec![true, false, true, true, true],
        vec![false, false, false, true, true],
    ];
    let index = Sequential::setup(zones.clone(), &r, 5);
    assert_eq!(index.candidates(&vec![0, 1], &vec![2]), vec![0]);
    assert_eq!(index.candidates(&vec![], &vec![]), vec![0, 1, 2, 3, 4]);
    assert_eq!(index.candidates(&vec![1], &vec![]), vec![0, 2, 3, 4]);
    for block in [None, Some(1), Some(2), Some(3), Some(5), Some(7)] {
        let par = Parallel::setup(zones.clone(), &r, 5, block);
        assert_eq!(par.candidates(&vec![0, 1], &vec![2]), vec![0]);
        assert_eq!(par.candidates(&vec![1], &vec![0]), vec![2, 4]);
    }
    let par = Parallel::setup(zones, &r, 5, Some(2));
    assert_eq!(par.block_count(), 3);
    assert_eq!(par.block_candidates(1, &vec![1], &vec![]), vec![2, 3]);
    assert_eq!(par.block_candidates(2, &vec![1], &vec![]), vec![4]);
    let loaded = vec![r[0].clone(), r[1].clone()];
    assert_eq!(rows_candidates(5, &loaded, &vec![r[2].clone()]), vec![0]);
    let ins = vec![r[1].clone()];
    assert_eq!(rows_block_candidates(5, &ins, &vec![], 0, 2), vec![0]);
    assert_eq!(rows_block_candidates(5, &ins, &vec![], 2, 5), vec![2, 3, 4]);
    assert_eq!(rows_block_candidates(5, &ins, &vec![r[0].clone()], 2, 5), vec![2, 4]);
    assert!(rows_block_candidates(5, &ins, &vec![], 5, 5).is_empty());
}

#[test]
fn popcounts_and_hamming() {
    let zones = vec![Zone::Sheet { a: 0, b: 1 }, Zone::Sheet { a: 0, b: 2 }, Zone::Sheet { a: 1, b: 2 }];
    let r = vec![
        vec![true, true, false, true, false],
        vec![true, false, true, true, true],
        vec![false, false, false, true, true],
    ];
    for block in [None, Some(1), Some(2), Some(4)] {
        let par = Parallel::setup(zones.clone(), &r, 5, block);
        assert_eq!(par.popcounts(), vec![3, 4, 2]);
        assert_eq!(par.hamming(0, 1), 3);
        assert_eq!(par.hamming(1, 1), 0);
        assert_eq!(par.pair_distances(), vec![(0, 1, 3), (0, 2, 3), (1, 2, 2)]);
    }
}

#[test]
fn cull_drops_rows_with_their_zones() {
    let zones = vec![Zone::Sheet { a: 0, b: 1 }, Zone::Sheet { a: 0, b: 2 }, Zone::Sheet { a: 1, b: 2 }];
    let r = vec![
        vec![true, true, false, true, false],
        vec![true, false, true, true, true],
        vec![false, false, false, true, true],
    ];
    let mut par = Parallel::setup(zones, &r, 5, Some(2));
    par.cull(&vec![1, 9]);
    assert_eq!(par.zones(), 2);
    assert_eq!(par.zone_list(), &vec![Zone::Sheet { a: 0, b: 1 }, Zone::Sheet { a: 1, b: 2 }]);
    assert_eq!(par.popcounts(), vec![3, 2]);
    assert_eq!(par.candidates(&vec![1], &vec![]), vec![3, 4]);
    assert_eq!(par.len(), 5);
}

#[test]
fn backends_and_block_sizes_agree() {
    let data = cloud(300, 4, 7);
    let seq = sequential(&data, 8);
    let pars: Vec<Parallel> = [None, Some(1), Some(64), Some(100), Some(512)]
        .into_iter()
        .map(|b| parallel(&data, 8, b))
        .collect();
    for qi in [0, 17, 299] {
        for t in [0.0, 0.1, 0.35, 0.6] {
            let q = data[qi].clone();
            let expect = brute(&data, &q, t);
            assert_eq!(search_seq(&seq, &data, &q, t), expect);
            for p in &pars {
                assert_eq!(search_par(p, &data, &q, t), expect);
            }
        }
    }
}

#[test]
fn culling_keeps_every_answer() {
    let data = cloud(400, 3, 11);
    let mut pop = parallel(&data, 10, Some(128));
    let counts = pop.popcounts();
    let n = data.len() as f64;
    let drop: Vec<usize> = (0..counts.len())
        .filter(|&z| counts[z] as f64 / n > 0.7 || (data.len() - counts[z]) as f64 / n > 0.7)
        .collect();
    pop.cull(&drop);
    assert!(pop.zones() < 50 + 45);
    let mut sim = parallel(&data, 10, Some(128));
    let drop: Vec<usize> = sim
        .pair_distances()
        .into_iter()
        .filter(|&(_, _, h)| 1.0 - h as f64 / n > 0.8)
        .map(|(_, j, _)| j)
        .collect();
    sim.cull(&drop);
    for qi in [3, 200] {
        for t in [0.0, 0.2, 0.5] {
            let q = data[qi].clone();
            let expect = brute(&data, &q, t);
            assert_eq!(search_par(&pop, &data, &q, t), expect);
            assert_eq!(search_par(&sim, &data, &q, t), expect);
        }
    }
}

/// Membership rows of the layout for `k` reference points, from the
/// distances of every point to each reference point.
fn rows_from_references(data: &[Vec<f64>], k: usize) -> (Vec<Zone>, Vec<Vec<bool>>) {
    let zones = plan_zones(data.len(), k as u64).unwrap();
    let refs: Vec<Vec<f64>> = (0..k).map(|r| data.iter().map(|x| dist(&data[r], x)).collect()).collect();
    let r = zones
        .iter()
        .map(|z| match *z {
            Zone::Ball { center, ring } => refs[center].iter().map(|d| *d < radius(ring)).collect(),
            Zone::Sheet { a, b } => (0..data.len()).map(|i| refs[a][i] - refs[b][i] < 0.0).collect(),
        })
        .collect();
    (zones, r)
}

fn check_against_brute_force(res: &[(usize, f64)], data: &[Vec<f64>], query: &[f64], threshold: f64) {
    assert!(res.iter().all(|(i, _)| dist(&data[*i], query) <= threshold));
    let brute_force = data.iter().map(|pt| dist(pt, query)).filter(|d| *d <= threshold).count();
    assert_eq!(res.len(), brute_force);
}

#[test]
fn sisap_nasa() {
    let nasa = cloud(40150, 20, 317);
    let (zones, r) = rows_from_references(&nasa, 40);
    let bitpart = Sequential::setup(zones, &r, nasa.len());
    let query = nasa[317].clone();
    let threshold = 1.0;
    check_against_brute_force(&search_seq(&bitpart, &nasa, &query, threshold), &nasa, &query, threshold);
}

#[test]
fn parallel_sisap_nasa_par() {
    let nasa = cloud(40150, 20, 318);
    let (zones, r) = rows_from_references(&nasa, 40);
    let bitpart = Parallel::setup(zones, &r, nasa.len(), Some(512));
    let query = nasa[317].clone();
    let threshold = 1.0;
    check_against_brute_force(&search_par(&bitpart, &nasa, &query, threshold), &nasa, &query, threshold);
}

#[test]
fn sisap_nasa_par_cull_popcnt() {
    let nasa = cloud(40150, 20, 319);
    let (zones, r) = rows_from_references(&nasa, 40);
    let mut bitpart = Parallel::setup(zones, &r, nasa.len(), Some(512));
    let n = nasa.len() as f64;
    let counts = bitpart.popcounts();
    let to_cull: Vec<usize> = (0..counts.len())
        .filter(|&z| counts[z] as f64 / n > 0.95 || (nasa.len() - counts[z]) as f64 / n > 0.95)
        .collect();
    bitpart.cull(&to_cull);
    let query = nasa[317].clone();
    let threshold = 1.0;
    check_against_brute_force(&search_par(&bitpart, &nasa, &query, threshold), &nasa, &query, threshold);
}

#[test]
fn euclidean_wraps_coordinates() {
    let p = Euclidean::new([0.0_f64, 1.0]);
    assert_eq!(p.get(), &[0.0, 1.0]);
    assert_eq!(p.into_inner(), [0.0, 1.0]);
}
