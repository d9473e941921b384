use rand::rngs::StdRng;
use rand::{Rng, SeedableRng};
use woe_binning::binary_search;
use woe_binning::ClusterTrait;
use woe_binning::WoeBinningCluster;
use woe_binning::WoeBinningProc;
use woe_binning::WoeScore;

/// An integer key that orders as the float does.
fn distance_key(distance: f64) -> u64 {
    let bits = if distance == 0.0 { 0 } else { distance.to_bits() };
    if bits >> 63 == 1 {
        !bits
    } else {
        bits | (1u64 << 63)
    }
}

fn calc_woe(p0: f64, p1: f64) -> f64 {
    (p0 / p1).ln()
}

fn calc_iv(p0: f64, p1: f64) -> f64 {
    calc_woe(p0, p1) * (p0 - p1)
}

/// The smoothed class fractions of a bin and the smoothing exponent.
#[derive(Debug, Clone, PartialEq)]
struct Smoothed {
    p1: f64,
    p0: f64,
    smooth: f64,
}

impl Smoothed {
    fn seed(smooth: f64) -> Self {
        Smoothed { p1: 0.0, p0: 0.0, smooth }
    }
}

impl WoeScore for Smoothed {
    fn leaf(&self, n1: usize, n0: usize, total1: usize, total0: usize) -> Self {
        Smoothed {
            p1: (n1 + 1) as f64 / (total1 + 2) as f64,
            p0: (n0 + 1) as f64 / (total0 + 2) as f64,
            smooth: self.smooth,
        }
    }

    fn merge(score1: &Self, n_1: usize, score2: &Self, n_2: usize) -> Self {
        let smooth =
            (n_1 as f64 * score1.smooth + n_2 as f64 * score2.smooth) / (n_1 + n_2) as f64;
        Smoothed { p1: score1.p1 + score2.p1, p0: score1.p0 + score2.p0, smooth }
    }

    fn distance(score1: &Self, n_1: usize, score2: &Self, n_2: usize) -> Option<u64> {
        let smooth =
            (n_1 as f64 * score1.smooth + n_2 as f64 * score2.smooth) / (n_1 + n_2) as f64;
        let d_iv = calc_iv(score1.p0, score1.p1) + calc_iv(score2.p0, score2.p1)
            - calc_iv(score1.p0 + score2.p0, score1.p1 + score2.p1);
        let factor = (n_1 * n_2) as f64;
        Some(distance_key(d_iv * factor.powf(smooth)))
    }
}

fn get_iv_total(wbp: &WoeBinningProc<Smoothed>) -> Option<f64> {
    wbp.get_score_array().map(|scores| scores.iter().map(|s| calc_iv(s.p0, s.p1)).sum())
}

const SEED: u64 = 0;

fn create_rng() -> impl Rng {
    StdRng::seed_from_u64(SEED)
}

fn build_cat_map<R: Rng>(rng: &mut R, cat_num: usize) -> Vec<f64> {
    let mut cat_map = Vec::new();
    let mut agg_sum = 0.0;
    for _ in 0..cat_num {
        let prob = rng.gen::<f64>();
        agg_sum += prob;
        cat_map.push(agg_sum);
    }
    for idx in 0..cat_num {
        cat_map[idx] /= agg_sum;
    }
    cat_map
}

fn build_prob_map<R: Rng>(rng: &mut R, cat_num: usize, sorted: bool) -> Vec<f64> {
    let mut prob_map = Vec::new();
    for _ in 0..cat_num {
        let prob = rng.gen::<f64>();
        prob_map.push(prob);
    }
    if sorted {
        prob_map.sort_by(|a, b| a.partial_cmp(&b).unwrap())
    }
    prob_map
}

fn create_dataset(size: usize, cat_num: usize, sorted: bool) -> (Vec<usize>, Vec<bool>) {
    let mut rng = create_rng();

    let prob_map = build_prob_map(&mut rng, cat_num, sorted);
    let cat_map = build_cat_map(&mut rng, cat_num);

    let mut series = Vec::new();
    let mut target = Vec::new();
    for _ in 0..size {
        let cat = binary_search(cat_num, &cat_map, rng.gen::<f64>());
        let trg = rng.gen::<f64>() < prob_map[cat];
        series.push(cat);
        target.push(trg);
    }
    (series, target)
}

#[test]
fn test_categorial() {
    let (series, target) = create_dataset(1_000, 10, false);

    let mut wbp = WoeBinningProc::new(4, Smoothed::seed(0.0));
    wbp.process_categorial(&series, &target);

    assert_eq!(wbp.is_done(), true);
    assert_eq!(wbp.get_bins_num(), Some(4));
    assert_eq!(get_iv_total(&wbp), Some(1.1660067107931673));
}

#[test]
fn test_numeric() {
    let (series, target) = create_dataset(1_000, 10, true);

    let mut wbp = WoeBinningProc::new(4, Smoothed::seed(0.0));
    wbp.process_numeric(&series, &target);

    assert_eq!(wbp.is_done(), true);
    assert_eq!(wbp.get_bins_num(), Some(4));
    assert_eq!(get_iv_total(&wbp), Some(2.3937109658539946));
}

/// A score that counts the initial bins that went into a bin and never lets
/// two bins be further apart than the rows they hold together.
#[derive(Debug, Clone, PartialEq)]
struct Rows {
    leaves: usize,
    made_of: (usize, usize, usize, usize),
}

impl WoeScore for Rows {
    fn leaf(&self, n1: usize, n0: usize, total1: usize, total0: usize) -> Self {
        Rows { leaves: 1, made_of: (n1, n0, total1, total0) }
    }

    fn merge(score1: &Self, _n_1: usize, score2: &Self, _n_2: usize) -> Self {
        Rows { leaves: score1.leaves + score2.leaves, made_of: score1.made_of }
    }

    fn distance(_score1: &Self, n_1: usize, _score2: &Self, n_2: usize) -> Option<u64> {
        Some((n_1 + n_2) as u64)
    }
}

/// A score under which no two bins may be merged.
#[derive(Debug, Clone, PartialEq)]
struct Apart;

impl WoeScore for Apart {
    fn leaf(&self, _n1: usize, _n0: usize, _total1: usize, _total0: usize) -> Self {
        Apart
    }

    fn merge(_score1: &Self, _n_1: usize, _score2: &Self, _n_2: usize) -> Self {
        Apart
    }

    fn distance(_score1: &Self, _n_1: usize, _score2: &Self, _n_2: usize) -> Option<u64> {
        None
    }
}

fn small_dataset() -> (Vec<usize>, Vec<bool>) {
    let series = vec![7, 3, 7, 9, 3, 7, 1, 9, 7, 3];
    let target = vec![true, false, false, true, true, true, false, false, true, false];
    (series, target)
}

#[test]
fn nothing_is_reported_before_processing() {
    let wbp = WoeBinningProc::new(3, Smoothed::seed(0.5));
    assert_eq!(wbp.is_done(), false);
    assert_eq!(wbp.get_bins_num(), None);
    assert_eq!(wbp.get_bins_array(), None);
    assert_eq!(wbp.get_size_array(), None);
    assert_eq!(wbp.get_bin_values(0), None);
    assert_eq!(wbp.get_count_array(), None);
    assert_eq!(wbp.get_score_array(), None);
}

#[test]
fn categorial_bins_come_in_order_of_first_occurrence() {
    let (series, target) = small_dataset();
    let mut wbp = WoeBinningProc::new(10, Rows { leaves: 0, made_of: (0, 0, 0, 0) });
    wbp.process_categorial(&series, &target);
    assert_eq!(wbp.is_done(), true);
    assert_eq!(wbp.get_bins_num(), Some(4));
    assert_eq!(wbp.get_bins_array(), Some(vec![vec![7], vec![3], vec![9], vec![1]]));
    assert_eq!(wbp.get_size_array(), Some(vec![1, 1, 1, 1]));
    assert_eq!(wbp.get_count_array(), Some(vec![(4, 3, 1), (3, 1, 2), (2, 1, 1), (1, 0, 1)]));
    assert_eq!(wbp.get_bin_values(2), Some(vec![9]));
}

#[test]
fn numeric_bins_come_in_ascending_order() {
    let (series, target) = small_dataset();
    let mut wbp = WoeBinningProc::new(10, Rows { leaves: 0, made_of: (0, 0, 0, 0) });
    wbp.process_numeric(&series, &target);
    assert_eq!(wbp.get_bins_num(), Some(4));
    assert_eq!(wbp.get_bins_array(), Some(vec![vec![1], vec![3], vec![7], vec![9]]));
    assert_eq!(wbp.get_count_array(), Some(vec![(1, 0, 1), (3, 1, 2), (4, 3, 1), (2, 1, 1)]));
}

#[test]
fn leaf_scores_are_made_of_the_counts_and_the_totals() {
    let (series, target) = small_dataset();
    let mut wbp = WoeBinningProc::new(10, Rows { leaves: 0, made_of: (0, 0, 0, 0) });
    wbp.process_categorial(&series, &target);
    let scores = wbp.get_score_array().unwrap();
    assert_eq!(scores[0], Rows { leaves: 1, made_of: (3, 1, 5, 5) });
    assert_eq!(scores[1], Rows { leaves: 1, made_of: (1, 2, 5, 5) });
    assert_eq!(scores[2], Rows { leaves: 1, made_of: (1, 1, 5, 5) });
    assert_eq!(scores[3], Rows { leaves: 1, made_of: (0, 1, 5, 5) });
}

#[test]
fn laplace_fractions_of_the_initial_bins() {
    let (series, target) = small_dataset();
    let mut wbp = WoeBinningProc::new(10, Smoothed::seed(0.5));
    wbp.process_numeric(&series, &target);
    let scores = wbp.get_score_array().unwrap();
    assert_eq!(scores[0], Smoothed { p1: 1.0 / 7.0, p0: 2.0 / 7.0, smooth: 0.5 });
    assert_eq!(scores[1], Smoothed { p1: 2.0 / 7.0, p0: 3.0 / 7.0, smooth: 0.5 });
    assert_eq!(scores[2], Smoothed { p1: 4.0 / 7.0, p0: 2.0 / 7.0, smooth: 0.5 });
    assert_eq!(scores[3], Smoothed { p1: 2.0 / 7.0, p0: 2.0 / 7.0, smooth: 0.5 });
}

#[test]
fn merged_bins_add_their_counts_and_join_their_values() {
    let (series, target) = small_dataset();
    let mut wbp = WoeBinningProc::new(2, Rows { leaves: 0, made_of: (0, 0, 0, 0) });
    wbp.process_categorial(&series, &target);
    // The bins of 9 (2 rows) and 1 (1 row) are closest, then that bin and the bin of 3.
    assert_eq!(wbp.get_bins_num(), Some(2));
    assert_eq!(wbp.get_bins_array(), Some(vec![vec![7], vec![3, 9, 1]]));
    assert_eq!(wbp.get_size_array(), Some(vec![1, 3]));
    assert_eq!(wbp.get_count_array(), Some(vec![(4, 3, 1), (6, 2, 4)]));
    let scores = wbp.get_score_array().unwrap();
    assert_eq!(scores[0].leaves, 1);
    assert_eq!(scores[1].leaves, 3);
}

#[test]
fn numeric_bins_hold_runs_of_values() {
    let (series, target) = small_dataset();
    let mut wbp = WoeBinningProc::new(2, Rows { leaves: 0, made_of: (0, 0, 0, 0) });
    wbp.process_numeric(&series, &target);
    // 1 and 3 are merged first (4 rows), then 9 joins 7 or the pair of 1 and 3 joins 7:
    // the pairs (1+3, 7) and (7, 9) hold 8 and 6 rows.
    assert_eq!(wbp.get_bins_array(), Some(vec![vec![1, 3], vec![7, 9]]));
    assert_eq!(wbp.get_count_array(), Some(vec![(4, 1, 3), (6, 4, 2)]));
}

#[test]
fn numeric_bins_part_the_sorted_values() {
    let (series, target) = create_dataset(1_000, 10, true);
    let mut wbp = WoeBinningProc::new(4, Smoothed::seed(0.0));
    wbp.process_numeric(&series, &target);
    let mut bins = wbp.get_bins_array().unwrap();
    for bin in bins.iter() {
        assert!(!bin.is_empty());
        for pair in bin.windows(2) {
            assert!(pair[0] < pair[1]);
        }
    }
    bins.sort_by_key(|bin| bin[0]);
    let joined: Vec<usize> = bins.concat();
    let mut values = series.clone();
    values.sort();
    values.dedup();
    assert_eq!(joined, values);
}

#[test]
fn categorial_bins_part_the_values() {
    let (series, target) = create_dataset(1_000, 10, false);
    let mut wbp = WoeBinningProc::new(4, Smoothed::seed(0.0));
    wbp.process_categorial(&series, &target);
    let bins = wbp.get_bins_array().unwrap();
    let counts = wbp.get_count_array().unwrap();
    let mut joined: Vec<usize> = bins.concat();
    joined.sort();
    let mut values = series.clone();
    values.sort();
    values.dedup();
    assert_eq!(joined, values);
    for (bin, count) in bins.iter().zip(counts.iter()) {
        let rows = series.iter().filter(|v| bin.contains(v)).count();
        let rows1 =
            series.iter().zip(target.iter()).filter(|(v, t)| bin.contains(v) && **t).count();
        assert_eq!(*count, (rows, rows1, rows - rows1));
    }
}

#[test]
fn arrays_agree_in_length_and_the_total_is_the_sum() {
    let (series, target) = create_dataset(1_000, 10, false);
    let mut wbp = WoeBinningProc::new(4, Smoothed::seed(0.0));
    wbp.process_categorial(&series, &target);
    let num = wbp.get_bins_num().unwrap();
    let bins = wbp.get_bins_array().unwrap();
    let sizes = wbp.get_size_array().unwrap();
    assert_eq!(bins.len(), num);
    assert_eq!(sizes.len(), num);
    for k in 0..num {
        assert_eq!(sizes[k], bins[k].len());
        assert_eq!(wbp.get_bin_values(k), Some(bins[k].clone()));
    }
    let scores = wbp.get_score_array().unwrap();
    let iv_array: Vec<f64> = scores.iter().map(|s| calc_iv(s.p0, s.p1)).collect();
    assert_eq!(iv_array.len(), num);
    assert_eq!(get_iv_total(&wbp), Some(iv_array.iter().sum()));
}

#[test]
fn an_empty_data_set_has_no_bins() {
    let mut wbp = WoeBinningProc::new(4, Smoothed::seed(0.0));
    wbp.process_categorial(&[], &[]);
    assert_eq!(wbp.is_done(), true);
    assert_eq!(wbp.get_bins_num(), Some(0));
    assert_eq!(wbp.get_bins_array(), Some(vec![]));
    assert_eq!(wbp.get_size_array(), Some(vec![]));

    let mut wbp = WoeBinningProc::new(4, Smoothed::seed(0.0));
    wbp.process_numeric(&[], &[]);
    assert_eq!(wbp.is_done(), true);
    assert_eq!(wbp.get_bins_num(), Some(0));
}

#[test]
fn one_value_makes_one_bin() {
    let mut wbp = WoeBinningProc::new(4, Smoothed::seed(0.0));
    wbp.process_numeric(&[5, 5, 5], &[true, false, true]);
    assert_eq!(wbp.get_bins_array(), Some(vec![vec![5]]));
    assert_eq!(wbp.get_count_array(), Some(vec![(3, 2, 1)]));
    assert_eq!(
        wbp.get_score_array(),
        Some(vec![Smoothed { p1: 3.0 / 4.0, p0: 2.0 / 3.0, smooth: 0.0 }])
    );
}

#[test]
fn bins_that_may_not_be_merged_stay_apart() {
    let (series, target) = small_dataset();
    let mut wbp = WoeBinningProc::new(2, Apart);
    wbp.process_categorial(&series, &target);
    assert_eq!(wbp.get_bins_num(), Some(4));
    let mut wbp = WoeBinningProc::new(2, Apart);
    wbp.process_numeric(&series, &target);
    assert_eq!(wbp.get_bins_num(), Some(4));
}

#[test]
fn one_bin_is_the_least_that_is_left() {
    let (series, target) = small_dataset();
    let mut wbp = WoeBinningProc::new(0, Rows { leaves: 0, made_of: (0, 0, 0, 0) });
    wbp.process_categorial(&series, &target);
    assert_eq!(wbp.get_bins_num(), Some(1));
    assert_eq!(wbp.get_count_array(), Some(vec![(10, 5, 5)]));
    assert_eq!(wbp.get_size_array(), Some(vec![4]));
}

#[test]
fn merge_of_two_bins() {
    let first = WoeBinningCluster {
        n: 5,
        n1: 2,
        n0: 3,
        values: vec![4, 8],
        score: Smoothed { p1: 0.25, p0: 0.5, smooth: 1.0 },
    };
    let second = WoeBinningCluster {
        n: 15,
        n1: 10,
        n0: 5,
        values: vec![6],
        score: Smoothed { p1: 0.5, p0: 0.125, smooth: 3.0 },
    };
    let merged = WoeBinningCluster::merge(&first, &second);
    assert_eq!((merged.n, merged.n1, merged.n0), (20, 12, 8));
    assert_eq!(merged.values, vec![4, 8, 6]);
    assert_eq!(merged.score, Smoothed { p1: 0.75, p0: 0.625, smooth: 2.5 });
    let copy = merged.clone();
    assert_eq!((copy.n, copy.n1, copy.n0), (20, 12, 8));
    assert_eq!(copy.values, vec![4, 8, 6]);
    assert_eq!(copy.score, merged.score);
}

#[test]
fn merge_caps_counts_at_the_largest_value() {
    let first = WoeBinningCluster {
        n: usize::MAX - 1,
        n1: 3,
        n0: usize::MAX - 4,
        values: vec![1],
        score: Apart,
    };
    let second = WoeBinningCluster { n: 7, n1: 2, n0: 5, values: vec![2], score: Apart };
    let merged = WoeBinningCluster::merge(&first, &second);
    assert_eq!((merged.n, merged.n1, merged.n0), (usize::MAX, 5, usize::MAX));
}

#[test]
fn distance_of_two_bins_is_the_scaled_loss_of_information_value() {
    let first = WoeBinningCluster {
        n: 4,
        n1: 1,
        n0: 3,
        values: vec![0],
        score: Smoothed { p1: 0.125, p0: 0.5, smooth: 0.5 },
    };
    let second = WoeBinningCluster {
        n: 9,
        n1: 6,
        n0: 3,
        values: vec![1],
        score: Smoothed { p1: 0.5, p0: 0.25, smooth: 0.5 },
    };
    let iv1 = (0.5f64 / 0.125).ln() * (0.5 - 0.125);
    let iv2 = (0.25f64 / 0.5).ln() * (0.25 - 0.5);
    let iv12 = (0.75f64 / 0.625).ln() * (0.75 - 0.625);
    let expected = (iv1 + iv2 - iv12) * 6.0;
    assert_eq!(WoeBinningCluster::distance(&first, &second), Some(distance_key(expected)));
    assert_eq!(
        WoeBinningCluster::distance(&first, &second),
        WoeBinningCluster::distance(&second, &first)
    );
}

#[test]
fn distance_keys_order_as_the_distances_do() {
    let distances = [-2.5, -0.0, 0.0, 1e-9, 0.5, 3.0, f64::INFINITY];
    for pair in distances.windows(2) {
        assert!(distance_key(pair[0]) <= distance_key(pair[1]));
    }
    assert!(distance_key(-2.5) < distance_key(1e-9));
    assert!(distance_key(0.5) < distance_key(3.0));
    assert_eq!(distance_key(-0.0), distance_key(0.0));
    assert!(distance_key(-1e-300) < distance_key(0.0));
    assert!(distance_key(0.0) < distance_key(1e-300));
}

#[test]
fn two_binnings_of_one_data_set_agree() {
    for sorted in [false, true] {
        let (series, target) = create_dataset(1_000, 10, sorted);
        let mut first = WoeBinningProc::new(4, Smoothed::seed(0.25));
        let mut second = WoeBinningProc::new(4, Smoothed::seed(0.25));
        if sorted {
            first.process_numeric(&series, &target);
            second.process_numeric(&series, &target);
        } else {
            first.process_categorial(&series, &target);
            second.process_categorial(&series, &target);
        }
        assert_eq!(first.get_bins_num(), second.get_bins_num());
        assert_eq!(first.get_bins_array(), second.get_bins_array());
        assert_eq!(first.get_count_array(), second.get_count_array());
        assert_eq!(first.get_score_array(), second.get_score_array());
        assert_eq!(get_iv_total(&first), get_iv_total(&second));
    }
}

#[test]
fn the_number_of_bins_is_the_lesser_of_values_and_wanted() {
    let (series, target) = small_dataset();
    for wanted in 1..8 {
        let mut wbp = WoeBinningProc::new(wanted, Smoothed::seed(0.5));
        wbp.process_categorial(&series, &target);
        assert_eq!(wbp.get_bins_num(), Some(wanted.min(4)));
        let mut wbp = WoeBinningProc::new(wanted, Smoothed::seed(0.5));
        wbp.process_numeric(&series, &target);
        assert_eq!(wbp.get_bins_num(), Some(wanted.min(4)));
    }
}
