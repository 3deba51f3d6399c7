use gumbel_top_bucket::GumbelTopBucket;
use rand::distributions::{Distribution, Uniform};

fn bits(values: &[f64]) -> Vec<u64> {
    values.iter().map(|v| v.to_bits()).collect()
}

fn gumbel(size: usize, temperature: f64) -> Vec<f64> {
    let between = Uniform::from(1e-10f64..(1.0 - 1e-10f64));
    let mut rng = rand::thread_rng();
    (0..size)
        .map(|_| -((-(between.sample(&mut rng).ln())).ln()) * temperature)
        .collect()
}

fn noisy_bits(scores: &[f64], temperature: f64) -> Vec<u64> {
    let noise = gumbel(scores.len(), temperature);
    scores.iter().zip(noise.iter()).map(|(s, n)| (s + n).to_bits()).collect()
}

fn drain(bucket: &mut GumbelTopBucket) -> Vec<usize> {
    let mut out = Vec::new();
    while let Some(i) = bucket.draw() {
        out.push(i);
    }
    out
}

#[test]
fn draws_follow_descending_noisy_scores() {
    let mut bucket = GumbelTopBucket::new(&bits(&[0.1, 0.9, 0.5]));
    assert_eq!(bucket.draw_with_score(), Some((1, 0.9f64.to_bits())));
    assert_eq!(bucket.draw_with_score(), Some((2, 0.5f64.to_bits())));
    assert_eq!(bucket.draw_with_score(), Some((0, 0.1f64.to_bits())));
    assert_eq!(bucket.draw_with_score(), None);
}

#[test]
fn negative_scores_rank_below_positive_ones() {
    let mut bucket = GumbelTopBucket::new(&bits(&[-2.0, -0.5, 3.0, -0.0, 0.0]));
    assert_eq!(drain(&mut bucket), vec![2, 4, 3, 1, 0]);
}

#[test]
fn nan_scores_do_not_break_the_ranking() {
    let scores = [f64::NAN, 1.0, -f64::NAN, f64::INFINITY, f64::NEG_INFINITY];
    let mut bucket = GumbelTopBucket::new(&bits(&scores));
    assert_eq!(drain(&mut bucket), vec![0, 3, 1, 4, 2]);
}

#[test]
fn equal_scores_are_each_drawn_once() {
    let mut bucket = GumbelTopBucket::new(&bits(&[0.2, 0.2, 0.2, 0.2]));
    let mut drawn = drain(&mut bucket);
    drawn.sort();
    assert_eq!(drawn, vec![0, 1, 2, 3]);
}

#[test]
fn scenario_five_scores_drain_to_a_permutation() {
    let scores = [0.7, 0.2, 0.3, 0.2, 0.2];
    for _ in 0..100 {
        let mut bucket = GumbelTopBucket::new(&noisy_bits(&scores, 1.0));
        let mut drawn = Vec::new();
        for _ in 0..5 {
            drawn.push(bucket.draw().expect("five items"));
        }
        assert_eq!(bucket.draw(), None);
        drawn.sort();
        assert_eq!(drawn, vec![0, 1, 2, 3, 4]);
    }
}

#[test]
fn scenario_single_score() {
    for temperature in [0.01, 1.0, 100.0] {
        let mut bucket = GumbelTopBucket::new(&noisy_bits(&[1.0], temperature));
        assert_eq!(bucket.draw(), Some(0));
        assert_eq!(bucket.draw(), None);
    }
}

#[test]
fn empty_bucket_never_yields() {
    let mut bucket = GumbelTopBucket::new(&[]);
    for _ in 0..5 {
        assert_eq!(bucket.draw(), None);
        assert_eq!(bucket.draw_with_score(), None);
    }
}

#[test]
fn no_index_repeats_and_none_is_final() {
    let scores: Vec<f64> = (0..50).map(|i| (i % 7) as f64 / 7.0).collect();
    let mut bucket = GumbelTopBucket::new(&noisy_bits(&scores, 1.0));
    let mut seen = vec![false; scores.len()];
    let mut count = 0;
    while let Some(i) = bucket.draw() {
        assert!(!seen[i]);
        seen[i] = true;
        count += 1;
    }
    assert_eq!(count, scores.len());
    assert!(seen.iter().all(|&s| s));
    for _ in 0..3 {
        assert_eq!(bucket.draw(), None);
    }
}

#[test]
fn noisy_scores_never_rise() {
    let scores: Vec<f64> = (0..40).map(|i| i as f64 / 40.0).collect();
    let noisy = noisy_bits(&scores, 1.0);
    let mut bucket = GumbelTopBucket::new(&noisy);
    let mut last = f64::INFINITY;
    while let Some((i, s)) = bucket.draw_with_score() {
        assert_eq!(s, noisy[i]);
        let value = f64::from_bits(s);
        assert!(value <= last);
        last = value;
    }
}

#[test]
fn clone_draws_independently() {
    let mut bucket = GumbelTopBucket::new(&bits(&[0.3, 0.6]));
    let mut copy = bucket.clone();
    assert_eq!(bucket.draw(), Some(1));
    assert_eq!(copy.draw(), Some(1));
    assert_eq!(bucket.draw(), Some(0));
    assert_eq!(bucket.draw(), None);
    assert_eq!(copy.draw(), Some(0));
}

#[test]
fn first_draw_frequency_follows_weights() {
    let weights = [1.0f64, 2.0, 7.0];
    let total: f64 = weights.iter().sum();
    let log_scores: Vec<f64> = weights.iter().map(|w| w.ln()).collect();
    let trials = 200_000;
    let mut firsts = [0usize; 3];
    for _ in 0..trials {
        let mut bucket = GumbelTopBucket::new(&noisy_bits(&log_scores, 1.0));
        firsts[bucket.draw().expect("three items")] += 1;
    }
    for i in 0..3 {
        let freq = firsts[i] as f64 / trials as f64;
        assert!((freq - weights[i] / total).abs() < 0.01);
    }
}
