use rand::rngs::StdRng;
use rand::SeedableRng;
use trait_sim::analysis::{analyze, analyze_in_order, chi_square_test, corrected_level, find_named};
use trait_sim::engine::{contains_name, draw_holds_name, round_hundredths, run, slot_match, tally_trial, Aggregate};
use trait_sim::model::{check_tables, MatrixError, Mode, ProbMatrix, Ratio, TableError, Trait, SCALE};
use trait_sim::order::{bytes_le_exec, name_order};
use trait_sim::sampler::{acceptance_ppm, sample, sample_indices, sampler_step};

fn uniform_matrix(n: usize, p: u32) -> ProbMatrix {
    ProbMatrix::new(vec![vec![p; n]; n]).unwrap()
}

fn traits(n: usize, freq: u32) -> Vec<Trait> {
    (0..n).map(|i| Trait { name: format!("t{:02}", i), frequency: freq }).collect()
}

#[test]
fn matrix_rejects_ragged_rows() {
    let r = ProbMatrix::new(vec![vec![0, 0], vec![0]]);
    assert_eq!(r.err(), Some(MatrixError::NotSquare));
}

#[test]
fn matrix_rejects_probability_above_one() {
    let r = ProbMatrix::new(vec![vec![0, SCALE + 1], vec![0, 0]]);
    assert_eq!(r.err(), Some(MatrixError::OutOfRange));
}

#[test]
fn matrix_keeps_entries() {
    let m = ProbMatrix::new(vec![vec![1, 2], vec![3, 4]]).unwrap();
    assert_eq!(m.dim(), 2);
    assert_eq!(m.get(1, 0), 3);
    assert_eq!(m.get(0, 1), 2);
}

#[test]
fn modes_select_five_or_ten() {
    assert_eq!(Mode::Top5.trait_count(), 5);
    assert_eq!(Mode::Top10.trait_count(), 10);
    assert_eq!(Mode::from_trait_count(5), Some(Mode::Top5));
    assert_eq!(Mode::from_trait_count(10), Some(Mode::Top10));
    assert_eq!(Mode::from_trait_count(7), None);
}

#[test]
fn acceptance_is_truncated_product() {
    let m = ProbMatrix::new(vec![
        vec![0, 0, 500_000],
        vec![0, 0, 500_000],
        vec![333_333, 333_333, 0],
    ])
    .unwrap();
    assert_eq!(acceptance_ppm(&m, &vec![], 2), 1_000_000);
    assert_eq!(acceptance_ppm(&m, &vec![0], 2), 500_000);
    assert_eq!(acceptance_ppm(&m, &vec![0, 1], 2), 250_000);
    let m2 = ProbMatrix::new(vec![vec![333_333; 3]; 3]).unwrap();
    assert_eq!(acceptance_ppm(&m2, &vec![0, 1], 2), 111_110);
}

#[test]
fn sampled_indices_are_distinct_and_bounded() {
    let m = uniform_matrix(34, 700_000);
    for seed in 0..200u64 {
        let mut rng = StdRng::seed_from_u64(seed);
        for count in [5usize, 10] {
            let d = sample_indices(&m, count, &mut rng);
            assert!(!d.is_empty() && d.len() <= count);
            let mut seen = vec![false; 34];
            for &i in &d {
                assert!(i < 34);
                assert!(!seen[i]);
                seen[i] = true;
            }
        }
    }
}

#[test]
fn sampled_names_come_from_reference() {
    let m = uniform_matrix(34, 900_000);
    let reference = traits(34, 100_000);
    let mut rng = StdRng::seed_from_u64(3);
    for _ in 0..100 {
        let names = sample(&m, &reference, Mode::Top10, &mut rng);
        assert!(!names.is_empty() && names.len() <= 10);
        for n in &names {
            assert!(reference.iter().any(|t| &t.name == n));
        }
    }
}

#[test]
fn certain_matrix_fills_top_five() {
    let m = uniform_matrix(34, SCALE);
    let mut rng = StdRng::seed_from_u64(11);
    for _ in 0..50 {
        assert_eq!(sample_indices(&m, 5, &mut rng).len(), 5);
    }
}

#[test]
fn small_pool_empties_before_count() {
    let m = uniform_matrix(3, SCALE);
    let mut rng = StdRng::seed_from_u64(5);
    let mut d = sample_indices(&m, 10, &mut rng);
    d.sort();
    assert_eq!(d, vec![0, 1, 2]);
    let empty = ProbMatrix::new(vec![]).unwrap();
    assert!(sample_indices(&empty, 5, &mut rng).is_empty());
}

#[test]
fn zero_matrix_retains_one_trait() {
    let m = uniform_matrix(34, 0);
    let reference = traits(34, 0);
    let mut rng = StdRng::seed_from_u64(21);
    for _ in 0..300 {
        assert_eq!(sample(&m, &reference, Mode::Top5, &mut rng).len(), 1);
    }
}

#[test]
fn zero_matrix_run_matches_only_tenths() {
    let m = uniform_matrix(34, 0);
    let reference = traits(34, 30_000);
    let mut target = traits(34, 0);
    target[0].frequency = 50_000;
    target[1].frequency = 100_000;
    let mut rng = StdRng::seed_from_u64(8);
    let agg = run(&m, &reference, &target, 10, 100, Mode::Top5, &mut rng);
    assert_eq!(agg.trials, 100);
    assert_eq!(agg.exact_matches, 0);
    assert_eq!(agg.trait_matches[0], 0);
    assert!(agg.trait_matches[1] > 0);
    assert!(agg.trait_matches[5] > 50);
}

#[test]
fn single_trial_single_individual_is_all_or_nothing() {
    let m = uniform_matrix(4, 500_000);
    let reference = traits(4, 500_000);
    for seed in 0..50u64 {
        let mut rng = StdRng::seed_from_u64(seed);
        let agg = run(&m, &reference, &reference, 1, 1, Mode::Top5, &mut rng);
        assert_eq!(agg.trials, 1);
        assert!(agg.exact_matches == 0 || agg.exact_matches == 1);
        let p = agg.exact_matches as f64 / agg.trials as f64;
        assert!(p == 0.0 || p == 1.0);
    }
}

#[test]
fn single_trait_certain_match() {
    let m = uniform_matrix(1, 0);
    let target = vec![Trait { name: "a".to_string(), frequency: SCALE }];
    let mut rng = StdRng::seed_from_u64(1);
    let agg = run(&m, &target, &target, 1, 1, Mode::Top5, &mut rng);
    assert_eq!(agg.exact_matches, 1);
    assert_eq!(agg.trait_matches, vec![1]);
}

#[test]
fn same_seed_same_aggregate() {
    let m = uniform_matrix(34, 600_000);
    let reference = traits(34, 200_000);
    let target = traits(34, 200_000);
    let mut r1 = StdRng::seed_from_u64(42);
    let mut r2 = StdRng::seed_from_u64(42);
    let a = run(&m, &reference, &target, 10, 40, Mode::Top10, &mut r1);
    let b = run(&m, &reference, &target, 10, 40, Mode::Top10, &mut r2);
    assert_eq!(a.trials, b.trials);
    assert_eq!(a.exact_matches, b.exact_matches);
    assert_eq!(a.trait_matches, b.trait_matches);
}

#[test]
fn merged_parts_equal_whole_run() {
    let m = uniform_matrix(34, 600_000);
    let reference = traits(34, 200_000);
    let target = traits(34, 200_000);
    let mut r1 = StdRng::seed_from_u64(9);
    let a = run(&m, &reference, &target, 5, 20, Mode::Top5, &mut r1);
    let b = run(&m, &reference, &target, 5, 30, Mode::Top5, &mut r1);
    let mut r2 = StdRng::seed_from_u64(9);
    let whole = run(&m, &reference, &target, 5, 50, Mode::Top5, &mut r2);
    let merged = a.merge(&b, &target, 5);
    assert_eq!(merged.trials, 50);
    assert_eq!(merged.exact_matches, whole.exact_matches);
    assert_eq!(merged.trait_matches, whole.trait_matches);
    for j in 0..34 {
        assert_eq!(merged.trait_matches[j], a.trait_matches[j] + b.trait_matches[j]);
    }
}

#[test]
fn empty_aggregate_has_zero_counts() {
    let a = Aggregate::empty(3);
    assert_eq!(a.trials, 0);
    assert_eq!(a.exact_matches, 0);
    assert_eq!(a.trait_matches, vec![0, 0, 0]);
}

#[test]
fn recorded_trials_count_matches() {
    let target = vec![
        Trait { name: "a".to_string(), frequency: 500_000 },
        Trait { name: "b".to_string(), frequency: 0 },
    ];
    let mut a = Aggregate::empty(2);
    a.record_trial(&target, 2, &vec![1, 0]);
    assert_eq!((a.trials, a.exact_matches), (1, 1));
    assert_eq!(a.trait_matches, vec![1, 1]);
    a.record_trial(&target, 2, &vec![2, 0]);
    assert_eq!((a.trials, a.exact_matches), (2, 1));
    assert_eq!(a.trait_matches, vec![1, 2]);
    assert_eq!(a.exact_match_probability(), Ratio { num: 1, den: 2 });
    assert_eq!(a.trait_match_probability(1), Ratio { num: 2, den: 2 });
    a.record_trial(&target, 2, &vec![1, 1]);
    assert_eq!((a.trials, a.exact_matches), (3, 1));
    assert_eq!(a.trait_matches, vec![2, 2]);
}

#[test]
fn rounding_to_hundredths_half_up() {
    assert_eq!(round_hundredths(1, 8), 13);
    assert_eq!(round_hundredths(1, 3), 33);
    assert_eq!(round_hundredths(2, 3), 67);
    assert_eq!(round_hundredths(0, 5), 0);
    assert_eq!(round_hundredths(5, 5), 100);
    assert!(slot_match(130_000, 1, 8));
    assert!(!slot_match(125_000, 1, 8));
    assert!(slot_match(330_000, 1, 3));
}

#[test]
fn tally_counts_each_retained_trait() {
    let m = uniform_matrix(3, SCALE);
    let reference = traits(3, 0);
    let target = vec![
        Trait { name: "t02".to_string(), frequency: 0 },
        Trait { name: "zz".to_string(), frequency: 0 },
        Trait { name: "t00".to_string(), frequency: 0 },
    ];
    let mut rng = StdRng::seed_from_u64(2);
    assert_eq!(tally_trial(&m, &reference, &target, 7, Mode::Top5, &mut rng), vec![7, 0, 7]);
}

#[test]
fn name_lookup_takes_first() {
    let names = vec!["x".to_string(), "y".to_string()];
    assert!(contains_name(&names, &"y".to_string()));
    assert!(!contains_name(&names, &"z".to_string()));
    let reference = vec![
        Trait { name: "a".to_string(), frequency: 1 },
        Trait { name: "b".to_string(), frequency: 2 },
        Trait { name: "b".to_string(), frequency: 3 },
    ];
    assert_eq!(find_named(&reference, &"b".to_string()), Some(1));
    assert_eq!(find_named(&reference, &"c".to_string()), None);
}

#[test]
fn bonferroni_over_thirty_four_traits() {
    let r = corrected_level(Ratio { num: 5, den: 100 }, 34);
    assert_eq!(r, Ratio { num: 5, den: 3400 });
    let level = r.num as f64 / r.den as f64;
    assert!((level - 0.05 / 34.0).abs() < 1e-12);
    assert!((level - 0.00147).abs() < 1e-5);
}

#[test]
fn chi_square_exact_values() {
    let (hit, num, den) = chi_square_test(5, 250_000, 2, 10, 4_999_999);
    assert!(hit);
    assert_eq!(num, 25_000_000_000_000);
    assert_eq!(den, 5_000_000_000_000);
    let (hit, _, _) = chi_square_test(5, 250_000, 2, 10, 5_000_000);
    assert!(!hit);
    let (hit, _, den) = chi_square_test(5, 0, 2, 10, 0);
    assert!(!hit);
    assert_eq!(den, 0);
}

#[test]
fn names_sort_bytewise() {
    assert!(bytes_le_exec(b"ab", b"b"));
    assert!(bytes_le_exec(b"ab", b"ab"));
    assert!(bytes_le_exec(b"a", b"ab"));
    assert!(!bytes_le_exec(b"b", b"ab"));
    assert!(!bytes_le_exec(b"B0", b"A9"));
    let t: Vec<Trait> = ["b", "a", "c", "a"]
        .iter()
        .map(|s| Trait { name: s.to_string(), frequency: 0 })
        .collect();
    assert_eq!(name_order(&t), vec![1, 3, 0, 2]);
}

#[test]
fn table_checks_each_error() {
    let m = uniform_matrix(2, 0);
    let two = traits(2, 100);
    assert_eq!(check_tables(&m, &traits(3, 0), &two), Err(TableError::ReferenceSize));
    assert_eq!(check_tables(&m, &two, &traits(1, 0)), Err(TableError::TargetSize));
    assert_eq!(check_tables(&m, &traits(2, SCALE + 1), &two), Err(TableError::FrequencyRange));
    let other = vec![
        Trait { name: "t00".to_string(), frequency: 0 },
        Trait { name: "q".to_string(), frequency: 0 },
    ];
    assert_eq!(check_tables(&m, &two, &other), Err(TableError::UnknownTrait));
    assert_eq!(check_tables(&m, &two, &two), Ok(()));
}

#[test]
fn analysis_skips_zero_expectation_and_sorts_by_name() {
    let target = vec![
        Trait { name: "c".to_string(), frequency: 500_000 },
        Trait { name: "a".to_string(), frequency: 500_000 },
        Trait { name: "b".to_string(), frequency: 500_000 },
    ];
    let reference = vec![
        Trait { name: "a".to_string(), frequency: 100_000 },
        Trait { name: "b".to_string(), frequency: 0 },
        Trait { name: "c".to_string(), frequency: 900_000 },
    ];
    let mut agg = Aggregate::empty(3);
    for _ in 0..4 {
        agg.record_trial(&target, 2, &vec![1, 1, 1]);
    }
    assert_eq!(agg.trait_matches, vec![4, 4, 4]);
    let found = analyze(&agg, &reference, &target, 2, 0);
    let names: Vec<&str> = found.iter().map(|f| f.name.as_str()).collect();
    assert_eq!(names, vec!["a", "c"]);
    assert_eq!(found[0].index, 1);
    assert_eq!(found[0].expected_ppm, 100_000);
    assert_eq!(found[1].expected_ppm, 900_000);
    // a: observed 8, expected 0.8: chi = 7.2^2 / 0.8 = 64.8
    assert_eq!(found[0].chi_num as f64 / found[0].chi_den as f64, 64.8);
    // c: observed 8, expected 7.2: chi = 0.64 / 7.2
    let high = analyze(&agg, &reference, &target, 2, 1_000_000);
    assert_eq!(high.len(), 1);
    assert_eq!(high[0].name, "a");
    assert!(analyze(&agg, &reference, &target, 2, 64_800_000).is_empty());
    let in_table_order = analyze_in_order(&agg, &reference, &target, 2, 0, &vec![0, 1, 2]);
    assert_eq!(in_table_order[0].name, "c");
}

#[test]
fn step_moves_pick_out_of_pool() {
    let mut pool = vec![4, 7, 9];
    let mut accepted = vec![2];
    sampler_step(&mut pool, &mut accepted, 1, true);
    assert_eq!(pool, vec![4, 9]);
    assert_eq!(accepted, vec![2, 7]);
    sampler_step(&mut pool, &mut accepted, 0, false);
    assert_eq!(pool, vec![9]);
    assert_eq!(accepted, vec![2, 7]);
}

#[test]
fn certain_matrix_fills_top_ten_of_thirty_four() {
    let m = uniform_matrix(34, SCALE);
    let reference = traits(34, 0);
    let mut rng = StdRng::seed_from_u64(17);
    for _ in 0..50 {
        assert_eq!(sample(&m, &reference, Mode::Top10, &mut rng).len(), 10);
    }
}

#[test]
fn draw_name_lookup_by_index() {
    let reference = traits(3, 0);
    assert!(draw_holds_name(&reference, &vec![2, 0], &"t00".to_string()));
    assert!(!draw_holds_name(&reference, &vec![2, 0], &"t01".to_string()));
    assert!(!draw_holds_name(&reference, &vec![], &"t00".to_string()));
}

#[test]
fn tally_with_certain_matrix_counts_whole_group() {
    let m = uniform_matrix(34, SCALE);
    let reference = traits(34, 0);
    let mut rng = StdRng::seed_from_u64(4);
    let tally = tally_trial(&m, &reference, &reference, 6, Mode::Top10, &mut rng);
    assert_eq!(tally.iter().sum::<u64>(), 60);
    assert!(tally.iter().all(|&c| c <= 6));
}

#[test]
fn name_order_keeps_table_order_for_equal_names() {
    let t: Vec<Trait> = ["x", "x", "a", "x"]
        .iter()
        .map(|s| Trait { name: s.to_string(), frequency: 0 })
        .collect();
    assert_eq!(name_order(&t), vec![2, 0, 1, 3]);
}
