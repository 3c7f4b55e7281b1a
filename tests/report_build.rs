use linguisto::aggregate::Aggregate;
use linguisto::report::{
    collapse_tail_to_others, process_stats_for_ui, recalculate_ratios, LanguageStat, Metric, Ratio,
};
use linguisto::scan::{check_root, ScanError};

fn totals(entries: &[(&str, u32, u64)]) -> Aggregate {
    let mut agg = Aggregate::new();
    for (lang, count, bytes) in entries {
        agg.absorb(lang.to_string(), *count, *bytes);
    }
    agg
}

fn summary(stats: &[LanguageStat]) -> Vec<(String, u32, u64, u64, u64)> {
    stats
        .iter()
        .map(|s| (s.lang.clone(), s.count, s.bytes, s.ratio.part, s.ratio.whole))
        .collect()
}

fn stat(lang: &str, count: u32, bytes: u64, part: u64, whole: u64) -> LanguageStat {
    LanguageStat { lang: lang.to_string(), count, bytes, ratio: Ratio { part, whole } }
}

#[test]
fn two_languages_by_bytes() {
    let mut agg = Aggregate::new();
    agg.record("Rust".to_string(), 100);
    agg.record("Python".to_string(), 50);
    let report = agg.build(Metric::Bytes);
    assert_eq!(
        summary(&report),
        vec![("Rust".to_string(), 1, 100, 100, 150), ("Python".to_string(), 1, 50, 50, 150)]
    );
    let rust = report[0].ratio.part as f64 / report[0].ratio.whole as f64;
    let python = report[1].ratio.part as f64 / report[1].ratio.whole as f64;
    assert!((rust - 0.667).abs() < 0.001);
    assert!((python - 0.333).abs() < 0.001);
}

#[test]
fn empty_totals_give_empty_report() {
    let agg = Aggregate::new();
    assert!(agg.build(Metric::Bytes).is_empty());
    assert!(agg.build(Metric::FileCount).is_empty());
}

#[test]
fn zero_bytes_give_empty_report_by_bytes_only() {
    let agg = totals(&[("Rust", 2, 0)]);
    assert!(agg.build(Metric::Bytes).is_empty());
    assert_eq!(summary(&agg.build(Metric::FileCount)), vec![("Rust".to_string(), 2, 0, 2, 2)]);
}

#[test]
fn missing_root_is_not_found() {
    assert_eq!(check_root(false, false), Err(ScanError::NotFound));
    assert_eq!(check_root(true, false), Err(ScanError::NotADirectory));
    assert_eq!(check_root(true, true), Ok(()));
}

#[test]
fn seven_languages_keep_five() {
    let agg = totals(&[
        ("A", 70, 7000),
        ("B", 60, 6000),
        ("C", 50, 5000),
        ("D", 40, 4000),
        ("E", 30, 3000),
        ("F", 20, 2000),
        ("G", 10, 1000),
    ]);
    let report = agg.build(Metric::Bytes);
    let out = collapse_tail_to_others(report, 5);
    assert_eq!(out.len(), 6);
    assert_eq!(out[5].lang, "Other");
    assert_eq!(out[5].count, 30);
    assert_eq!(out[5].bytes, 3000);
    assert_eq!(out[5].ratio, Ratio { part: 3000, whole: 28000 });
    let names: Vec<&str> = out.iter().map(|s| s.lang.as_str()).collect();
    assert_eq!(names, vec!["A", "B", "C", "D", "E", "Other"]);
}

#[test]
fn shares_add_up_under_both_metrics() {
    let agg = totals(&[("Rust", 3, 900), ("Go", 5, 100), ("C", 1, 333)]);
    for metric in [Metric::Bytes, Metric::FileCount] {
        let report = agg.build(metric);
        let whole = report[0].ratio.whole;
        assert!(report.iter().all(|s| s.ratio.whole == whole));
        assert_eq!(report.iter().map(|s| s.ratio.part).sum::<u64>(), whole);
        let total: f64 = report.iter().map(|s| s.ratio.part as f64 / s.ratio.whole as f64).sum();
        assert!((total - 1.0).abs() < 1e-9);
    }
    let by_count = agg.build(Metric::FileCount);
    assert_eq!(
        summary(&by_count),
        vec![
            ("Go".to_string(), 5, 100, 5, 9),
            ("Rust".to_string(), 3, 900, 3, 9),
            ("C".to_string(), 1, 333, 1, 9)
        ]
    );
}

#[test]
fn building_twice_and_rebuilding_agree() {
    let agg = totals(&[("Rust", 1, 50), ("Go", 1, 50), ("C", 4, 10)]);
    let first = agg.build(Metric::Bytes);
    let second = agg.build(Metric::Bytes);
    assert_eq!(summary(&first), summary(&second));
    assert_eq!(summary(&recalculate_ratios(&first, Metric::Bytes)), summary(&first));
    assert_eq!(summary(&process_stats_for_ui(&first, Metric::Bytes)), summary(&first));
}

#[test]
fn equal_metrics_ordered_by_name() {
    let agg = totals(&[("Rust", 1, 50), ("Go", 1, 50), ("C", 4, 50)]);
    let names: Vec<String> = agg.build(Metric::Bytes).into_iter().map(|s| s.lang).collect();
    assert_eq!(names, vec!["C", "Go", "Rust"]);
}

#[test]
fn rebuilding_by_file_count_reorders() {
    let agg = totals(&[("Rust", 1, 500), ("Go", 3, 50)]);
    let by_bytes = agg.build(Metric::Bytes);
    assert_eq!(by_bytes[0].lang, "Rust");
    let by_count = recalculate_ratios(&by_bytes, Metric::FileCount);
    assert_eq!(
        summary(&by_count),
        vec![("Go".to_string(), 3, 50, 3, 4), ("Rust".to_string(), 1, 500, 1, 4)]
    );
}

#[test]
fn rebuilding_keeps_every_entry() {
    let stats = vec![
        stat("Rust", 1, 10, 0, 0),
        stat("Go", 1, 5, 0, 0),
        stat("Rust", 2, 20, 0, 0),
        stat("Rust", 1, 10, 0, 0),
    ];
    assert_eq!(
        summary(&recalculate_ratios(&stats, Metric::Bytes)),
        vec![
            ("Rust".to_string(), 2, 20, 20, 45),
            ("Rust".to_string(), 1, 10, 10, 45),
            ("Rust".to_string(), 1, 10, 10, 45),
            ("Go".to_string(), 1, 5, 5, 45)
        ]
    );
    assert_eq!(recalculate_ratios(&stats, Metric::FileCount).len(), 4);
    assert!(recalculate_ratios(&vec![stat("Rust", 0, 0, 0, 0)], Metric::Bytes).is_empty());
}

#[test]
fn rebuilding_ignores_input_order() {
    let a = vec![stat("C", 4, 10, 0, 0), stat("Go", 1, 50, 0, 0), stat("Rust", 1, 50, 0, 0)];
    let b = vec![stat("Rust", 1, 50, 0, 0), stat("C", 4, 10, 0, 0), stat("Go", 1, 50, 0, 0)];
    for metric in [Metric::Bytes, Metric::FileCount] {
        assert_eq!(summary(&recalculate_ratios(&a, metric)), summary(&recalculate_ratios(&b, metric)));
    }
    let names: Vec<String> = recalculate_ratios(&b, Metric::Bytes).into_iter().map(|s| s.lang).collect();
    assert_eq!(names, vec!["Go", "Rust", "C"]);
}

#[test]
fn collapse_is_a_partition() {
    let agg = totals(&[("A", 4, 40), ("B", 3, 30), ("C", 2, 20), ("D", 1, 10)]);
    let report = agg.build(Metric::Bytes);
    let out = collapse_tail_to_others(report, 2);
    assert_eq!(
        summary(&out),
        vec![
            ("A".to_string(), 4, 40, 40, 100),
            ("B".to_string(), 3, 30, 30, 100),
            ("Other".to_string(), 3, 30, 30, 100)
        ]
    );
    assert_eq!(out.iter().map(|s| s.count).sum::<u32>(), 10);
    assert_eq!(out.iter().map(|s| s.bytes).sum::<u64>(), 100);
}

#[test]
fn collapse_with_zero_or_large_keep_is_identity() {
    let agg = totals(&[("A", 4, 40), ("B", 3, 30), ("C", 2, 20)]);
    let report = agg.build(Metric::Bytes);
    let expected = summary(&report);
    assert_eq!(summary(&collapse_tail_to_others(agg.build(Metric::Bytes), 0)), expected);
    assert_eq!(summary(&collapse_tail_to_others(agg.build(Metric::Bytes), 3)), expected);
    assert_eq!(summary(&collapse_tail_to_others(report, 10)), expected);
}

#[test]
fn merging_parts_matches_one_pass() {
    let files = [("Rust", 10u64), ("Go", 5), ("Rust", 7), ("C", 1), ("Go", 2), ("Rust", 3)];
    let mut whole = Aggregate::new();
    for (lang, size) in files.iter() {
        whole.record(lang.to_string(), *size);
    }
    let mut left = Aggregate::new();
    let mut right = Aggregate::new();
    for (i, (lang, size)) in files.iter().enumerate() {
        if i % 2 == 0 {
            left.record(lang.to_string(), *size);
        } else {
            right.record(lang.to_string(), *size);
        }
    }
    left.merge(&right);
    assert_eq!(left.total_files(), 6);
    assert_eq!(left.total_bytes(), 28);
    for metric in [Metric::Bytes, Metric::FileCount] {
        assert_eq!(summary(&left.build(metric)), summary(&whole.build(metric)));
    }
    assert_eq!(
        summary(&whole.build(Metric::Bytes)),
        vec![
            ("Rust".to_string(), 3, 20, 20, 28),
            ("Go".to_string(), 2, 7, 7, 28),
            ("C".to_string(), 1, 1, 1, 28)
        ]
    );
}

#[test]
fn equal_name_and_metric_ordered_by_other_metric() {
    let a = vec![stat("Rust", 1, 10, 0, 0), stat("Rust", 2, 10, 0, 0)];
    let b = vec![stat("Rust", 2, 10, 0, 0), stat("Rust", 1, 10, 0, 0)];
    let expected = vec![("Rust".to_string(), 2, 10, 10, 20), ("Rust".to_string(), 1, 10, 10, 20)];
    assert_eq!(summary(&recalculate_ratios(&a, Metric::Bytes)), expected);
    assert_eq!(summary(&recalculate_ratios(&b, Metric::Bytes)), expected);
    assert_eq!(summary(&process_stats_for_ui(&a, Metric::Bytes)), expected);
    let c = vec![stat("Go", 3, 5, 0, 0), stat("Go", 3, 9, 0, 0)];
    assert_eq!(
        summary(&recalculate_ratios(&c, Metric::FileCount)),
        vec![("Go".to_string(), 3, 9, 3, 6), ("Go".to_string(), 3, 5, 3, 6)]
    );
}

#[test]
fn metric_change_leaves_no_trace() {
    let s = vec![
        stat("Rust", 1, 10, 0, 0),
        stat("Go", 4, 10, 0, 0),
        stat("Rust", 3, 10, 0, 0),
        stat("C", 2, 30, 0, 0),
    ];
    let by_count = recalculate_ratios(&s, Metric::FileCount);
    assert_eq!(
        summary(&recalculate_ratios(&by_count, Metric::Bytes)),
        summary(&recalculate_ratios(&s, Metric::Bytes))
    );
    assert_eq!(
        summary(&recalculate_ratios(&s, Metric::Bytes)),
        vec![
            ("C".to_string(), 2, 30, 30, 60),
            ("Go".to_string(), 4, 10, 10, 60),
            ("Rust".to_string(), 3, 10, 10, 60),
            ("Rust".to_string(), 1, 10, 10, 60)
        ]
    );
}
