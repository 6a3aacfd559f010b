use test_metrics::{
    combine, contains, display_name, ends_with, extract_metrics, is_white_space,
    list_instrumented_tests, measurement, metrics_from_captures, parse_count, strip_marker, trim,
    Campaign, HarnessError, MetricRecord, MetricsPattern,
};

fn rec(name: &str, duration_nanos: u64, blocks: u64, instructions: u64) -> MetricRecord {
    MetricRecord { name: name.to_string(), duration_nanos, blocks, instructions }
}

fn triple(m: &MetricRecord) -> (String, u64, u64, u64) {
    (m.name.clone(), m.duration_nanos, m.blocks, m.instructions)
}

fn pattern() -> MetricsPattern {
    MetricsPattern::new().expect("the metrics pattern compiles")
}

#[test]
fn discovery_keeps_marked_variant_only() {
    let tests = list_instrumented_tests("foo_1: test\nbar_2: test\n", "1");
    assert_eq!(tests, vec!["foo_1".to_string()]);
}

#[test]
fn discovery_of_empty_manifest_is_empty() {
    assert!(list_instrumented_tests("", "1").is_empty());
}

#[test]
fn discovery_handles_paths_whitespace_and_other_lines() {
    let manifest = "   lifter::tests::add_1: test\r\n\
                    lifter::tests::add: test\n\
                    lifter::bench::mul_1: bench\n\
                    3 tests, 0 benchmarks\n\
                    sub_11: test\n\
                    plain_test_1";
    let tests = list_instrumented_tests(manifest, "1");
    assert_eq!(
        tests,
        vec![
            "lifter::tests::add_1".to_string(),
            "sub_11".to_string(),
            "plain_test_1".to_string()
        ]
    );
}

#[test]
fn discovery_with_another_marker() {
    let tests = list_instrumented_tests("foo_1: test\nbar_2: test\n", "2");
    assert_eq!(tests, vec!["bar_2".to_string()]);
}

#[test]
fn extraction_finds_counters() {
    let p = pattern();
    let out = "running 1 test\nBlocks: 1, Instructions: 6\ntest ok\n";
    assert_eq!(extract_metrics(&p, out), Ok(Some((1, 6))));
}

#[test]
fn extraction_without_line_is_none() {
    let p = pattern();
    assert_eq!(extract_metrics(&p, "error[E0425]: cannot find value"), Ok(None));
    assert_eq!(extract_metrics(&p, ""), Ok(None));
    assert_eq!(extract_metrics(&p, "Blocks: , Instructions: 3"), Ok(None));
}

#[test]
fn extraction_first_line_wins() {
    let p = pattern();
    let out = "Blocks: 12, Instructions: 345\nBlocks: 7, Instructions: 8\n";
    assert_eq!(extract_metrics(&p, out), Ok(Some((12, 345))));
}

#[test]
fn extraction_of_oversized_counter_is_malformed() {
    let p = pattern();
    let out = "Blocks: 99999999999999999999999, Instructions: 1";
    assert_eq!(extract_metrics(&p, out), Err(HarnessError::MalformedMetrics));
}

#[test]
fn extraction_of_non_ascii_digits_is_malformed() {
    let p = pattern();
    let out = "Blocks: \u{0663}, Instructions: 1";
    assert_eq!(extract_metrics(&p, out), Err(HarnessError::MalformedMetrics));
}

#[test]
fn counters_from_captured_texts() {
    assert_eq!(metrics_from_captures("2", "40"), Ok((2, 40)));
    assert_eq!(metrics_from_captures("x", "40"), Err(HarnessError::MalformedMetrics));
    assert_eq!(metrics_from_captures("2", ""), Err(HarnessError::MalformedMetrics));
}

#[test]
fn parse_count_limits() {
    assert_eq!(parse_count("0"), Some(0));
    assert_eq!(parse_count("18446744073709551615"), Some(u64::MAX));
    assert_eq!(parse_count("18446744073709551616"), None);
    assert_eq!(parse_count(""), None);
    assert_eq!(parse_count("+5"), None);
    assert_eq!(parse_count("007"), Some(7));
}

#[test]
fn suffix_rule_strips_every_marker_suffix() {
    assert_eq!(strip_marker("foo_1", "1"), "foo");
    assert_eq!(strip_marker("foo", "1"), "foo");
    assert_eq!(strip_marker(&strip_marker("foo_1", "1"), "1"), "foo");
    assert_eq!(strip_marker("foo_1_1", "1"), "foo");
    assert_eq!(strip_marker(&strip_marker("foo_1_1", "1"), "1"), "foo");
    assert_eq!(strip_marker("foo1", "1"), "foo1");
    assert_eq!(strip_marker("a::b_7", "7"), "a::b");
}

#[test]
fn suffix_rule_never_empties_a_name() {
    assert_eq!(strip_marker("_1", "1"), "_1");
    assert_eq!(strip_marker("_1_1", "1"), "_1");
    assert_eq!(strip_marker("", "1"), "");
}

#[test]
fn identifier_that_is_only_the_suffix_keeps_its_name() {
    let p = pattern();
    let tests = list_instrumented_tests("_1: test\n", "1");
    assert_eq!(tests, vec!["_1".to_string()]);
    let m = measurement(&p, &tests[0], "1", "Blocks: 1, Instructions: 2", 5).unwrap().unwrap();
    assert_eq!(m.name, "_1");
}

#[test]
fn extraction_stops_before_non_digit_letter() {
    let p = pattern();
    assert_eq!(extract_metrics(&p, "Blocks: 1, Instructions: 2\u{e9}"), Ok(Some((1, 2))));
    assert_eq!(extract_metrics(&p, "Blocks: \u{e9}, Instructions: 2"), Ok(None));
}

#[test]
fn qualifier_rule_keeps_last_segment() {
    assert_eq!(display_name("lifter::tests::add"), "add");
    assert_eq!(display_name("add"), "add");
    assert_eq!(display_name(&display_name("a::b::c")), "c");
    assert_eq!(display_name("a:::b"), ":b");
    assert_eq!(display_name("a::"), "");
    assert_eq!(display_name(""), "");
}

#[test]
fn text_helpers() {
    assert_eq!(trim(" \t x y \r\n"), "x y");
    assert_eq!(trim("   "), "");
    assert!(contains("foo: test", "test"));
    assert!(!contains("foo: bench", "test"));
    assert!(ends_with("foo_1", "1"));
    assert!(!ends_with("1", "_1"));
    assert!(is_white_space('\u{3000}'));
    assert!(!is_white_space('x'));
}

#[test]
fn aggregation_divides_by_total_run_count() {
    let runs = vec![
        vec![rec("A", 1000, 2, 4), rec("B", 3000, 10, 20)],
        vec![rec("A", 1000, 2, 4)],
    ];
    let out = combine(&runs).expect("sums fit");
    let got: Vec<_> = out.iter().map(triple).collect();
    assert_eq!(
        got,
        vec![("A".to_string(), 1000, 2, 4), ("B".to_string(), 1500, 5, 10)]
    );
}

#[test]
fn aggregation_present_in_every_run() {
    let runs = vec![
        vec![rec("A", 1_000_000_000, 1, 2)],
        vec![rec("A", 1_000_000_000, 1, 2)],
        vec![rec("A", 1_000_000_000, 1, 2)],
    ];
    let out = combine(&runs).expect("sums fit");
    assert_eq!(out.iter().map(triple).collect::<Vec<_>>(), vec![("A".to_string(), 1_000_000_000, 1, 2)]);
}

#[test]
fn aggregation_present_in_one_of_three_runs() {
    let runs = vec![vec![rec("A", 1_000_000_000, 1, 2)], vec![], vec![]];
    let out = combine(&runs).expect("sums fit");
    assert_eq!(out.iter().map(triple).collect::<Vec<_>>(), vec![("A".to_string(), 333_333_333, 0, 0)]);
}

#[test]
fn aggregation_keeps_first_seen_order() {
    let runs = vec![vec![rec("B", 1, 1, 1)], vec![rec("A", 1, 1, 1), rec("B", 1, 1, 1)]];
    let out = combine(&runs).expect("sums fit");
    let names: Vec<_> = out.iter().map(|m| m.name.clone()).collect();
    assert_eq!(names, vec!["B".to_string(), "A".to_string()]);
    assert_eq!(triple(&out[0]), ("B".to_string(), 1, 1, 1));
    assert_eq!(triple(&out[1]), ("A".to_string(), 0, 0, 0));
}

#[test]
fn aggregation_of_no_runs_is_empty() {
    assert!(combine(&[]).expect("sums fit").is_empty());
}

#[test]
fn aggregation_overflow_is_reported() {
    let runs = vec![vec![rec("A", 1, u64::MAX, 1)], vec![rec("A", 1, 1, 1)]];
    assert!(combine(&runs).is_none());
}

#[test]
fn single_measured_pass_is_reported_unchanged() {
    let run = vec![rec("x", 17, 3, 9), rec("y", 5, 1, 2)];
    let out = combine(&[run]).expect("sums fit");
    assert_eq!(
        out.iter().map(triple).collect::<Vec<_>>(),
        vec![("x".to_string(), 17, 3, 9), ("y".to_string(), 5, 1, 2)]
    );
}

#[test]
fn measurement_names_by_suffix_rule() {
    let p = pattern();
    let m = measurement(&p, "tests::add_1", "1", "Blocks: 4, Instructions: 9", 250).unwrap().unwrap();
    assert_eq!(triple(&m), ("tests::add".to_string(), 250, 4, 9));
    assert!(measurement(&p, "tests::add_1", "1", "no counters", 250).unwrap().is_none());
}

#[test]
fn manifest_failure_is_fatal_before_any_test() {
    let r = Campaign::start(None, "1", 5, 20, pattern());
    assert!(matches!(r, Err(HarnessError::ManifestUnavailable)));
}

fn drive(c: &mut Campaign, outputs: &dyn Fn(&str) -> String) -> Vec<String> {
    let mut invoked = Vec::new();
    while let Some(t) = c.next_test() {
        let out = outputs(&t);
        c.record(&out, 100).unwrap();
        invoked.push(t);
    }
    invoked
}

#[test]
fn campaign_without_warmup_reports_the_single_pass() {
    let mut c = Campaign::start(Some("a_1: test\nb_1: test\n"), "1", 0, 1, pattern()).unwrap();
    let invoked = drive(&mut c, &|t: &str| {
        if t == "a_1" { "Blocks: 3, Instructions: 7".to_string() } else { "Blocks: 5, Instructions: 11".to_string() }
    });
    assert_eq!(invoked, vec!["a_1".to_string(), "b_1".to_string()]);
    let report = c.finish().unwrap();
    assert_eq!(
        report.iter().map(triple).collect::<Vec<_>>(),
        vec![("a".to_string(), 100, 3, 7), ("b".to_string(), 100, 5, 11)]
    );
}

#[test]
fn campaign_runs_warmup_then_measured_passes() {
    let mut c = Campaign::start(Some("a_1: test\nskip_2: test\n"), "1", 2, 3, pattern()).unwrap();
    let invoked = drive(&mut c, &|_t: &str| "Blocks: 6, Instructions: 9".to_string());
    assert_eq!(invoked.len(), 5);
    assert_eq!(c.runs.len(), 3);
    let report = c.finish().unwrap();
    assert_eq!(report.iter().map(triple).collect::<Vec<_>>(), vec![("a".to_string(), 100, 6, 9)]);
}

#[test]
fn campaign_ignores_warmup_output() {
    let mut c = Campaign::start(Some("a_1: test\n"), "1", 1, 1, pattern()).unwrap();
    assert!(c.record("Blocks: 99999999999999999999999, Instructions: 1", 1).is_ok());
    assert_eq!(c.record("Blocks: 99999999999999999999999, Instructions: 1", 1), Err(HarnessError::MalformedMetrics));
}

#[test]
fn campaign_with_no_tests_reports_nothing() {
    let mut c = Campaign::start(Some("nothing here\n"), "1", 5, 20, pattern()).unwrap();
    assert!(c.next_test().is_none());
    assert_eq!(c.runs.len(), 20);
    assert!(c.finish().unwrap().is_empty());
    assert!(drive(&mut c, &|_t: &str| String::new()).is_empty());
}
