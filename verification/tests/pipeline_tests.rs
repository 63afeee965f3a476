use nova_bench::parse::{parse_line, parse_samples};
use nova_bench::render::render_report;
use nova_bench::report::{build_report, Report};
use nova_bench::run::{artifact_path_for, record_execution, resolve_artifact, CacheDecision};
use nova_bench::stats::BenchmarkResult;

fn record(results: &mut Vec<BenchmarkResult>, commit: &str, bench: &str, times: Vec<u128>) {
    let mut out = Vec::new();
    for t in times {
        out.extend_from_slice(t.to_string().as_bytes());
        out.push(b'\n');
    }
    record_execution(results, commit, bench, true, &out);
}

fn report_shape(rep: &Report) -> Vec<(String, Vec<(String, u128, u128, u128, u128)>)> {
    rep.sections
        .iter()
        .map(|s| {
            (
                s.revision.clone(),
                s.rows
                    .iter()
                    .map(|r| (r.workload.clone(), r.best, r.worst, r.median, r.average))
                    .collect(),
            )
        })
        .collect()
}

#[test]
fn parser_keeps_numeric_lines_in_order_and_drops_the_rest() {
    let out = b"100\nstarting up...\n200\n  300  \nnot a number";
    assert_eq!(parse_samples(out), vec![100, 200, 300]);
}

#[test]
fn parser_accepts_whitespace_and_one_leading_plus() {
    assert_eq!(parse_line(b" 99 "), Some(99));
    assert_eq!(parse_line(b"+42"), Some(42));
    assert_eq!(parse_line(b"\t7\r"), Some(7));
    assert_eq!(parse_line(b"007"), Some(7));
}

#[test]
fn parser_trims_unicode_whitespace() {
    // no-break space, as str::trim would remove it
    assert_eq!(parse_line("\u{a0}42\u{a0}".as_bytes()), Some(42));
    // ideographic space and line separator around an ASCII-space-padded number
    assert_eq!(parse_line("\u{3000} 7 \u{2028}".as_bytes()), Some(7));
    // next line (U+0085) and narrow no-break space
    assert_eq!(parse_line("\u{85}9\u{202f}".as_bytes()), Some(9));
    // whitespace inside the digits still rejects the line
    assert_eq!(parse_line("1\u{a0}2".as_bytes()), None);
    // a line of nothing but unicode whitespace holds no sample
    assert_eq!(parse_line("\u{2009}\u{200a}".as_bytes()), None);
}

#[test]
fn parser_keeps_non_whitespace_unicode_out() {
    // replacement-character bytes and other non-whitespace stay, so the
    // line is not a plain number
    assert_eq!(parse_line("\u{fffd}5".as_bytes()), None);
    assert_eq!(parse_line("5\u{2603}".as_bytes()), None);
}

#[test]
fn parser_rejects_lines_that_are_not_plain_numbers() {
    assert_eq!(parse_line(b""), None);
    assert_eq!(parse_line(b"   "), None);
    assert_eq!(parse_line(b"+"), None);
    assert_eq!(parse_line(b"12a"), None);
    assert_eq!(parse_line(b"-5"), None);
    assert_eq!(parse_line(b"1 2"), None);
}

#[test]
fn parser_rejects_numbers_that_do_not_fit() {
    // one past the largest sample value
    assert_eq!(parse_line(b"340282366920938463463374607431768211456"), None);
    assert_eq!(
        parse_line(b"340282366920938463463374607431768211455"),
        Some(u128::MAX)
    );
}

#[test]
fn parser_of_empty_output_yields_no_samples() {
    assert_eq!(parse_samples(b""), Vec::<u128>::new());
    assert_eq!(parse_samples(b"\n\n"), Vec::<u128>::new());
}

#[test]
fn artifact_path_follows_the_convention() {
    assert_eq!(artifact_path_for("abc123"), "nova-builds/nova-abc123");
}

#[test]
fn existing_artifact_is_never_rebuilt() {
    // a tiny driver loop over a fake cache: the build driver counts its calls
    let on_disk = ["cached1", "cached2"];
    let revisions = ["cached1", "fresh", "cached2"];
    let mut builds: Vec<String> = Vec::new();
    for rev in revisions {
        let exists = on_disk.contains(&rev);
        match resolve_artifact(exists) {
            CacheDecision::UseCached => {}
            CacheDecision::RunBuild => builds.push(rev.to_string()),
        }
    }
    assert_eq!(builds, vec!["fresh".to_string()]);
    assert_eq!(resolve_artifact(true), CacheDecision::UseCached);
    assert_eq!(resolve_artifact(false), CacheDecision::RunBuild);
}

#[test]
fn failed_or_sampleless_executions_record_nothing() {
    let mut results = Vec::new();
    // non-zero exit: skipped even though the output has numbers
    record_execution(&mut results, "c1", "w1", false, b"100\n200\n");
    assert_eq!(results.len(), 0);
    // clean exit but no parseable samples: skipped
    record_execution(&mut results, "c1", "w1", true, b"log line\nanother\n");
    assert_eq!(results.len(), 0);
    // clean exit with samples: recorded
    record_execution(&mut results, "c1", "w1", true, b"100\nnoise\n200\n");
    assert_eq!(results.len(), 1);
    assert_eq!(results[0].commit, "c1");
    assert_eq!(results[0].benchmark, "w1");
    assert_eq!(results[0].times, vec![100, 200]);
}

#[test]
fn sampleless_pair_is_absent_from_the_report() {
    let mut results = Vec::new();
    record(&mut results, "c1", "w1", vec![10, 20]);
    // w2 ran for c1 but produced nothing parseable
    record_execution(&mut results, "c1", "w2", true, b"oops\n");
    record(&mut results, "c2", "w2", vec![30]);
    let rep = build_report(&results);
    let shape = report_shape(&rep);
    assert_eq!(shape.len(), 2);
    assert_eq!(shape[0].0, "c1");
    let c1_workloads: Vec<&String> = shape[0].1.iter().map(|r| &r.0).collect();
    assert_eq!(c1_workloads, vec!["w1"]);
    assert_eq!(shape[1].0, "c2");
    let c2_workloads: Vec<&String> = shape[1].1.iter().map(|r| &r.0).collect();
    assert_eq!(c2_workloads, vec!["w2"]);
}

#[test]
fn report_sorts_revisions_and_workloads_lexically() {
    // run order: revision "b" before "a", workloads "w2.js" before "w1.js"
    let mut results = Vec::new();
    record(&mut results, "b", "w2.js", vec![4]);
    record(&mut results, "b", "w1.js", vec![3]);
    record(&mut results, "a", "w2.js", vec![2]);
    record(&mut results, "a", "w1.js", vec![1]);
    let rep = build_report(&results);
    let shape = report_shape(&rep);
    assert_eq!(shape.len(), 2);
    assert_eq!(shape[0].0, "a");
    assert_eq!(shape[1].0, "b");
    for (_, rows) in &shape {
        let names: Vec<&String> = rows.iter().map(|r| &r.0).collect();
        assert_eq!(names, vec!["w1.js", "w2.js"]);
    }
    assert_eq!(shape[0].1[0], ("w1.js".to_string(), 1, 1, 1, 1));
    assert_eq!(shape[1].1[1], ("w2.js".to_string(), 4, 4, 4, 4));
}

#[test]
fn report_rows_carry_the_pair_statistics() {
    let mut results = Vec::new();
    record(&mut results, "c", "w", vec![1, 2, 3, 4]);
    let rep = build_report(&results);
    let shape = report_shape(&rep);
    assert_eq!(
        shape,
        vec![("c".to_string(), vec![("w".to_string(), 1, 4, 2, 2)])]
    );
}

#[test]
fn rerunning_identical_inputs_gives_an_identical_report() {
    let mut first = Vec::new();
    record(&mut first, "rev-b", "fib.js", vec![120, 80, 100]);
    record(&mut first, "rev-a", "fib.js", vec![90, 70]);
    record(&mut first, "rev-a", "sort.js", vec![55]);
    let mut second = Vec::new();
    record(&mut second, "rev-b", "fib.js", vec![120, 80, 100]);
    record(&mut second, "rev-a", "fib.js", vec![90, 70]);
    record(&mut second, "rev-a", "sort.js", vec![55]);
    let rep1 = build_report(&first);
    let rep2 = build_report(&second);
    assert_eq!(report_shape(&rep1), report_shape(&rep2));
    assert_eq!(render_report(&rep1), render_report(&rep2));
}

#[test]
fn duplicate_pair_keeps_the_later_result() {
    let mut results = Vec::new();
    record(&mut results, "c", "w", vec![1]);
    record(&mut results, "c", "w", vec![9]);
    let rep = build_report(&results);
    let shape = report_shape(&rep);
    assert_eq!(
        shape,
        vec![("c".to_string(), vec![("w".to_string(), 9, 9, 9, 9)])]
    );
}

#[test]
fn empty_results_render_an_explicit_notice() {
    let rep = build_report(&Vec::new());
    assert_eq!(rep.sections.len(), 0);
    let text = render_report(&rep);
    assert_eq!(text, "\nNo results to display.\n");
}

#[test]
fn nonempty_results_render_tables_not_the_notice() {
    let mut results = Vec::new();
    record(&mut results, "a", "w1.js", vec![1234567, 1000]);
    let rep = build_report(&results);
    let text = render_report(&rep);
    assert_ne!(text, "\nNo results to display.\n");
    assert!(text.contains("w1.js"));
    assert!(text.contains("Benchmark"));
    // best of the pair, rendered with digit grouping
    assert!(text.contains("1,000"));
    assert!(text.contains("1,234,567"));
    // the scaffolding around the table
    assert!(text.starts_with("\n\nCommit: a\n"));
    assert!(text.ends_with("\n\n"));
}

#[test]
fn report_scaffolding_titles_every_revision_in_order() {
    let mut results = Vec::new();
    record(&mut results, "zeta", "w.js", vec![5]);
    record(&mut results, "alpha", "w.js", vec![6]);
    let rep = build_report(&results);
    let text = render_report(&rep);
    let first = text.find("Commit: alpha\n").expect("first title missing");
    let second = text.find("Commit: zeta\n").expect("second title missing");
    assert!(first < second);
}
