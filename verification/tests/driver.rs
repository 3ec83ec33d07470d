use collapse_xdebug::{Collapser, Options, Phase, Step, TraceError, Weighting};
use regex::Regex;

const SCALE_FACTOR: f32 = 1_000_000.0;

fn timed() -> Collapser {
    Collapser::new(Options::default()).unwrap()
}

fn counting() -> Collapser {
    Collapser::new(Options { weighting: Weighting::Invocations }).unwrap()
}

/// Feeds the lines and weights each record by the time since the one before.
fn run_timed(lines: &[&str]) -> Vec<(String, f32)> {
    let mut run = timed();
    let mut weights: Vec<f32> = Vec::new();
    let mut prev: f32 = 0.0;
    for line in lines {
        if let Step::Record { time, slot } = run.feed(line).unwrap() {
            let time: f32 = time.parse().unwrap();
            let slot = slot.unwrap();
            if slot == weights.len() {
                weights.push(0.0);
            }
            weights[slot] += SCALE_FACTOR * (time - prev);
            prev = time;
        }
    }
    run.report().into_iter().map(|(name, _)| name).zip(weights).collect()
}

fn run_counting(lines: &[&str]) -> Vec<(String, u64)> {
    let mut run = counting();
    for line in lines {
        run.feed(line).unwrap();
    }
    run.report()
}

const NESTED: [&str; 8] = [
    "Version: 2.6.0\n",
    "TRACE START [2019-02-01 10:00:00]\n",
    "1\t1\t0\t0\t200000\tfoo\t1\t/a.php\t1\t0\n",
    "2\t2\t0\t1\t200000\tbar\t1\t/a.php\t2\t0\n",
    "2\t2\t1\t3\t200000\n",
    "1\t1\t1\t4\t200000\n",
    "TRACE END   [2019-02-01 10:00:04]\n",
    "1\t1\t0\t9\t200000\tlate\t1\t/a.php\t1\t0\n",
];

#[test]
fn default_options_weigh_time() {
    assert_eq!(Options::default().weighting, Weighting::Elapsed);
}

#[test]
fn nested_calls_weighted_by_time() {
    let mut lines = run_timed(&NESTED);
    lines.sort_by(|a, b| a.0.cmp(&b.0));
    // The time before the first call belongs to the empty stack: none here.
    assert_eq!(lines[0], ("".to_string(), 0.0));
    let open: Vec<(String, f32)> = lines.into_iter().filter(|line| !line.0.is_empty()).collect();
    assert_eq!(open, vec![("foo".to_string(), 2_000_000.0), ("foo;bar".to_string(), 2_000_000.0)]);
    assert_eq!(format!("{} {}", open[0].0, open[0].1), "foo 2000000");
    assert_eq!(format!("{} {}", open[1].0, open[1].1), "foo;bar 2000000");
}

#[test]
fn first_record_is_attributed_to_the_empty_stack() {
    let mut run = timed();
    run.feed("TRACE START").unwrap();
    match run.feed("1 1 0 0.5 0 foo 1 /a.php").unwrap() {
        Step::Record { time, slot } => {
            assert_eq!(time, "0.5");
            assert_eq!(slot, Some(0));
        }
        other => panic!("unexpected: {:?}", other),
    }
    assert_eq!(run.report(), vec![("".to_string(), 1)]);
    assert_eq!(run.depth(), 1);
}

#[test]
fn each_record_is_counted_once() {
    let mut run = timed();
    let mut attributed = 0;
    for line in NESTED.iter() {
        if let Step::Record { slot: Some(_), .. } = run.feed(line).unwrap() {
            attributed += 1;
        }
    }
    assert_eq!(attributed, 4);
    let total: u64 = run.report().iter().map(|(_, count)| count).sum();
    assert_eq!(total, 4);
    assert_eq!(
        run.report(),
        vec![("".to_string(), 1), ("foo".to_string(), 2), ("foo;bar".to_string(), 1)]
    );
}

#[test]
fn counting_weighs_entries_only() {
    let lines = run_counting(&[
        "TRACE START",
        "1 1 0 0.0 0 main 1 /a.php",
        "2 2 0 5.0 0 foo 1 /a.php",
        "2 2 1 100.0 0",
        "2 3 0 100.5 0 foo 1 /a.php",
        "2 3 1 200.0 0",
        "2 4 0 200.0 0 include 1 /b.php",
        "2 4 1 300.0 0",
        "1 1 1 400.0 0",
        "TRACE END",
    ]);
    assert_eq!(lines, vec![("".to_string(), 1), ("main".to_string(), 3)]);
}

#[test]
fn counting_exit_has_no_slot() {
    let mut run = counting();
    run.feed("TRACE START").unwrap();
    run.feed("1 1 0 0.0 0 main 1 /a.php").unwrap();
    match run.feed("1 1 1 1.0 0").unwrap() {
        Step::Record { time, slot } => {
            assert_eq!(time, "1.0");
            assert_eq!(slot, None);
        }
        other => panic!("unexpected: {:?}", other),
    }
    assert_eq!(run.depth(), 0);
    assert_eq!(run.report(), vec![("".to_string(), 1)]);
}

#[test]
fn exit_without_entrance_is_discarded() {
    let mut run = timed();
    run.feed("TRACE START").unwrap();
    match run.feed("1 1 1 0.25 0").unwrap() {
        Step::Discarded { time } => assert_eq!(time, "0.25"),
        other => panic!("unexpected: {:?}", other),
    }
    assert_eq!(run.slots(), 0);
    assert_eq!(run.depth(), 0);
    assert!(matches!(run.feed("1 1 0 1 0 foo 1 /a.php").unwrap(), Step::Record { slot: Some(0), .. }));
    assert!(matches!(run.feed("1 1 1 2 0").unwrap(), Step::Record { slot: Some(1), .. }));
    assert!(matches!(run.feed("1 1 1 3 0").unwrap(), Step::Discarded { .. }));
    assert_eq!(run.report(), vec![("".to_string(), 1), ("foo".to_string(), 1)]);
}

#[test]
fn entry_without_name_or_path_is_weighed_but_not_pushed() {
    let mut run = timed();
    run.feed("TRACE START").unwrap();
    run.feed("1 1 0 0 0 main 1 /a.php").unwrap();
    assert!(matches!(run.feed("2 2 0 1").unwrap(), Step::Record { slot: Some(1), .. }));
    assert_eq!(run.depth(), 1);
    assert!(matches!(run.feed("2 2 0 2 0 foo 1").unwrap(), Step::Record { slot: Some(1), .. }));
    assert_eq!(run.depth(), 1);
    assert_eq!(run.report(), vec![("".to_string(), 1), ("main".to_string(), 2)]);
}

#[test]
fn lines_outside_the_trace_are_skipped() {
    let mut run = timed();
    assert!(!run.is_finished());
    assert!(matches!(run.feed("1 1 0 0 0 early 1 /a.php").unwrap(), Step::Skipped));
    assert!(matches!(run.feed("1 1 7 0").unwrap(), Step::Skipped));
    assert_eq!(run.slots(), 0);
    assert!(matches!(run.feed("xx TRACE START yy").unwrap(), Step::Skipped));
    assert!(matches!(run.feed("TRACE START").unwrap(), Step::Skipped));
    assert!(matches!(run.feed("TRACE START 1 0.5").unwrap(), Step::Discarded { .. }));
    assert!(matches!(run.feed("").unwrap(), Step::Skipped));
    assert!(matches!(run.feed("a TRACE END b c d").unwrap(), Step::Skipped));
    assert!(run.is_finished());
    assert!(matches!(run.feed("1 1 0 0 0 late 1 /a.php").unwrap(), Step::Skipped));
    assert!(matches!(run.feed("1 1 7 0").unwrap(), Step::Skipped));
    assert_eq!(run.slots(), 0);
}

#[test]
fn bad_exit_flag_ends_the_run() {
    let mut run = timed();
    run.feed("TRACE START").unwrap();
    match run.feed("1 1 yes 0.5 0 foo 1 /a.php") {
        Err(TraceError::ExitFlag { token }) => assert_eq!(token, "yes"),
        other => panic!("unexpected: {:?}", other),
    }
    assert_eq!(run.slots(), 0);
    assert_eq!(run.depth(), 0);
}

#[test]
fn markers_that_do_not_compile() {
    let good = || Regex::new("TRACE START");
    let bad = || Regex::new("(");
    assert!(matches!(
        Collapser::from_compiled(Options::default(), bad(), good()),
        Err(TraceError::Marker)
    ));
    assert!(matches!(
        Collapser::from_compiled(Options::default(), good(), bad()),
        Err(TraceError::Marker)
    ));
    assert!(Collapser::from_compiled(Options::default(), good(), good()).is_ok());
}

#[test]
fn markers_are_expressions() {
    let mut run = Collapser::with_markers(
        Options::default(),
        Regex::new("^BEGIN [0-9]+$").unwrap(),
        Regex::new("^END").unwrap(),
    );
    assert!(matches!(run.feed("BEGIN x").unwrap(), Step::Skipped));
    assert!(matches!(run.feed("1 1 0 0 0 foo 1 /a.php").unwrap(), Step::Skipped));
    assert!(matches!(run.feed("BEGIN 12").unwrap(), Step::Skipped));
    assert!(matches!(run.feed("1 1 0 0 0 foo 1 /a.php").unwrap(), Step::Record { .. }));
    assert!(matches!(run.feed("END").unwrap(), Step::Skipped));
    assert!(run.is_finished());
}

#[test]
fn same_input_same_report() {
    let first = run_timed(&NESTED);
    let second = run_timed(&NESTED);
    assert_eq!(first, second);
    assert_eq!(run_counting(&NESTED), run_counting(&NESTED));
}

#[test]
fn recursion_and_inclusion() {
    let lines = run_counting(&[
        "TRACE START",
        "1 1 0 0 0 {main} 1 /index.php 0 0",
        "2 2 0 0 0 require_once 1 /lib.php /index.php 3 0",
        "3 3 0 0 0 fact 1 /lib.php 9 1 3",
        "4 4 0 0 0 fact 1 /lib.php 9 1 2",
        "5 5 0 0 0 fact 1 /lib.php 9 1 1",
        "5 5 1 0 0",
        "4 4 1 0 0",
        "3 3 1 0 0",
        "2 2 1 0 0",
        "2 6 0 0 0 require_once 1 /lib.php /index.php 4 0",
        "TRACE END",
    ]);
    assert_eq!(
        lines,
        vec![
            ("".to_string(), 1),
            ("{main}".to_string(), 2),
            ("{main};require_once(/lib.php)".to_string(), 1),
            ("{main};require_once(/lib.php);fact".to_string(), 1),
            ("{main};require_once(/lib.php);fact;fact".to_string(), 1),
        ]
    );
}

#[test]
fn phase_names_are_distinct() {
    assert_ne!(Phase::Preamble, Phase::Tracing);
    assert_ne!(Phase::Tracing, Phase::Finished);
}

#[test]
fn the_markers_compile() {
    assert!(Regex::new("TRACE START").is_ok());
    assert!(Regex::new("TRACE END").is_ok());
    assert!(Collapser::new(Options::default()).is_ok());
    assert!(Collapser::new(Options { weighting: Weighting::Invocations }).is_ok());
}
