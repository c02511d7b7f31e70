use rtk_discover::calendar::{cutoff, measured_since_day};
use rtk_discover::coverage::Coverage;
use rtk_discover::report::{build_report, supported_entry, MAX_EXAMPLES};
use rtk_discover::rules::RtkStatus;
use rtk_discover::scan::conclude;
use rtk_discover::scope::{output_format, project_scope, OutputFormat, ProjectScope};
use rtk_discover::survey::{Finding, PartFacts, SessionFacts};
use rtk_discover::tally::{tally, SupportedBucket, Tally, TallyOverflow};

fn part(text: &str, disabled: bool, finding: Finding) -> PartFacts {
    PartFacts { text: text.to_string(), disabled, finding }
}

fn supported(
    rtk_equivalent: &'static str,
    category: &'static str,
    status: RtkStatus,
    coverage: Coverage,
    raw_tokens: usize,
    saved_tokens: usize,
) -> Finding {
    Finding::Supported { rtk_equivalent, category, status, coverage, raw_tokens, saved_tokens }
}

fn missed(text: &str, rtk_equivalent: &'static str, raw: usize, saved: usize) -> PartFacts {
    let status = RtkStatus::Existing;
    part(text, false, supported(rtk_equivalent, "C", status, Coverage::Measured(false), raw, saved))
}

fn bypass(text: &str) -> PartFacts {
    let status = RtkStatus::Existing;
    part(text, true, supported("rtk x", "C", status, Coverage::Measured(true), 0, 0))
}

fn unsupported(text: &str, base_command: &str) -> PartFacts {
    part(text, false, Finding::Unsupported { base_command: base_command.to_string() })
}

fn tallied(parts: Vec<PartFacts>) -> Tally {
    tally(&vec![SessionFacts::Commands(vec![parts])]).expect("totals fit")
}

#[test]
fn every_part_is_counted_in_one_place() {
    let covered = Coverage::Measured(true);
    let guessed = Coverage::Estimated(true);
    let open = Coverage::Estimated(false);
    let existing = RtkStatus::Existing;
    let t = tallied(vec![
        part("a", false, supported("rtk a", "C", existing, covered, 0, 0)),
        part("a", false, supported("rtk a", "C", existing, guessed, 0, 0)),
        part("a", false, supported("rtk a", "C", existing, open, 8, 4)),
        part("b c", true, supported("rtk b", "C", existing, covered, 0, 0)),
        part("b d", true, supported("rtk b", "C", existing, guessed, 0, 0)),
        part("b e", true, supported("rtk b", "C", existing, open, 0, 0)),
        part("u", true, Finding::Unsupported { base_command: "u".to_string() }),
        unsupported("u v", "u"),
        part("rtk ls", false, Finding::Ignored),
        part("rtk ls", true, Finding::Ignored),
        part("rtk proxy ls", false, Finding::Ignored),
        part("cd", false, Finding::Ignored),
    ]);
    assert_eq!(t.total_commands, 12);
    assert_eq!(t.already_rtk, 3);
    assert_eq!(t.already_rtk_estimated, 1);
    assert_eq!(t.rtk_disabled_count, 2);
    assert_eq!(t.rtk_disabled_estimated, 1);
    assert_eq!(t.rtk_disabled_cmds.len(), 2);
    assert_eq!(t.supported.len(), 1);
    assert_eq!(t.unsupported.len(), 1);
    assert_eq!(t.parse_errors, 0);
}

#[test]
fn record_part_adds_to_what_was_there() {
    let mut t = Tally::new();
    assert_eq!(t.record_part(&missed("git log", "rtk git", 10, 3)), Ok(()));
    assert_eq!(t.record_part(&missed("git log -1", "rtk git", 20, 4)), Ok(()));
    assert_eq!(t.supported.len(), 1);
    assert_eq!(t.supported[0].count, 2);
    assert_eq!(t.supported[0].total_output_tokens, 7);
    assert_eq!(t.supported[0].total_raw_output_tokens, 30);
    assert_eq!(t.supported[0].command_counts.len(), 1);
    assert_eq!(t.supported[0].command_counts[0].command, "git log:Existing");
    assert_eq!(t.supported[0].command_counts[0].count, 2);
}

#[test]
fn totals_that_do_not_fit_are_refused() {
    let mut t = Tally::new();
    assert_eq!(t.record_part(&missed("a", "rtk a", 1, usize::MAX)), Ok(()));
    assert_eq!(t.record_part(&missed("a", "rtk a", 1, 1)), Err(TallyOverflow));
    assert_eq!(t.total_commands, 1);
    assert_eq!(t.supported[0].count, 1);
    assert_eq!(t.supported[0].total_output_tokens, usize::MAX);
    assert_eq!(t.record_part(&missed("b", "rtk b", usize::MAX, 1)), Ok(()));
    assert_eq!(t.record_part(&missed("b", "rtk b", 1, 1)), Err(TallyOverflow));
    assert_eq!(t.record_part(&missed("a", "rtk a", 1, 0)), Ok(()));

    let facts = vec![SessionFacts::Commands(vec![
        vec![missed("a", "rtk a", 1, usize::MAX)],
        vec![missed("a", "rtk a", 1, 1)],
    ])];
    assert!(matches!(tally(&facts), Err(TallyOverflow)));
    assert!(matches!(conclude(&facts, 1, None), Err(TallyOverflow)));
}

#[test]
fn bucket_keeps_the_category_and_the_example_that_came_first() {
    let existing = RtkStatus::Existing;
    let open = Coverage::Measured(false);
    let t = tallied(vec![
        part("a", false, supported("rtk a", "First", existing, open, 1, 1)),
        part("a", false, supported("rtk a", "Second", existing, open, 1, 1)),
        unsupported("make all", "make"),
        unsupported("make test", "make"),
    ]);
    assert_eq!(t.supported[0].category, "First");
    assert_eq!(t.unsupported[0].example, "make all");
    assert_eq!(t.unsupported[0].count, 2);
}

#[test]
fn sums_do_not_depend_on_the_order() {
    let a = || missed("git log", "rtk git", 100, 90);
    let b = || missed("git push", "rtk git", 100, 10);
    let c = || missed("ls", "rtk ls", 7, 3);
    let one = tallied(vec![a(), b(), c()]);
    let other = tallied(vec![c(), b(), a()]);
    assert_eq!(one.supported[0].total_output_tokens, 100);
    assert_eq!(other.supported[1].total_output_tokens, 100);
    assert_eq!(one.supported[0].total_raw_output_tokens, 200);
    assert_eq!(other.supported[1].total_raw_output_tokens, 200);
    assert_eq!(one.supported[1].total_output_tokens, 3);
    assert_eq!(other.supported[0].total_output_tokens, 3);
}

#[test]
fn unreadable_sessions_only_count_as_such() {
    let facts = vec![
        SessionFacts::Unreadable,
        SessionFacts::Commands(vec![vec![], vec![unsupported("x y", "x")]]),
        SessionFacts::Unreadable,
    ];
    let t = tally(&facts).expect("totals fit");
    assert_eq!(t.parse_errors, 2);
    assert_eq!(t.total_commands, 1);
    let report = conclude(&facts, 90, None).expect("totals fit");
    assert_eq!(report.sessions_scanned, 3);
    assert_eq!(report.parse_errors, 2);
    assert_eq!(report.since_days, 90);
}

#[test]
fn report_ranks_by_savings_and_keeps_ties_in_order() {
    let t = tallied(vec![
        missed("a", "rtk a", 10, 5),
        missed("b", "rtk b", 10, 9),
        missed("c", "rtk c", 10, 5),
        unsupported("x", "x"),
        unsupported("y", "y"),
        unsupported("y", "y"),
        unsupported("z", "z"),
    ]);
    let r = build_report(t, 4, 30, Some("2024-01-02".to_string()));
    let supported: Vec<&str> = r.supported.iter().map(|e| e.rtk_equivalent).collect();
    assert_eq!(supported, vec!["rtk b", "rtk a", "rtk c"]);
    let unsupported: Vec<&str> = r.unsupported.iter().map(|e| e.base_command.as_str()).collect();
    assert_eq!(unsupported, vec!["y", "x", "z"]);
    assert_eq!(r.sessions_scanned, 4);
    assert_eq!(r.since_days, 30);
    assert_eq!(r.measured_since.as_deref(), Some("2024-01-02"));
}

#[test]
fn entry_shows_the_most_common_command_with_its_status() {
    let open = Coverage::Measured(false);
    let push = |status| part("git push", false, supported("rtk git", "Git", status, open, 4, 1));
    let t = tallied(vec![
        missed("git log", "rtk git", 4, 1),
        push(RtkStatus::Passthrough),
        push(RtkStatus::Passthrough),
        push(RtkStatus::NotSupported),
    ]);
    let r = build_report(t, 1, 1, None);
    assert_eq!(r.supported[0].command, "git push");
    assert_eq!(r.supported[0].rtk_status, RtkStatus::Passthrough);
    assert_eq!(r.supported[0].count, 4);
}

#[test]
fn bucket_without_commands_is_shown_as_nothing() {
    let entry = supported_entry(&SupportedBucket {
        rtk_equivalent: "rtk a",
        category: "C",
        count: 0,
        total_output_tokens: 0,
        total_raw_output_tokens: 0,
        command_counts: vec![],
    });
    assert_eq!(entry.command, "");
    assert_eq!(entry.rtk_status, RtkStatus::Existing);
}

#[test]
fn examples_are_the_most_common_bypasses() {
    let mut parts = vec![];
    for (text, n) in [("e", 1), ("d x y", 2), ("c", 12), ("b", 2), ("a", 1), ("f", 1)] {
        for _ in 0..n {
            parts.push(bypass(text));
        }
    }
    let r = build_report(tallied(parts), 1, 1, None);
    assert_eq!(r.rtk_disabled_count, 19);
    assert_eq!(r.rtk_disabled_examples.len(), MAX_EXAMPLES);
    assert_eq!(
        r.rtk_disabled_examples,
        vec!["c (12x)", "b (2x)", "d x (2x)", "a (1x)", "e (1x)"]
    );
}

#[test]
fn days_are_those_of_the_calendar() {
    assert_eq!(measured_since_day(None), None);
    assert_eq!(measured_since_day(Some(0)).as_deref(), Some("1970-01-01"));
    assert_eq!(measured_since_day(Some(-1)).as_deref(), Some("1969-12-31"));
    assert_eq!(measured_since_day(Some(951_782_400)).as_deref(), Some("2000-02-29"));
    assert_eq!(measured_since_day(Some(8210266876799)).as_deref(), Some("+262142-12-31"));
    assert_eq!(measured_since_day(Some(8210266876800)), None);
    assert_eq!(measured_since_day(Some(-8334601228800)).as_deref(), Some("-262143-01-01"));
    assert_eq!(measured_since_day(Some(-8334601228801)), None);
    assert_eq!(measured_since_day(Some(i64::MIN)), None);
}

#[test]
fn cutoff_lies_so_many_days_back() {
    assert_eq!(cutoff(1_700_000_000, 0), Some(1_700_000_000));
    assert_eq!(cutoff(1_700_000_000, 30), Some(1_700_000_000 - 30 * 86_400));
    assert_eq!(cutoff(0, u64::MAX), Some(86_400));
    assert_eq!(cutoff(0, i64::MAX as u64), None);
    assert_eq!(cutoff(0, 96_465_292), Some(-8334601228800));
    assert_eq!(cutoff(0, 96_465_293), None);
    assert_eq!(cutoff(8210266876800, 1), None);
    assert_eq!(cutoff(8210266876799, u64::MAX), None);
}

#[test]
fn scope_and_format() {
    assert!(matches!(project_scope(Some("p"), true), ProjectScope::All));
    assert!(matches!(project_scope(None, true), ProjectScope::All));
    assert!(matches!(project_scope(Some("p"), false), ProjectScope::Named(n) if n == "p"));
    assert!(matches!(project_scope(None, false), ProjectScope::CurrentDirectory));
    assert_eq!(output_format("json"), OutputFormat::Json);
    assert_eq!(output_format("text"), OutputFormat::Text);
    assert_eq!(output_format("JSON"), OutputFormat::Text);
    assert_eq!(output_format(""), OutputFormat::Text);
}
