use rtk_discover::command::is_already_rtk;
use rtk_discover::coverage::{
    estimate_hook_coverage, estimate_hook_coverage_with_verdict, hook_coverage, Coverage,
    HookDecisionRecord, HookLog, HookOutcome,
};
use rtk_discover::rules::{Classification, CommandRules, PermissionVerdict, RtkStatus, SavingsPct};
use rtk_discover::scan::discover;
use rtk_discover::survey::{
    observe_command, observe_part, ExtractedCommand, Finding, ScanSettings, SessionLog,
};

/// Rules over a handful of commands.
struct FewCommands {
    verdict: PermissionVerdict,
}

const RULES: FewCommands = FewCommands {
    verdict: PermissionVerdict::Default,
};

fn first_word(command: &str) -> &str {
    command.split_whitespace().next().unwrap_or("")
}

impl CommandRules for FewCommands {
    fn split_command_chain<'a>(&self, command: &'a str) -> Vec<&'a str> {
        command.split("&&").map(|part| part.trim()).collect()
    }

    fn strip_disabled_prefix<'a>(&self, command: &'a str) -> (&'a str, &'a str) {
        match command.strip_prefix("RTK_DISABLED=1 ") {
            Some(actual) => ("RTK_DISABLED=1 ", actual),
            None => ("", command),
        }
    }

    fn prefix_contains_rtk_disabled(&self, env_prefix: &str) -> bool {
        env_prefix.contains("RTK_DISABLED=")
    }

    fn classify_command(&self, command: &str) -> Classification {
        match first_word(command) {
            "grep" => Classification::Supported {
                rtk_equivalent: "rtk grep",
                category: "Files",
                estimated_savings_pct: SavingsPct { bits: 50.0f64.to_bits() },
                status: RtkStatus::Existing,
            },
            "git" => Classification::Supported {
                rtk_equivalent: "rtk git",
                category: "Git",
                estimated_savings_pct: SavingsPct { bits: 25.5f64.to_bits() },
                status: if command.starts_with("git push") {
                    RtkStatus::Passthrough
                } else {
                    RtkStatus::Existing
                },
            },
            "rtk" | "cd" => Classification::Ignored,
            other => Classification::Unsupported { base_command: other.to_string() },
        }
    }

    fn category_avg_tokens(&self, category: &str, subcmd: &str) -> usize {
        match (category, subcmd) {
            ("Git", "status") => 200,
            ("Git", "push") => 40,
            _ => 150,
        }
    }

    fn savings_tokens(&self, output_tokens: usize, pct: SavingsPct) -> usize {
        (output_tokens as f64 * f64::from_bits(pct.bits) / 100.0) as usize
    }

    fn contains_unattestable_construct(&self, command: &str) -> bool {
        command.contains("$(") || command.contains('`')
    }

    fn rewrite_command(
        &self,
        command: &str,
        excluded: &[String],
        _transparent_prefixes: &[String],
    ) -> Option<String> {
        let base = first_word(command);
        if excluded.iter().any(|e| e == base) {
            return None;
        }
        match base {
            "grep" | "git" | "ls" => Some(format!("rtk {}", command)),
            _ => None,
        }
    }

    fn check_command(&self, _command: &str) -> PermissionVerdict {
        self.verdict
    }
}

fn record(decision: HookOutcome) -> HookDecisionRecord {
    HookDecisionRecord { decision }
}

#[test]
fn test_estimate_hook_coverage_false_when_hook_not_installed() {
    assert!(!estimate_hook_coverage_with_verdict(
        &RULES,
        "grep -n foo bar.py",
        PermissionVerdict::Default,
        false,
        &[],
        &[]
    ));
}

#[test]
fn test_estimate_hook_coverage_true_for_rewritable_command() {
    assert!(estimate_hook_coverage_with_verdict(
        &RULES,
        "grep -n foo bar.py",
        PermissionVerdict::Default,
        true,
        &[],
        &[]
    ));
    assert!(estimate_hook_coverage_with_verdict(
        &RULES,
        "ls -la",
        PermissionVerdict::Allow,
        true,
        &[],
        &[]
    ));
}

#[test]
fn test_estimate_hook_coverage_false_for_unattestable_construct() {
    assert!(!estimate_hook_coverage_with_verdict(
        &RULES,
        "git status $(rm -rf /tmp/x)",
        PermissionVerdict::Default,
        true,
        &[],
        &[]
    ));
}

#[test]
fn test_estimate_hook_coverage_false_when_excluded_by_config() {
    let excluded = vec!["grep".to_string()];
    assert!(!estimate_hook_coverage_with_verdict(
        &RULES,
        "grep -n foo bar.py",
        PermissionVerdict::Default,
        true,
        &excluded,
        &[]
    ));
}

#[test]
fn test_estimate_hook_coverage_false_when_denied() {
    assert!(!estimate_hook_coverage_with_verdict(
        &RULES,
        "rm -rf /",
        PermissionVerdict::Deny,
        true,
        &[],
        &[]
    ));
}

#[test]
fn denied_command_is_no_coverage_though_rules_rewrite_it() {
    assert!(!estimate_hook_coverage_with_verdict(
        &RULES,
        "grep -n foo bar.py",
        PermissionVerdict::Deny,
        true,
        &[],
        &[]
    ));
}

#[test]
fn estimate_follows_the_verdict_of_the_rules() {
    let denying = FewCommands { verdict: PermissionVerdict::Deny };
    let asking = FewCommands { verdict: PermissionVerdict::Ask };
    assert!(!estimate_hook_coverage(&denying, "ls -la", true, &[], &[]));
    assert!(estimate_hook_coverage(&asking, "ls -la", true, &[], &[]));
    assert!(estimate_hook_coverage(&RULES, "ls -la", true, &[], &[]));
}

#[test]
fn test_is_already_rtk_plain_rewrite() {
    assert!(is_already_rtk("rtk grep -n foo bar.py"));
}

#[test]
fn test_is_already_rtk_excludes_proxy_escape_hatch() {
    assert!(!is_already_rtk("rtk proxy grep -n foo bar.py"));
}

#[test]
fn test_is_already_rtk_false_for_unrelated_command() {
    assert!(!is_already_rtk("grep -n foo bar.py"));
}

#[test]
fn test_hook_coverage_prefers_measured_log_over_estimate() {
    let mut log = HookLog::new();
    log.insert("toolu_1".to_string(), record(HookOutcome::Allow));

    let coverage = hook_coverage(&RULES, "git status", "toolu_1", &log, false, &[], &[]);
    assert!(matches!(coverage, Coverage::Measured(true)));
    assert!(coverage.is_covered());
    assert!(!coverage.is_estimated());
}

#[test]
fn test_hook_coverage_measured_deny_is_a_genuine_miss() {
    let mut log = HookLog::new();
    log.insert("toolu_1".to_string(), record(HookOutcome::Deny));

    let coverage = hook_coverage(&RULES, "rm -rf /", "toolu_1", &log, true, &[], &[]);
    assert!(matches!(coverage, Coverage::Measured(false)));
    assert!(!coverage.is_covered());
}

#[test]
fn test_hook_coverage_falls_back_to_estimate_when_no_log_row() {
    let log = HookLog::new();

    let coverage = hook_coverage(&RULES, "ls -la", "toolu_missing", &log, true, &[], &[]);
    assert!(coverage.is_estimated());
}

fn settings(hook_installed: bool) -> ScanSettings {
    ScanSettings { hook_installed, excluded: vec![], transparent_prefixes: vec![] }
}

fn line(command: &str, tool_use_id: &str, output_len: Option<usize>) -> ExtractedCommand {
    ExtractedCommand {
        command: command.to_string(),
        tool_use_id: tool_use_id.to_string(),
        output_len,
    }
}

#[test]
fn log_row_decides_whatever_the_hook_and_the_rules_say() {
    let mut log = HookLog::new();
    log.insert("a".to_string(), record(HookOutcome::Allow));
    log.insert("d".to_string(), record(HookOutcome::Deny));
    let excluded = vec!["ls".to_string()];
    for installed in [true, false] {
        for cmd in ["ls -la", "rm -rf /", "git status $(x)"] {
            assert_eq!(
                hook_coverage(&RULES, cmd, "a", &log, installed, &excluded, &[]),
                Coverage::Measured(true)
            );
            assert_eq!(
                hook_coverage(&RULES, cmd, "d", &log, installed, &[], &[]),
                Coverage::Measured(false)
            );
        }
    }
}

#[test]
fn rows_of_other_tool_calls_change_nothing() {
    let empty = HookLog::new();
    let mut others = HookLog::new();
    others.insert("a".to_string(), record(HookOutcome::Allow));
    others.insert("b".to_string(), record(HookOutcome::Deny));
    for cmd in ["git status", "make all"] {
        for installed in [false, true] {
            let one = hook_coverage(&RULES, cmd, "t", &empty, installed, &[], &[]);
            let other = hook_coverage(&RULES, cmd, "t", &others, installed, &[], &[]);
            assert_eq!(one, other);
            assert_eq!(one, Coverage::Estimated(installed && cmd == "git status"));
        }
    }
}

#[test]
fn verdicts_other_than_deny_are_alike() {
    for cmd in ["git status", "git status $(date)", "make all"] {
        for verdict in [
            PermissionVerdict::Allow,
            PermissionVerdict::Ask,
            PermissionVerdict::Default,
        ] {
            let r = estimate_hook_coverage_with_verdict(&RULES, cmd, verdict, true, &[], &[]);
            assert_eq!(r, cmd == "git status");
        }
    }
}

#[test]
fn without_row_and_hook_nothing_is_covered() {
    let log = HookLog::new();
    for cmd in ["ls -la", "grep x", "rm -rf /"] {
        assert_eq!(
            hook_coverage(&RULES, cmd, "t", &log, false, &[], &[]),
            Coverage::Estimated(false)
        );
    }
    assert_eq!(
        hook_coverage(&RULES, "ls -la", "t", &log, true, &[], &[]),
        Coverage::Estimated(true)
    );
}

#[test]
fn later_row_of_a_tool_call_replaces_the_earlier_one() {
    let mut log = HookLog::new();
    log.insert("t".to_string(), record(HookOutcome::Deny));
    log.insert("t".to_string(), record(HookOutcome::Allow));
    assert_eq!(log.get("t"), Some(&record(HookOutcome::Allow)));
    assert_eq!(log.get("u"), None);
}

#[test]
fn missed_part_is_measured_by_its_output() {
    let log = HookLog::new();
    let facts = observe_part(&RULES, &settings(false), &log, "t", Some(403), "grep -n foo a.py");
    assert_eq!(facts.text, "grep -n foo a.py");
    assert!(!facts.disabled);
    match facts.finding {
        Finding::Supported { rtk_equivalent, category, status, coverage, raw_tokens, saved_tokens } => {
            assert_eq!(rtk_equivalent, "rtk grep");
            assert_eq!(category, "Files");
            assert_eq!(status, RtkStatus::Existing);
            assert_eq!(coverage, Coverage::Estimated(false));
            assert_eq!(raw_tokens, 100);
            assert_eq!(saved_tokens, 50);
        }
        _ => panic!("grep is supported"),
    }
}

#[test]
fn missed_part_without_output_takes_the_average_of_its_subcommand() {
    let log = HookLog::new();
    let facts = observe_part(&RULES, &settings(false), &log, "t", None, " git push origin");
    match facts.finding {
        Finding::Supported { raw_tokens, saved_tokens, .. } => {
            assert_eq!(raw_tokens, 40);
            assert_eq!(saved_tokens, 10);
        }
        _ => panic!("git is supported"),
    }
    let facts = observe_part(&RULES, &settings(false), &log, "t", None, "git  status");
    match facts.finding {
        Finding::Supported { raw_tokens, saved_tokens, .. } => {
            assert_eq!(raw_tokens, 200);
            assert_eq!(saved_tokens, 51);
        }
        _ => panic!("git is supported"),
    }
}

#[test]
fn disabled_part_is_read_without_its_prefix() {
    let log = HookLog::new();
    let facts =
        observe_part(&RULES, &settings(true), &log, "t", Some(400), "RTK_DISABLED=1 grep x y z");
    assert_eq!(facts.text, "grep x y z");
    assert!(facts.disabled);
    match facts.finding {
        Finding::Supported { coverage, raw_tokens, saved_tokens, .. } => {
            assert_eq!(coverage, Coverage::Estimated(true));
            assert_eq!(raw_tokens, 0);
            assert_eq!(saved_tokens, 0);
        }
        _ => panic!("grep is supported"),
    }
}

#[test]
fn chain_is_observed_part_by_part() {
    let log = HookLog::new();
    let facts =
        observe_command(&RULES, &settings(true), &log, &line("git status && make && cd x", "t", None));
    assert_eq!(facts.len(), 3);
    assert!(matches!(&facts[0].finding, Finding::Supported { rtk_equivalent: "rtk git", .. }));
    assert!(matches!(&facts[1].finding, Finding::Unsupported { base_command } if base_command == "make"));
    assert!(matches!(&facts[2].finding, Finding::Ignored));
}

#[test]
fn scan_reports_every_kind_of_command() {
    let mut log = HookLog::new();
    log.insert("seen".to_string(), record(HookOutcome::Allow));
    let sessions = vec![
        SessionLog::Unreadable,
        SessionLog::Commands(vec![
            line("grep -n foo a.py", "t1", Some(400)),
            line("git push origin && git status && git status", "t2", None),
            line("rtk ls && rtk proxy ls && cd x", "t3", None),
            line("docker ps", "t4", None),
        ]),
        SessionLog::Commands(vec![
            line("make all && make test", "t5", Some(9)),
            line("grep x y && RTK_DISABLED=1 grep y z && RTK_DISABLED=1 make it", "seen", None),
        ]),
    ];
    let report = discover(&RULES, &settings(false), &log, &sessions, 30, Some(1_700_000_000))
        .expect("totals fit");

    assert_eq!(report.sessions_scanned, 3);
    assert_eq!(report.parse_errors, 1);
    assert_eq!(report.since_days, 30);
    assert_eq!(report.measured_since.as_deref(), Some("2023-11-14"));
    assert_eq!(report.total_commands, 13);
    assert_eq!(report.already_rtk, 2);
    assert_eq!(report.already_rtk_estimated, 0);
    assert_eq!(report.rtk_disabled_count, 1);
    assert_eq!(report.rtk_disabled_estimated, 0);
    assert_eq!(report.rtk_disabled_examples, vec!["grep y (1x)".to_string()]);

    assert_eq!(report.supported.len(), 2);
    let git = &report.supported[0];
    assert_eq!(git.rtk_equivalent, "rtk git");
    assert_eq!(git.category, "Git");
    assert_eq!(git.command, "git status");
    assert_eq!(git.rtk_status, RtkStatus::Existing);
    assert_eq!(git.count, 3);
    assert_eq!(git.estimated_savings_tokens, 112);
    assert_eq!(git.raw_output_tokens, 440);
    let grep = &report.supported[1];
    assert_eq!(grep.rtk_equivalent, "rtk grep");
    assert_eq!(grep.command, "grep -n");
    assert_eq!(grep.count, 1);
    assert_eq!(grep.estimated_savings_tokens, 50);
    assert_eq!(grep.raw_output_tokens, 100);

    let names: Vec<(&str, usize, &str)> = report
        .unsupported
        .iter()
        .map(|e| (e.base_command.as_str(), e.count, e.example.as_str()))
        .collect();
    assert_eq!(names, vec![("make", 2, "make all"), ("docker", 1, "docker ps")]);

    // Passed over: `rtk proxy ls`, `cd x` and the disabled `make it`.
    let missed: usize = report.supported.iter().map(|e| e.count).sum();
    let unsupported: usize = report.unsupported.iter().map(|e| e.count).sum();
    assert_eq!(
        report.already_rtk + report.rtk_disabled_count + missed + unsupported + 3,
        report.total_commands
    );
}

#[test]
fn scan_with_hook_counts_guesses_as_guesses() {
    let log = HookLog::new();
    let sessions = vec![SessionLog::Commands(vec![line(
        "grep x y && git status $(date) && RTK_DISABLED=1 ls && RTK_DISABLED=1 git status",
        "t",
        None,
    )])];
    let report = discover(&RULES, &settings(true), &log, &sessions, 7, None).expect("totals fit");
    assert_eq!(report.total_commands, 4);
    assert_eq!(report.already_rtk, 1);
    assert_eq!(report.already_rtk_estimated, 1);
    assert_eq!(report.rtk_disabled_count, 1);
    assert_eq!(report.rtk_disabled_estimated, 1);
    assert_eq!(report.rtk_disabled_examples, vec!["git status (1x)".to_string()]);
    assert_eq!(report.supported.len(), 1);
    assert_eq!(report.supported[0].command, "git status");
    assert_eq!(report.unsupported.len(), 0);
    assert_eq!(report.measured_since, None);
}

#[test]
fn scan_of_nothing_reports_nothing() {
    let report =
        discover(&RULES, &settings(true), &HookLog::new(), &vec![], 1, None).expect("totals fit");
    assert_eq!(report.sessions_scanned, 0);
    assert_eq!(report.total_commands, 0);
    assert_eq!(report.supported.len(), 0);
    assert_eq!(report.rtk_disabled_examples.len(), 0);
}

#[test]
fn same_sessions_give_the_same_report() {
    let mut log = HookLog::new();
    log.insert("t1".to_string(), record(HookOutcome::Deny));
    let sessions = vec![
        SessionLog::Commands(vec![
            line("git  status -s && git status && git push x && make all", "t1", None),
            line("RTK_DISABLED=1 git log && RTK_DISABLED=1 grep x y", "t2", None),
        ]),
        SessionLog::Unreadable,
    ];
    let one = discover(&RULES, &settings(true), &log, &sessions, 7, Some(0)).expect("totals fit");
    let other = discover(&RULES, &settings(true), &log, &sessions, 7, Some(0)).expect("totals fit");
    assert_eq!(format!("{:?}", one), format!("{:?}", other));
    assert_eq!(one.supported[0].command, "git status");
    assert_eq!(one.supported[0].count, 3);
    assert_eq!(
        one.rtk_disabled_examples,
        vec!["git log (1x)".to_string(), "grep x (1x)".to_string()]
    );
    assert_eq!(one.measured_since.as_deref(), Some("1970-01-01"));
}
