//! The scan from the sessions to the report.

use vstd::prelude::*;

use crate::accounts::{
    how_many, is_bypass, is_covered, is_direct, is_passed_over, law_counters,
    law_every_command_in_one_place, law_totals_of_sessions,
};
use crate::calendar::{day_text, in_calendar, measured_since_day};
use crate::counting::{total, CommandCount};
use crate::coverage::{HookDecisionRecord, HookLog};
use crate::ranking::{is_ranking, law_ranking_is_unique, views};
use crate::report::{
    build_report, entries_of, entry_counts, examples_of, law_report_adds_up, reports, same_report,
    DiscoverReport, SupportedEntry, UnsupportedEntry,
};
use crate::rules::{answers_once, CommandRules};
use crate::survey::{
    law_same_sessions_same_facts, observe_sessions, observes, session_views, PartView,
    ScanSettings, SessionFacts, SessionLog,
};
use crate::tally::{
    all_parts, fits, tallied, tally, unreadable, unsupported_counts, TallyOverflow,
};

verus! {

/// Whether `r` is what comes of the facts about all sessions: the report of their totals, and an
/// error where a total does not fit in a `usize`.
pub open spec fn concludes(
    facts: Seq<SessionFacts>,
    since_days: u64,
    earliest_decision: Option<i64>,
    r: Result<DiscoverReport, TallyOverflow>,
) -> bool {
    let totals = tallied(session_views(facts));
    match r {
        Ok(report) => {
            &&& fits(totals)
            &&& reports(totals, report)
            &&& report.sessions_scanned == facts.len()
            &&& report.since_days == since_days
            &&& match report.measured_since {
                Some(day) => earliest_decision is Some && in_calendar(earliest_decision->0 as int)
                    && day@ == day_text(earliest_decision->0 as int),
                None => earliest_decision matches Some(secs) ==> !in_calendar(secs as int),
            }
        },
        Err(_) => !fits(totals),
    }
}

/// The report of what was found out about all sessions.
pub fn conclude(
    facts: &Vec<SessionFacts>,
    since_days: u64,
    earliest_decision: Option<i64>,
) -> (r: Result<DiscoverReport, TallyOverflow>)
    ensures
        concludes(facts@, since_days, earliest_decision, r),
{
    match tally(facts) {
        Ok(totals) => Ok(
            build_report(totals, facts.len(), since_days, measured_since_day(earliest_decision)),
        ),
        Err(e) => Err(e),
    }
}

/// Whether `r` is what comes of a scan: of facts that `rules` and the log give about the sessions.
pub open spec fn scans<R: CommandRules>(
    rules: &R,
    settings: &ScanSettings,
    hook_log: Map<Seq<char>, HookDecisionRecord>,
    sessions: Seq<SessionLog>,
    since_days: u64,
    earliest_decision: Option<i64>,
    r: Result<DiscoverReport, TallyOverflow>,
) -> bool {
    exists|facts: Seq<SessionFacts>| #[trigger]
        observes(rules, settings, hook_log, sessions, facts) && concludes(
            facts,
            since_days,
            earliest_decision,
            r,
        )
}

/// Scans the sessions: asks `rules` about every command in them, looks up what the hook did with
/// it, and reports which commands could have been filtered.
pub fn discover<R: CommandRules>(
    rules: &R,
    settings: &ScanSettings,
    hook_log: &HookLog,
    sessions: &Vec<SessionLog>,
    since_days: u64,
    earliest_decision: Option<i64>,
) -> (r: Result<DiscoverReport, TallyOverflow>)
    ensures
        scans(rules, settings, hook_log@, sessions@, since_days, earliest_decision, r),
        exists|facts: Seq<SessionFacts>| #[trigger]
            observes(rules, settings, hook_log@, sessions@, facts) && concludes(
                facts,
                since_days,
                earliest_decision,
                r,
            ),
{
    let facts = observe_sessions(rules, settings, hook_log, sessions);
    conclude(&facts, since_days, earliest_decision)
}

/// A report tells of every command of every session: it says how many there are, how many were
/// covered or ran the filter themselves, how many were bypasses, and how many of either rest on a
/// guess. Together with the missed and the unsupported commands and those passed over, they are all
/// commands.
pub proof fn law_report_counts_every_command(
    facts: Seq<SessionFacts>,
    since_days: u64,
    earliest_decision: Option<i64>,
    report: DiscoverReport,
)
    requires
        concludes(facts, since_days, earliest_decision, Ok(report)),
    ensures
        ({
            let parts = all_parts(session_views(facts));
            &&& report.total_commands == parts.len()
            &&& report.already_rtk == how_many(parts, |f: PartView| is_covered(f)) + how_many(
                parts,
                |f: PartView| is_direct(f),
            )
            &&& report.already_rtk_estimated == how_many(
                parts,
                |f: PartView| is_covered(f) && f.finding->coverage is Estimated,
            )
            &&& report.rtk_disabled_count == how_many(parts, |f: PartView| is_bypass(f))
            &&& report.rtk_disabled_estimated == how_many(
                parts,
                |f: PartView| is_bypass(f) && f.finding->coverage is Estimated,
            )
            &&& report.parse_errors == unreadable(session_views(facts))
            &&& report.already_rtk + report.rtk_disabled_count + total(
                entry_counts(views(report.supported@)),
            ) + total(unsupported_counts(views(report.unsupported@))) + how_many(
                parts,
                |f: PartView| is_passed_over(f),
            ) == report.total_commands
        }),
{
    let sessions = session_views(facts);
    law_totals_of_sessions(sessions);
    law_counters(all_parts(sessions));
    law_every_command_in_one_place(all_parts(sessions));
    law_report_adds_up(tallied(sessions), report);
}

/// The same facts give the same report, or an error both times: the report holds nothing that they,
/// the number of days and the earliest decision do not decide.
pub proof fn law_same_facts_same_report(
    facts: Seq<SessionFacts>,
    other_facts: Seq<SessionFacts>,
    since_days: u64,
    earliest_decision: Option<i64>,
    r: Result<DiscoverReport, TallyOverflow>,
    other_r: Result<DiscoverReport, TallyOverflow>,
)
    requires
        session_views(facts) == session_views(other_facts),
        concludes(facts, since_days, earliest_decision, r),
        concludes(other_facts, since_days, earliest_decision, other_r),
    ensures
        r is Ok <==> other_r is Ok,
        r is Ok ==> same_report(r->Ok_0, other_r->Ok_0),
{
    let totals = tallied(session_views(facts));
    assert(session_views(facts).len() == session_views(other_facts).len());
    if r is Ok {
        let a = r->Ok_0;
        let b = other_r->Ok_0;
        law_ranking_is_unique::<SupportedEntry>(
            entries_of(totals.supported),
            views(a.supported@),
            views(b.supported@),
        );
        law_ranking_is_unique::<UnsupportedEntry>(
            totals.unsupported,
            views(a.unsupported@),
            views(b.unsupported@),
        );
        let commands = totals.rtk_disabled_cmds;
        let p = choose|p: Seq<(Seq<char>, int)>| #[trigger]
            is_ranking::<CommandCount>(commands, p) && views(a.rtk_disabled_examples@)
                == examples_of(p);
        let q = choose|q: Seq<(Seq<char>, int)>| #[trigger]
            is_ranking::<CommandCount>(commands, q) && views(b.rtk_disabled_examples@)
                == examples_of(q);
        law_ranking_is_unique::<CommandCount>(commands, p, q);
    }
}

/// Where the rules answer each question in one way, two scans of the same sessions under the same
/// settings and log give the same report, or an error both times.
pub proof fn law_same_sessions_same_report<R: CommandRules>(
    rules: &R,
    settings: &ScanSettings,
    hook_log: Map<Seq<char>, HookDecisionRecord>,
    sessions: Seq<SessionLog>,
    since_days: u64,
    earliest_decision: Option<i64>,
    r: Result<DiscoverReport, TallyOverflow>,
    other_r: Result<DiscoverReport, TallyOverflow>,
)
    requires
        answers_once(rules),
        scans(rules, settings, hook_log, sessions, since_days, earliest_decision, r),
        scans(rules, settings, hook_log, sessions, since_days, earliest_decision, other_r),
    ensures
        r is Ok <==> other_r is Ok,
        r is Ok ==> same_report(r->Ok_0, other_r->Ok_0),
{
    let a = choose|facts: Seq<SessionFacts>| #[trigger]
        observes(rules, settings, hook_log, sessions, facts) && concludes(
            facts,
            since_days,
            earliest_decision,
            r,
        );
    let b = choose|facts: Seq<SessionFacts>| #[trigger]
        observes(rules, settings, hook_log, sessions, facts) && concludes(
            facts,
            since_days,
            earliest_decision,
            other_r,
        );
    law_same_sessions_same_facts(rules, settings, hook_log, sessions, a, b);
    law_same_facts_same_report(a, b, since_days, earliest_decision, r, other_r);
}

} // verus!
