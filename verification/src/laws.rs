//! What a report says of the commands that were scanned, in terms of those commands and of the
//! numbers and lists in the report alone.

use vstd::prelude::*;

use crate::accounts::{
    amount, bypassed_as, first_where, how_many, is_bypass, is_covered, is_direct, is_missed, key_of,
    law_bypassed_commands, law_counters, law_missed_commands, law_shown_command_was_missed,
    law_totals_consistent, law_totals_of_sessions, law_unsupported_commands, lemma_first_where,
    missed_as, missed_by, totals, unsupported_as,
};
use crate::calendar::{in_calendar, utc_text};
use crate::command::{already_rtk, law_status_key_injective, subcmd, truncated};
use crate::counting::{count_keys, count_of, lemma_place, place, CommandCount};
use crate::coverage::{Coverage, HookDecisionRecord, HookOutcome};
use crate::ranking::{is_ranking, lemma_arrangement_is_onto, ranked_by, views};
use crate::report::{
    entries_of, entry_of, example_text, examples_of, law_examples_by_frequency,
    law_report_descends, most_common, shown_command, DiscoverReport, SupportedEntry,
    UnsupportedEntry,
};
use crate::rules::{follows, CommandRules, PermissionVerdict, RulesModel};
use crate::scan::{concludes, scans};
use crate::survey::{
    chain_views, law_every_command_is_observed, law_observed_command, law_observed_coverage,
    law_observed_tokens, observes, session_views, ExtractedCommand, PartFacts, PartView,
    ScanSettings, SessionFacts, SessionLog,
};
use crate::tally::{
    all_parts, buckets_fit, joined, session_parts, supported_keys, tallied, unreadable,
    unsupported_keys, TallyOverflow,
};
use crate::text::{decimal, text_less};

verus! {

/// The commands of a session, line by line and each line in its order.
pub open spec fn session_commands(s: SessionFacts) -> Seq<PartFacts> {
    match s {
        SessionFacts::Unreadable => Seq::empty(),
        SessionFacts::Commands(chains) => chains@.map_values(|c: Vec<PartFacts>| c@).flatten(),
    }
}

/// The commands of all sessions, one session after the other.
pub open spec fn commands_of(facts: Seq<SessionFacts>) -> Seq<PartFacts> {
    facts.map_values(|s: SessionFacts| session_commands(s)).flatten()
}

/// What commands hold.
spec fn held(cs: Seq<PartFacts>) -> Seq<PartView> {
    cs.map_values(|f: PartFacts| f@)
}

proof fn lemma_flatten_last<A>(s: Seq<Seq<A>>)
    requires
        s.len() > 0,
    ensures
        s.flatten() == s.drop_last().flatten() + s.last(),
{
    assert(s =~= s.drop_last().push(s.last()));
    s.drop_last().lemma_flatten_push(s.last());
}

proof fn lemma_lines(chains: Seq<Vec<PartFacts>>)
    ensures
        joined(chain_views(chains)) == held(
            chains.map_values(|c: Vec<PartFacts>| c@).flatten(),
        ),
    decreases chains.len(),
{
    let lines = chains.map_values(|c: Vec<PartFacts>| c@);
    if chains.len() > 0 {
        let head = chains.drop_last();
        lemma_lines(head);
        lemma_flatten_last(lines);
        assert(lines.drop_last() =~= head.map_values(|c: Vec<PartFacts>| c@));
        assert(chain_views(chains).drop_last() =~= chain_views(head));
        assert(joined(chain_views(chains)) =~= held(lines.flatten()));
    } else {
        assert(lines.flatten() =~= Seq::<PartFacts>::empty());
        assert(joined(chain_views(chains)) =~= held(lines.flatten()));
    }
}

proof fn lemma_commands(facts: Seq<SessionFacts>)
    ensures
        all_parts(session_views(facts)) == held(commands_of(facts)),
    decreases facts.len(),
{
    let each = facts.map_values(|s: SessionFacts| session_commands(s));
    if facts.len() > 0 {
        let head = facts.drop_last();
        lemma_commands(head);
        lemma_flatten_last(each);
        assert(each.drop_last() =~= head.map_values(|s: SessionFacts| session_commands(s)));
        assert(session_views(facts).drop_last() =~= session_views(head));
        let last = facts.last();
        assert(session_parts(last@) =~= held(session_commands(last))) by {
            if let SessionFacts::Commands(chains) = last {
                lemma_lines(chains@);
            }
        }
        assert(all_parts(session_views(facts)) =~= held(commands_of(facts)));
    } else {
        assert(each.flatten() =~= Seq::<PartFacts>::empty());
        assert(all_parts(session_views(facts)) =~= held(commands_of(facts)));
    }
}

proof fn lemma_flatten_at<A>(s: Seq<Seq<A>>, i: int, k: int)
    requires
        0 <= i < s.len(),
        0 <= k < s[i].len(),
    ensures
        0 <= s.take(i).flatten().len() + k < s.flatten().len(),
        s.flatten()[s.take(i).flatten().len() + k] == s[i][k],
    decreases s.len(),
{
    lemma_flatten_last(s);
    if i == s.len() - 1 {
        assert(s.take(i) =~= s.drop_last());
    } else {
        assert(s.drop_last().take(i) =~= s.take(i));
        lemma_flatten_at(s.drop_last(), i, k);
    }
}

/// The number of all commands is the sum of the numbers of commands of all command lines of all
/// sessions that could be read.
pub proof fn law_number_of_commands(facts: Seq<SessionFacts>)
    ensures
        commands_of(facts).len() == facts.fold_left(
            0int,
            |n: int, s: SessionFacts|
                n + match s {
                    SessionFacts::Unreadable => 0,
                    SessionFacts::Commands(chains) => chains@.fold_left(
                        0int,
                        |l: int, c: Vec<PartFacts>| l + c@.len(),
                    ),
                },
        ),
    decreases facts.len(),
{
    let each = facts.map_values(|s: SessionFacts| session_commands(s));
    if facts.len() > 0 {
        let head = facts.drop_last();
        law_number_of_commands(head);
        lemma_flatten_last(each);
        assert(each.drop_last() =~= head.map_values(|s: SessionFacts| session_commands(s)));
        if let SessionFacts::Commands(chains) = facts.last() {
            lemma_lines_len(chains@);
        }
    }
}

proof fn lemma_lines_len(chains: Seq<Vec<PartFacts>>)
    ensures
        chains.map_values(|c: Vec<PartFacts>| c@).flatten().len() == chains.fold_left(
            0int,
            |l: int, c: Vec<PartFacts>| l + c@.len(),
        ),
    decreases chains.len(),
{
    let lines = chains.map_values(|c: Vec<PartFacts>| c@);
    if chains.len() > 0 {
        lemma_flatten_last(lines);
        assert(lines.drop_last() =~= chains.drop_last().map_values(|c: Vec<PartFacts>| c@));
        lemma_lines_len(chains.drop_last());
    }
}

/// Every command has its place among all commands: the `k`-th command of the `j`-th line of the
/// `i`-th session stands behind the commands of the sessions before it, those of the lines before
/// it and those before it in the line.
pub proof fn law_place_of_command(facts: Seq<SessionFacts>, i: int, j: int, k: int)
    requires
        0 <= i < facts.len(),
        facts[i] is Commands,
        0 <= j < facts[i]->Commands_0@.len(),
        0 <= k < facts[i]->Commands_0@[j]@.len(),
    ensures
        ({
            let chains = facts[i]->Commands_0@;
            let before = commands_of(facts.take(i)).len() + chains.take(j).fold_left(
                0int,
                |l: int, c: Vec<PartFacts>| l + c@.len(),
            );
            &&& 0 <= before + k < commands_of(facts).len()
            &&& commands_of(facts)[before + k] == chains[j]@[k]
        }),
{
    let chains = facts[i]->Commands_0@;
    let lines = chains.map_values(|c: Vec<PartFacts>| c@);
    let each = facts.map_values(|s: SessionFacts| session_commands(s));
    lemma_lines_len(chains.take(j));
    assert(lines.take(j) =~= chains.take(j).map_values(|c: Vec<PartFacts>| c@));
    lemma_flatten_at(lines, j, k);
    let at = lines.take(j).flatten().len() + k;
    assert(each[i] == lines.flatten());
    assert(each.take(i) =~= facts.take(i).map_values(|s: SessionFacts| session_commands(s)));
    lemma_flatten_at(each, i, at);
}

proof fn lemma_chosen(
    cs: Seq<PartFacts>,
    p: spec_fn(PartView) -> bool,
    q: spec_fn(PartFacts) -> bool,
)
    requires
        forall|f: PartFacts| #[trigger] q(f) == p(f@),
    ensures
        how_many(held(cs), p) == cs.filter(q).len(),
    decreases cs.len(),
{
    reveal(Seq::filter);
    if cs.len() > 0 {
        let head = cs.drop_last();
        lemma_chosen(head, p, q);
        assert(held(cs).drop_last() =~= held(head));
        assert(held(cs).last() == cs.last()@);
        assert(q(cs.last()) == p(cs.last()@));
    }
}

proof fn lemma_amount_chosen(
    cs: Seq<PartFacts>,
    p: spec_fn(PartView) -> bool,
    v: spec_fn(PartView) -> int,
    q: spec_fn(PartFacts) -> bool,
    w: spec_fn(int, PartFacts) -> int,
)
    requires
        forall|f: PartFacts| #[trigger] q(f) == p(f@),
        forall|n: int, f: PartFacts| q(f) ==> #[trigger] w(n, f) == n + v(f@),
    ensures
        amount(held(cs), p, v) == cs.filter(q).fold_left(0int, w),
    decreases cs.len(),
{
    reveal(Seq::filter);
    if cs.len() > 0 {
        let head = cs.drop_last();
        lemma_amount_chosen(head, p, v, q, w);
        assert(held(cs).drop_last() =~= held(head));
        assert(held(cs).last() == cs.last()@);
        let last = cs.last();
        assert(q(last) == p(last@));
        if q(last) {
            let h = head.filter(q);
            assert(h.push(last).drop_last() =~= h);
            assert(w(h.fold_left(0int, w), last) == h.fold_left(0int, w) + v(last@));
        }
    }
}

proof fn lemma_first_chosen(
    cs: Seq<PartFacts>,
    p: spec_fn(PartView) -> bool,
    q: spec_fn(PartFacts) -> bool,
)
    requires
        forall|f: PartFacts| #[trigger] q(f) == p(f@),
        cs.filter(q).len() > 0,
    ensures
        0 <= first_where(held(cs), p) < cs.len(),
        cs.filter(q)[0] == cs[first_where(held(cs), p)],
    decreases cs.len(),
{
    reveal(Seq::filter);
    let head = cs.drop_last();
    let last = cs.last();
    lemma_chosen(head, p, q);
    lemma_first_where(held(head), p);
    assert(held(cs).drop_last() =~= held(head));
    assert(held(cs).last() == last@);
    assert(q(last) == p(last@));
    if head.filter(q).len() > 0 {
        lemma_first_chosen(head, p, q);
    }
}

proof fn lemma_chosen_twice(
    cs: Seq<PartFacts>,
    a: spec_fn(PartFacts) -> bool,
    b: spec_fn(PartFacts) -> bool,
    q: spec_fn(PartFacts) -> bool,
)
    requires
        forall|f: PartFacts| #[trigger] q(f) == (a(f) && b(f)),
    ensures
        cs.filter(a).filter(b) == cs.filter(q),
    decreases cs.len(),
{
    reveal(Seq::filter);
    if cs.len() > 0 {
        let head = cs.drop_last();
        lemma_chosen_twice(head, a, b, q);
        let last = cs.last();
        assert(q(last) == (a(last) && b(last)));
        if a(last) {
            let h = head.filter(a);
            assert(h.push(last).drop_last() =~= h);
        }
    }
}

/// The numbers of a report. Every command is counted. Those that were covered or ran the filter
/// themselves, those in front of which the filter was switched off although it would have covered
/// them, and those of either that rest on a guess are as many as there are. So are the sessions and
/// those of them that could not be read.
pub proof fn law_numbers_of_a_report(
    facts: Seq<SessionFacts>,
    since_days: u64,
    earliest_decision: Option<i64>,
    report: DiscoverReport,
)
    requires
        concludes(facts, since_days, earliest_decision, Ok(report)),
    ensures
        ({
            let cs = commands_of(facts);
            &&& report.total_commands == cs.len()
            &&& report.already_rtk == cs.filter(
                |f: PartFacts|
                    !f.disabled && f.finding is Supported && (f.finding->coverage
                        == Coverage::Measured(true) || f.finding->coverage == Coverage::Estimated(
                        true,
                    )),
            ).len() + cs.filter(
                |f: PartFacts| !f.disabled && f.finding is Ignored && already_rtk(f.text@),
            ).len()
            &&& report.already_rtk_estimated == cs.filter(
                |f: PartFacts|
                    !f.disabled && f.finding is Supported && f.finding->coverage
                        == Coverage::Estimated(true),
            ).len()
            &&& report.rtk_disabled_count == cs.filter(
                |f: PartFacts|
                    f.disabled && f.finding is Supported && (f.finding->coverage
                        == Coverage::Measured(true) || f.finding->coverage == Coverage::Estimated(
                        true,
                    )),
            ).len()
            &&& report.rtk_disabled_estimated == cs.filter(
                |f: PartFacts|
                    f.disabled && f.finding is Supported && f.finding->coverage
                        == Coverage::Estimated(true),
            ).len()
            &&& report.sessions_scanned == facts.len()
            &&& report.parse_errors == facts.filter(|s: SessionFacts| s is Unreadable).len()
            &&& report.since_days == since_days
        }),
{
    let cs = commands_of(facts);
    let fs = all_parts(session_views(facts));
    lemma_commands(facts);
    law_totals_of_sessions(session_views(facts));
    law_counters(fs);
    lemma_unreadable(facts);
    lemma_chosen(
        cs,
        |f: PartView| is_covered(f),
        |f: PartFacts|
            !f.disabled && f.finding is Supported && (f.finding->coverage == Coverage::Measured(
                true,
            ) || f.finding->coverage == Coverage::Estimated(true)),
    );
    lemma_chosen(
        cs,
        |f: PartView| is_direct(f),
        |f: PartFacts| !f.disabled && f.finding is Ignored && already_rtk(f.text@),
    );
    lemma_chosen(
        cs,
        |f: PartView| is_covered(f) && f.finding->coverage is Estimated,
        |f: PartFacts|
            !f.disabled && f.finding is Supported && f.finding->coverage == Coverage::Estimated(
                true,
            ),
    );
    lemma_chosen(
        cs,
        |f: PartView| is_bypass(f),
        |f: PartFacts|
            f.disabled && f.finding is Supported && (f.finding->coverage == Coverage::Measured(true)
                || f.finding->coverage == Coverage::Estimated(true)),
    );
    lemma_chosen(
        cs,
        |f: PartView| is_bypass(f) && f.finding->coverage is Estimated,
        |f: PartFacts|
            f.disabled && f.finding is Supported && f.finding->coverage == Coverage::Estimated(
                true,
            ),
    );
}

proof fn lemma_unreadable(facts: Seq<SessionFacts>)
    ensures
        unreadable(session_views(facts)) == facts.filter(|s: SessionFacts| s is Unreadable).len(),
    decreases facts.len(),
{
    reveal(Seq::filter);
    if facts.len() > 0 {
        lemma_unreadable(facts.drop_last());
        assert(session_views(facts).drop_last() =~= session_views(facts.drop_last()));
    }
}

/// A filter has an entry in the report exactly where a command that it would have covered was
/// missed, and then it has one. The entry counts those commands and adds up what they printed and
/// what the filter would have saved of it, whatever their statuses are. It has the category of the
/// first of them, and shows one of them, under its status, that is as common as any.
pub proof fn law_entry_of_a_filter(
    facts: Seq<SessionFacts>,
    since_days: u64,
    earliest_decision: Option<i64>,
    report: DiscoverReport,
    filter: Seq<char>,
)
    requires
        concludes(facts, since_days, earliest_decision, Ok(report)),
    ensures
        ({
            let missed = commands_of(facts).filter(
                |f: PartFacts|
                    !f.disabled && f.finding is Supported && (f.finding->coverage
                        == Coverage::Measured(false) || f.finding->coverage == Coverage::Estimated(
                        false,
                    )) && f.finding->rtk_equivalent@ == filter,
            );
            &&& missed.len() == 0 ==> forall|i: int|
                0 <= i < report.supported@.len() ==> (
                #[trigger] report.supported@[i]).rtk_equivalent@ != filter
            &&& missed.len() > 0 ==> exists|i: int|
                #![trigger report.supported@[i]]
                {
                    let entry = report.supported@[i];
                    &&& 0 <= i < report.supported@.len()
                    &&& entry.rtk_equivalent@ == filter
                    &&& forall|j: int|
                        0 <= j < report.supported@.len() && (
                        #[trigger] report.supported@[j]).rtk_equivalent@ == filter ==> j == i
                    &&& entry.count == missed.len()
                    &&& entry.estimated_savings_tokens == missed.fold_left(
                        0int,
                        |n: int, f: PartFacts| n + f.finding->saved_tokens,
                    )
                    &&& entry.raw_output_tokens == missed.fold_left(
                        0int,
                        |n: int, f: PartFacts| n + f.finding->raw_tokens,
                    )
                    &&& entry.category@ == missed[0].finding->category@
                    &&& exists|k: int|
                        0 <= k < missed.len() && entry.command@ == truncated(
                            (#[trigger] missed[k]).text@,
                        ) && entry.rtk_status == missed[k].finding->status
                    &&& forall|k: int|
                        0 <= k < missed.len() ==> missed.filter(
                            |f: PartFacts|
                                truncated(f.text@) == truncated((#[trigger] missed[k]).text@)
                                    && f.finding->status == missed[k].finding->status,
                        ).len() <= missed.filter(
                            |f: PartFacts|
                                truncated(f.text@) == entry.command@ && f.finding->status
                                    == entry.rtk_status,
                        ).len()
                }
        }),
{
    let q = |f: PartFacts|
        !f.disabled && f.finding is Supported && (f.finding->coverage == Coverage::Measured(false)
            || f.finding->coverage == Coverage::Estimated(false))
            && f.finding->rtk_equivalent@ == filter;
    let p = missed_by(filter);
    let cs = commands_of(facts);
    let missed = cs.filter(q);
    let fs = all_parts(session_views(facts));
    let s = totals(fs).supported;
    lemma_commands(facts);
    law_totals_of_sessions(session_views(facts));
    law_totals_consistent(fs);
    law_missed_commands(fs, filter);
    assert forall|f: PartFacts| #[trigger] q(f) == p(f@) by {
    }
    lemma_chosen(cs, p, q);
    let at = place(supported_keys(s), filter);
    lemma_place(supported_keys(s), filter);
    let out = views(report.supported@);
    let order = choose|order: Seq<int>| ranked_by::<SupportedEntry>(entries_of(s), out, order);
    lemma_arrangement_is_onto(order, s.len());
    assert forall|i: int| 0 <= i < report.supported@.len() implies (
    #[trigger] report.supported@[i])@ == entry_of(s[order[i]]) by {
        assert(out[i] == report.supported@[i]@);
        assert(out[i] == entries_of(s)[order[i]]);
    }
    if missed.len() == 0 {
        assert forall|i: int| 0 <= i < report.supported@.len() implies (
        #[trigger] report.supported@[i]).rtk_equivalent@ != filter by {
            assert(report.supported@[i]@.rtk_equivalent == s[order[i]].rtk_equivalent);
            assert(supported_keys(s)[order[i]] == s[order[i]].rtk_equivalent);
        }
    } else {
        assert(order.contains(at));
        let i = choose|i: int| 0 <= i < order.len() && #[trigger] order[i] == at;
        let entry = report.supported@[i];
        let b = s[at];
        assert(entry@ == entry_of(b));
        assert forall|j: int|
            0 <= j < report.supported@.len() && (
            #[trigger] report.supported@[j]).rtk_equivalent@ == filter implies j == i by {
            assert(report.supported@[j]@.rtk_equivalent == s[order[j]].rtk_equivalent);
            assert(supported_keys(s)[order[j]] == supported_keys(s)[at]);
        }
        lemma_amount_chosen(
            cs,
            p,
            |f: PartView| f.finding->saved_tokens as int,
            q,
            |n: int, f: PartFacts| n + f.finding->saved_tokens,
        );
        lemma_amount_chosen(
            cs,
            p,
            |f: PartView| f.finding->raw_tokens as int,
            q,
            |n: int, f: PartFacts| n + f.finding->raw_tokens,
        );
        lemma_first_chosen(cs, p, q);
        broadcast use vstd::seq_lib::group_filter_ensures;

        assert(q(missed[0]));
        law_shown_command_was_missed(fs, at);
        let shown = choose|j: int|
            0 <= j < fs.len() && is_missed(#[trigger] fs[j])
                && fs[j].finding->rtk_equivalent == b.rtk_equivalent
                && shown_command(b.command_counts) == (
                truncated(fs[j].text),
                fs[j].finding->status,
            ) && how_many(fs, missed_as(b.rtk_equivalent, key_of(fs[j])))
                == b.command_counts[most_common(b.command_counts)].1;
        assert(fs[shown] == cs[shown]@);
        assert(q(cs[shown]));
        assert(missed.contains(cs[shown]));
        let k = choose|k: int| 0 <= k < missed.len() && missed[k] == cs[shown];
        assert(entry.command@ == truncated(missed[k].text@));
        assert(entry.rtk_status == missed[k].finding->status);
        let top = |f: PartFacts|
            truncated(f.text@) == entry.command@ && f.finding->status == entry.rtk_status;
        lemma_same_shown(cs, filter, q, missed[k], top);
        assert forall|l: int| 0 <= l < missed.len() implies missed.filter(
            |f: PartFacts|
                truncated(f.text@) == truncated((#[trigger] missed[l]).text@) && f.finding->status
                    == missed[l].finding->status,
        ).len() <= missed.filter(top).len() by {
            let same = |f: PartFacts|
                truncated(f.text@) == truncated(missed[l].text@) && f.finding->status
                    == missed[l].finding->status;
            assert(q(missed[l]));
            lemma_same_shown(cs, filter, q, missed[l], same);
            let key = key_of(missed[l]@);
            assert(count_of(b.command_counts, key) == how_many(fs, missed_as(filter, key)));
        }
    }
}

proof fn lemma_same_shown(
    cs: Seq<PartFacts>,
    filter: Seq<char>,
    q: spec_fn(PartFacts) -> bool,
    g: PartFacts,
    same: spec_fn(PartFacts) -> bool,
)
    requires
        forall|f: PartFacts| #[trigger] q(f) == missed_by(filter)(f@),
        q(g),
        forall|f: PartFacts| #[trigger]
            same(f) == (truncated(f.text@) == truncated(g.text@) && f.finding->status
                == g.finding->status),
    ensures
        cs.filter(q).filter(same).len() == how_many(held(cs), missed_as(filter, key_of(g@))),
{
    let both = |f: PartFacts| q(f) && same(f);
    let p = missed_as(filter, key_of(g@));
    assert forall|f: PartFacts| #[trigger] both(f) == p(f@) by {
        assert(q(f) == missed_by(filter)(f@));
        if q(f) && key_of(f@) == key_of(g@) {
            law_status_key_injective(
                truncated(f.text@),
                f.finding->status,
                truncated(g.text@),
                g.finding->status,
            );
        }
    }
    lemma_chosen_twice(cs, q, same, both);
    lemma_chosen(cs, p, both);
}

/// A name has an entry among the unsupported commands exactly where a command of that name was seen
/// that no filter exists for, and then it has one. The entry counts those commands and shows the
/// first of them.
pub proof fn law_entry_of_a_name(
    facts: Seq<SessionFacts>,
    since_days: u64,
    earliest_decision: Option<i64>,
    report: DiscoverReport,
    name: Seq<char>,
)
    requires
        concludes(facts, since_days, earliest_decision, Ok(report)),
    ensures
        ({
            let seen = commands_of(facts).filter(
                |f: PartFacts|
                    !f.disabled && f.finding is Unsupported && f.finding->base_command@ == name,
            );
            &&& seen.len() == 0 ==> forall|i: int|
                0 <= i < report.unsupported@.len() ==> (
                #[trigger] report.unsupported@[i]).base_command@ != name
            &&& seen.len() > 0 ==> exists|i: int|
                #![trigger report.unsupported@[i]]
                {
                    let entry = report.unsupported@[i];
                    &&& 0 <= i < report.unsupported@.len()
                    &&& entry.base_command@ == name
                    &&& forall|j: int|
                        0 <= j < report.unsupported@.len() && (
                        #[trigger] report.unsupported@[j]).base_command@ == name ==> j == i
                    &&& entry.count == seen.len()
                    &&& entry.example@ == seen[0].text@
                }
        }),
{
    let q = |f: PartFacts|
        !f.disabled && f.finding is Unsupported && f.finding->base_command@ == name;
    let p = unsupported_as(name);
    let cs = commands_of(facts);
    let seen = cs.filter(q);
    let fs = all_parts(session_views(facts));
    let s = totals(fs).unsupported;
    lemma_commands(facts);
    law_totals_of_sessions(session_views(facts));
    law_totals_consistent(fs);
    law_unsupported_commands(fs, name);
    assert forall|f: PartFacts| #[trigger] q(f) == p(f@) by {
    }
    lemma_chosen(cs, p, q);
    let at = place(unsupported_keys(s), name);
    lemma_place(unsupported_keys(s), name);
    let out = views(report.unsupported@);
    let order = choose|order: Seq<int>| ranked_by::<UnsupportedEntry>(s, out, order);
    lemma_arrangement_is_onto(order, s.len());
    assert forall|i: int| 0 <= i < report.unsupported@.len() implies (
    #[trigger] report.unsupported@[i])@ == s[order[i]] by {
        assert(out[i] == report.unsupported@[i]@);
    }
    if seen.len() == 0 {
        assert forall|i: int| 0 <= i < report.unsupported@.len() implies (
        #[trigger] report.unsupported@[i]).base_command@ != name by {
            assert(report.unsupported@[i]@.base_command == s[order[i]].base_command);
            assert(unsupported_keys(s)[order[i]] == s[order[i]].base_command);
        }
    } else {
        assert(order.contains(at));
        let i = choose|i: int| 0 <= i < order.len() && #[trigger] order[i] == at;
        let entry = report.unsupported@[i];
        assert(entry@ == s[at]);
        assert forall|j: int|
            0 <= j < report.unsupported@.len() && (
            #[trigger] report.unsupported@[j]).base_command@ == name implies j == i by {
            assert(report.unsupported@[j]@.base_command == s[order[j]].base_command);
            assert(unsupported_keys(s)[order[j]] == unsupported_keys(s)[at]);
        }
        lemma_first_chosen(cs, p, q);
    }
}

/// A report is in order: a filter stands before those that would have saved less, and an unsupported
/// name before those that were seen less often.
pub proof fn law_order_of_a_report(
    facts: Seq<SessionFacts>,
    since_days: u64,
    earliest_decision: Option<i64>,
    report: DiscoverReport,
)
    requires
        concludes(facts, since_days, earliest_decision, Ok(report)),
    ensures
        forall|i: int, j: int|
            0 <= i < j < report.supported@.len() ==> (
            #[trigger] report.supported@[i]).estimated_savings_tokens >= (
            #[trigger] report.supported@[j]).estimated_savings_tokens,
        forall|i: int, j: int|
            0 <= i < j < report.unsupported@.len() ==> (#[trigger] report.unsupported@[i]).count
                >= (#[trigger] report.unsupported@[j]).count,
{
    law_report_descends(tallied(session_views(facts)), report);
}

/// The report shows the most common commands in front of which the filter was switched off although
/// it would have covered them: up to five, each with how often it was seen, the more common ones
/// first and of those seen as often the lesser text first. What is not shown comes behind all five
/// in that order.
pub proof fn law_examples_of_a_report(
    facts: Seq<SessionFacts>,
    since_days: u64,
    earliest_decision: Option<i64>,
    report: DiscoverReport,
)
    requires
        concludes(facts, since_days, earliest_decision, Ok(report)),
    ensures
        ({
            let bypassed = commands_of(facts).filter(
                |f: PartFacts|
                    f.disabled && f.finding is Supported && (f.finding->coverage
                        == Coverage::Measured(true) || f.finding->coverage == Coverage::Estimated(
                        true,
                    )),
            );
            exists|shown: Seq<(Seq<char>, nat)>|
                #![trigger shown.len()]
                {
                    &&& shown.len() <= 5
                    &&& report.rtk_disabled_examples@.len() == shown.len()
                    &&& forall|i: int|
                        0 <= i < shown.len() ==> (#[trigger] report.rtk_disabled_examples@[i])@
                            == shown[i].0 + seq![' ', '('] + decimal(shown[i].1) + seq!['x', ')']
                    &&& forall|i: int|
                        0 <= i < shown.len() ==> (#[trigger] shown[i]).1 > 0 && shown[i].1
                            == bypassed.filter(
                            |f: PartFacts| truncated(f.text@) == shown[i].0,
                        ).len()
                    &&& forall|i: int, j: int|
                        #![trigger shown[i], shown[j]]
                        0 <= i < j < shown.len() ==> shown[i].1 > shown[j].1 || (shown[i].1
                            == shown[j].1 && text_less(shown[i].0, shown[j].0))
                    &&& forall|k: int|
                        #![trigger bypassed[k]]
                        0 <= k < bypassed.len() ==> {
                            let display = truncated(bypassed[k].text@);
                            let often = bypassed.filter(
                                |f: PartFacts| truncated(f.text@) == display,
                            ).len();
                            ||| exists|i: int|
                                0 <= i < shown.len() && (#[trigger] shown[i]).0 == display
                            ||| shown.len() == 5 && (shown[4].1 > often || (shown[4].1 == often
                                && text_less(shown[4].0, display)))
                        }
                }
        }),
{
    let q = |f: PartFacts|
        f.disabled && f.finding is Supported && (f.finding->coverage == Coverage::Measured(true)
            || f.finding->coverage == Coverage::Estimated(true));
    let cs = commands_of(facts);
    let bypassed = cs.filter(q);
    let fs = all_parts(session_views(facts));
    let commands = totals(fs).rtk_disabled_cmds;
    lemma_commands(facts);
    law_totals_of_sessions(session_views(facts));
    law_totals_consistent(fs);
    let ranking = choose|ranking: Seq<(Seq<char>, int)>| #[trigger]
        is_ranking::<CommandCount>(commands, ranking) && views(report.rtk_disabled_examples@)
            == examples_of(ranking);
    let order = choose|order: Seq<int>| ranked_by::<CommandCount>(commands, ranking, order);
    lemma_arrangement_is_onto(order, commands.len());
    law_examples_by_frequency(commands, ranking);
    assert forall|d: Seq<char>| bypassed.filter(
        |f: PartFacts| truncated(f.text@) == d,
    ).len() == #[trigger] count_of(commands, d) by {
        lemma_bypassed(cs, q, d);
        law_bypassed_commands(fs, d);
    }
    assert forall|r: int| 0 <= r < ranking.len() implies count_of(
        commands,
        (#[trigger] ranking[r]).0,
    ) == ranking[r].1 && ranking[r].1 >= 1 by {
        let keys = count_keys(commands);
        lemma_place(keys, ranking[r].0);
        assert(ranking[r] == commands[order[r]]);
        assert(keys[order[r]] == ranking[r].0);
        assert(keys[place(keys, ranking[r].0)] == keys[order[r]]);
    }
    let n = if ranking.len() < 5 {
        ranking.len() as int
    } else {
        5
    };
    let shown = Seq::new(n as nat, |i: int| (ranking[i].0, ranking[i].1 as nat));
    let texts = views(report.rtk_disabled_examples@);
    assert(texts.len() == n);
    reveal_strlit(" (");
    reveal_strlit("x)");
    assert(" ("@ =~= seq![' ', '(']);
    assert("x)"@ =~= seq!['x', ')']);
    assert forall|i: int| 0 <= i < shown.len() implies (
    #[trigger] report.rtk_disabled_examples@[i])@ == shown[i].0 + seq![' ', '('] + decimal(
        shown[i].1,
    ) + seq!['x', ')'] by {
        assert(texts[i] == report.rtk_disabled_examples@[i]@);
        assert(examples_of(ranking)[i] == example_text(ranking[i]));
    }
    assert forall|i: int| 0 <= i < shown.len() implies (#[trigger] shown[i]).1 > 0 && shown[i].1
        == bypassed.filter(|f: PartFacts| truncated(f.text@) == shown[i].0).len() by {
        assert(count_of(commands, ranking[i].0) == ranking[i].1);
    }
    assert forall|k: int| #![trigger bypassed[k]] 0 <= k < bypassed.len() implies {
        let display = truncated(bypassed[k].text@);
        let often = bypassed.filter(|f: PartFacts| truncated(f.text@) == display).len();
        ||| exists|i: int| 0 <= i < shown.len() && (#[trigger] shown[i]).0 == display
        ||| shown.len() == 5 && (shown[4].1 > often || (shown[4].1 == often && text_less(
            shown[4].0,
            display,
        )))
    } by {
        let display = truncated(bypassed[k].text@);
        let same = |f: PartFacts| truncated(f.text@) == display;
        broadcast use vstd::seq_lib::group_filter_ensures;

        assert(same(bypassed[k]));
        assert(bypassed.filter(same).contains(bypassed[k]));
        assert(count_of(commands, display) == bypassed.filter(same).len());
        let keys = count_keys(commands);
        let at = place(keys, display);
        lemma_place(keys, display);
        assert(order.contains(at));
        let r = choose|r: int| 0 <= r < order.len() && #[trigger] order[r] == at;
        assert(ranking[r] == commands[at]);
        assert(ranking[r].0 == display);
        if r < n {
            assert(shown[r].0 == display);
        } else {
            assert(ranking[4].1 > ranking[r].1 || (ranking[4].1 == ranking[r].1 && text_less(
                ranking[4].0,
                ranking[r].0,
            )));
        }
    }
    assert(shown.len() <= 5);
}

proof fn lemma_bypassed(cs: Seq<PartFacts>, q: spec_fn(PartFacts) -> bool, display: Seq<char>)
    requires
        forall|f: PartFacts| #[trigger] q(f) == is_bypass(f@),
    ensures
        cs.filter(q).filter(|f: PartFacts| truncated(f.text@) == display).len() == how_many(
            held(cs),
            bypassed_as(display),
        ),
{
    let same = |f: PartFacts| truncated(f.text@) == display;
    let both = |f: PartFacts| q(f) && same(f);
    let p = bypassed_as(display);
    assert forall|f: PartFacts| #[trigger] both(f) == p(f@) by {
        assert(q(f) == is_bypass(f@));
    }
    lemma_chosen_twice(cs, q, same, both);
    lemma_chosen(cs, p, both);
}

/// Coverage is measured since the earliest decision, which the report shows as a day in UTC where
/// the calendar has it, and not at all where there is none.
pub proof fn law_measured_since(
    facts: Seq<SessionFacts>,
    since_days: u64,
    earliest_decision: Option<i64>,
    report: DiscoverReport,
)
    requires
        concludes(facts, since_days, earliest_decision, Ok(report)),
    ensures
        earliest_decision is None ==> report.measured_since is None,
        earliest_decision matches Some(secs) ==> (report.measured_since is Some <==> in_calendar(
            secs as int,
        )),
        report.measured_since matches Some(day) ==> day@ == utc_text(
            earliest_decision->0 as int,
            "%Y-%m-%d"@,
        ),
{
}

/// A scan is refused only where a number would not fit: that of all commands, or what the missed
/// commands of one filter printed or would have saved together.
pub proof fn law_refused_only_where_too_large(
    facts: Seq<SessionFacts>,
    since_days: u64,
    earliest_decision: Option<i64>,
    r: Result<DiscoverReport, TallyOverflow>,
)
    requires
        concludes(facts, since_days, earliest_decision, r),
    ensures
        ({
            let cs = commands_of(facts);
            r is Err <==> {
                ||| cs.len() > usize::MAX
                ||| exists|k: int|
                    #![trigger cs[k]]
                    {
                        let filter = cs[k].finding->rtk_equivalent@;
                        let same = cs.filter(
                            |f: PartFacts|
                                !f.disabled && f.finding is Supported && (f.finding->coverage
                                    == Coverage::Measured(false) || f.finding->coverage
                                    == Coverage::Estimated(false))
                                    && f.finding->rtk_equivalent@ == filter,
                        );
                        &&& 0 <= k < cs.len()
                        &&& same.fold_left(
                            0int,
                            |n: int, f: PartFacts| n + f.finding->saved_tokens,
                        ) > usize::MAX || same.fold_left(
                            0int,
                            |n: int, f: PartFacts| n + f.finding->raw_tokens,
                        ) > usize::MAX
                    }
            }
        }),
{
    let cs = commands_of(facts);
    let fs = all_parts(session_views(facts));
    let t = totals(fs);
    let s = t.supported;
    lemma_commands(facts);
    law_totals_of_sessions(session_views(facts));
    law_counters(fs);
    law_totals_consistent(fs);
    assert(r is Err <==> !(cs.len() <= usize::MAX && buckets_fit(s)));
    if !buckets_fit(s) {
        let i = choose|i: int|
            0 <= i < s.len() && !((#[trigger] s[i]).total_output_tokens <= usize::MAX
                && s[i].total_raw_output_tokens <= usize::MAX);
        let e = s[i].rtk_equivalent;
        lemma_sums(facts, e);
        assert(supported_keys(s)[i] == e);
        lemma_place(supported_keys(s), e);
        assert(supported_keys(s)[place(supported_keys(s), e)] == supported_keys(s)[i]);
        law_missed_commands(fs, e);
        lemma_first_where(fs, missed_by(e));
        let k = first_where(fs, missed_by(e));
        assert(fs[k] == cs[k]@);
        assert(cs[k].finding->rtk_equivalent@ == e);
    }
    assert forall|k: int| #![trigger cs[k]] 0 <= k < cs.len() && buckets_fit(s) implies ({
        let filter = cs[k].finding->rtk_equivalent@;
        let same = cs.filter(
            |f: PartFacts|
                !f.disabled && f.finding is Supported && (f.finding->coverage
                    == Coverage::Measured(false) || f.finding->coverage == Coverage::Estimated(
                    false,
                )) && f.finding->rtk_equivalent@ == filter,
        );
        &&& same.fold_left(0int, |n: int, f: PartFacts| n + f.finding->saved_tokens) <= usize::MAX
        &&& same.fold_left(0int, |n: int, f: PartFacts| n + f.finding->raw_tokens) <= usize::MAX
    }) by {
        lemma_sums(facts, cs[k].finding->rtk_equivalent@);
    }
}

proof fn lemma_sums(facts: Seq<SessionFacts>, e: Seq<char>)
    ensures
        ({
            let same = commands_of(facts).filter(
                |f: PartFacts|
                    !f.disabled && f.finding is Supported && (f.finding->coverage
                        == Coverage::Measured(false) || f.finding->coverage == Coverage::Estimated(
                        false,
                    )) && f.finding->rtk_equivalent@ == e,
            );
            let s = totals(all_parts(session_views(facts))).supported;
            let at = place(supported_keys(s), e);
            let saved = same.fold_left(0int, |n: int, f: PartFacts| n + f.finding->saved_tokens);
            let raw = same.fold_left(0int, |n: int, f: PartFacts| n + f.finding->raw_tokens);
            &&& 0 <= at
            &&& at < s.len() ==> saved == s[at].total_output_tokens && raw
                == s[at].total_raw_output_tokens
            &&& at >= s.len() ==> saved == 0 && raw == 0
        }),
{
    let q = |f: PartFacts|
        !f.disabled && f.finding is Supported && (f.finding->coverage == Coverage::Measured(false)
            || f.finding->coverage == Coverage::Estimated(false))
            && f.finding->rtk_equivalent@ == e;
    let p = missed_by(e);
    let cs = commands_of(facts);
    let fs = all_parts(session_views(facts));
    lemma_commands(facts);
    law_missed_commands(fs, e);
    lemma_place(supported_keys(totals(fs).supported), e);
    assert forall|f: PartFacts| #[trigger] q(f) == p(f@) by {
    }
    lemma_chosen(cs, p, q);
    let same = cs.filter(q);
    if same.len() == 0 {
        assert(same.fold_left(0int, |n: int, f: PartFacts| n + f.finding->saved_tokens) == 0);
        assert(same.fold_left(0int, |n: int, f: PartFacts| n + f.finding->raw_tokens) == 0);
    }
    lemma_amount_chosen(
        cs,
        p,
        |f: PartView| f.finding->saved_tokens as int,
        q,
        |n: int, f: PartFacts| n + f.finding->saved_tokens,
    );
    lemma_amount_chosen(
        cs,
        p,
        |f: PartView| f.finding->raw_tokens as int,
        q,
        |n: int, f: PartFacts| n + f.finding->raw_tokens,
    );
}

/// A scan counts every command that the rules split the command lines of the sessions into, and
/// every session.
pub proof fn law_scan_counts_every_command<R: CommandRules>(
    rules: &R,
    m: RulesModel,
    settings: &ScanSettings,
    hook_log: Map<Seq<char>, HookDecisionRecord>,
    sessions: Seq<SessionLog>,
    since_days: u64,
    earliest_decision: Option<i64>,
    report: DiscoverReport,
)
    requires
        follows(rules, m),
        scans(rules, settings, hook_log, sessions, since_days, earliest_decision, Ok(report)),
    ensures
        report.total_commands == sessions.fold_left(
            0int,
            |n: int, s: SessionLog|
                n + match s {
                    SessionLog::Unreadable => 0,
                    SessionLog::Commands(lines) => lines@.fold_left(
                        0int,
                        |l: int, c: ExtractedCommand| l + (m.split)(c.command@).len(),
                    ),
                },
        ),
        report.sessions_scanned == sessions.len(),
        report.parse_errors == sessions.filter(|s: SessionLog| s is Unreadable).len(),
        report.since_days == since_days,
{
    let facts = choose|facts: Seq<SessionFacts>| #[trigger]
        observes(rules, settings, hook_log, sessions, facts) && concludes(
            facts,
            since_days,
            earliest_decision,
            Ok(report),
        );
    law_numbers_of_a_report(facts, since_days, earliest_decision, report);
    law_every_command_is_observed(rules, m, settings, hook_log, sessions, facts);
    law_number_of_commands(facts);
    lemma_same_numbers(m, sessions, facts);
}

proof fn lemma_same_numbers(m: RulesModel, sessions: Seq<SessionLog>, facts: Seq<SessionFacts>)
    requires
        facts.len() == sessions.len(),
        forall|i: int|
            0 <= i < sessions.len() ==> match (sessions[i], #[trigger] facts[i]) {
                (SessionLog::Unreadable, SessionFacts::Unreadable) => true,
                (SessionLog::Commands(lines), SessionFacts::Commands(chains)) => {
                    &&& chains@.len() == lines@.len()
                    &&& forall|j: int|
                        0 <= j < lines@.len() ==> (#[trigger] chains@[j])@.len() == (m.split)(
                            lines@[j].command@,
                        ).len()
                },
                _ => false,
            },
    ensures
        facts.fold_left(
            0int,
            |n: int, s: SessionFacts|
                n + match s {
                    SessionFacts::Unreadable => 0,
                    SessionFacts::Commands(chains) => chains@.fold_left(
                        0int,
                        |l: int, c: Vec<PartFacts>| l + c@.len(),
                    ),
                },
        ) == sessions.fold_left(
            0int,
            |n: int, s: SessionLog|
                n + match s {
                    SessionLog::Unreadable => 0,
                    SessionLog::Commands(lines) => lines@.fold_left(
                        0int,
                        |l: int, c: ExtractedCommand| l + (m.split)(c.command@).len(),
                    ),
                },
        ),
        facts.filter(|s: SessionFacts| s is Unreadable).len() == sessions.filter(
            |s: SessionLog| s is Unreadable,
        ).len(),
    decreases sessions.len(),
{
    reveal(Seq::filter);
    if sessions.len() > 0 {
        let s = sessions.drop_last();
        let f = facts.drop_last();
        assert forall|i: int| 0 <= i < s.len() implies match (s[i], #[trigger] f[i]) {
            (SessionLog::Unreadable, SessionFacts::Unreadable) => true,
            (SessionLog::Commands(lines), SessionFacts::Commands(chains)) => {
                &&& chains@.len() == lines@.len()
                &&& forall|j: int|
                    0 <= j < lines@.len() ==> (#[trigger] chains@[j])@.len() == (m.split)(
                        lines@[j].command@,
                    ).len()
            },
            _ => false,
        } by {
            assert(f[i] == facts[i]);
        }
        lemma_same_numbers(m, s, f);
        let last = facts[facts.len() - 1];
        match (sessions.last(), last) {
            (SessionLog::Commands(lines), SessionFacts::Commands(chains)) => {
                lemma_same_line_numbers(m, lines@, chains@);
            },
            _ => {},
        }
    }
}

proof fn lemma_same_line_numbers(
    m: RulesModel,
    lines: Seq<ExtractedCommand>,
    chains: Seq<Vec<PartFacts>>,
)
    requires
        chains.len() == lines.len(),
        forall|j: int|
            0 <= j < lines.len() ==> (#[trigger] chains[j])@.len() == (m.split)(
                lines[j].command@,
            ).len(),
    ensures
        chains.fold_left(0int, |l: int, c: Vec<PartFacts>| l + c@.len()) == lines.fold_left(
            0int,
            |l: int, c: ExtractedCommand| l + (m.split)(c.command@).len(),
        ),
    decreases lines.len(),
{
    if lines.len() > 0 {
        let n = lines.len() - 1;
        assert(chains[n]@.len() == (m.split)(lines[n].command@).len());
        lemma_same_line_numbers(m, lines.drop_last(), chains.drop_last());
    }
}

/// A command that was run: the command line that it stands in, and its text in that line.
pub struct Run {
    pub line: ExtractedCommand,
    pub part: Seq<char>,
}

/// The commands that the sessions ran: each command line is split as the rules split it.
pub open spec fn runs(m: RulesModel, sessions: Seq<SessionLog>) -> Seq<Run> {
    sessions.map_values(
        |s: SessionLog|
            match s {
                SessionLog::Unreadable => Seq::empty(),
                SessionLog::Commands(lines) => lines@.map_values(
                    |line: ExtractedCommand|
                        (m.split)(line.command@).map_values(|part: Seq<char>| Run { line, part }),
                ).flatten(),
            },
    ).flatten()
}

/// Whether the filter was switched off in front of a command.
pub open spec fn switched_off(m: RulesModel, x: Run) -> bool {
    (m.disabled)((m.prefix)(x.part).0)
}

/// The text under which a command is looked up: without what switched the filter off.
pub open spec fn looked_up(m: RulesModel, x: Run) -> Seq<char> {
    if switched_off(m, x) {
        (m.prefix)(x.part).1
    } else {
        x.part
    }
}

/// Whether a command ran, or would have run, through the filter.
pub open spec fn through_filter(
    m: RulesModel,
    settings: &ScanSettings,
    hook_log: Map<Seq<char>, HookDecisionRecord>,
    x: Run,
) -> bool {
    let text = looked_up(m, x);
    if hook_log.contains_key(x.line.tool_use_id@) {
        hook_log[x.line.tool_use_id@].decision == HookOutcome::Allow
    } else {
        &&& settings.hook_installed
        &&& (m.verdict)(text) != PermissionVerdict::Deny
        &&& !(m.unattestable)(text)
        &&& (m.rewrites)(
            text,
            settings.excluded@.map_values(|t: String| t@),
            settings.transparent_prefixes@.map_values(|t: String| t@),
        )
    }
}

/// What a supported command printed, in tokens.
pub open spec fn printed(m: RulesModel, x: Run) -> usize {
    match x.line.output_len {
        Some(len) => len / 4,
        None => (m.avg_tokens)(
            (m.class)(looked_up(m, x))->category,
            subcmd(looked_up(m, x)),
        ),
    }
}

/// What the filter of a supported command would have saved, in tokens.
pub open spec fn saved(m: RulesModel, x: Run) -> usize {
    (m.savings)(printed(m, x), (m.class)(looked_up(m, x))->estimated_savings_pct)
}

/// Whether `f` is what a scan finds out about `x`.
spec fn told(
    m: RulesModel,
    settings: &ScanSettings,
    hook_log: Map<Seq<char>, HookDecisionRecord>,
    x: Run,
    f: PartFacts,
) -> bool {
    let class = (m.class)(looked_up(m, x));
    &&& f.disabled == switched_off(m, x)
    &&& f.text@ == looked_up(m, x)
    &&& f.finding is Supported <==> class is Supported
    &&& f.finding is Unsupported <==> class is Unsupported
    &&& f.finding is Unsupported ==> f.finding->base_command@ == class->base_command
    &&& f.finding is Supported ==> {
        &&& f.finding->rtk_equivalent@ == class->rtk_equivalent
        &&& f.finding->category@ == class->category
        &&& f.finding->status == class->status
        &&& f.finding->coverage == if hook_log.contains_key(x.line.tool_use_id@) {
            Coverage::Measured(through_filter(m, settings, hook_log, x))
        } else {
            Coverage::Estimated(through_filter(m, settings, hook_log, x))
        }
        &&& !f.disabled && !through_filter(m, settings, hook_log, x) ==> f.finding->raw_tokens
            == printed(m, x) && f.finding->saved_tokens == saved(m, x)
    }
}

proof fn lemma_told<R: CommandRules>(
    rules: &R,
    m: RulesModel,
    settings: &ScanSettings,
    hook_log: Map<Seq<char>, HookDecisionRecord>,
    sessions: Seq<SessionLog>,
    facts: Seq<SessionFacts>,
    i: int,
    j: int,
    k: int,
)
    requires
        follows(rules, m),
        observes(rules, settings, hook_log, sessions, facts),
        0 <= i < facts.len(),
        facts[i] is Commands,
        0 <= j < facts[i]->Commands_0@.len(),
        0 <= k < facts[i]->Commands_0@[j]@.len(),
    ensures
        told(
            m,
            settings,
            hook_log,
            Run {
                line: sessions[i]->Commands_0@[j],
                part: (m.split)(sessions[i]->Commands_0@[j].command@)[k],
            },
            facts[i]->Commands_0@[j]@[k],
        ),
{
    let f = facts[i]->Commands_0@[j]@[k];
    law_observed_command(rules, m, settings, hook_log, sessions, facts, i, j, k);
    if f.finding is Supported {
        law_observed_coverage(rules, m, settings, hook_log, sessions, facts, i, j, k);
        if !f.disabled && (f.finding->coverage == Coverage::Measured(false) || f.finding->coverage
            == Coverage::Estimated(false)) {
            law_observed_tokens(rules, m, settings, hook_log, sessions, facts, i, j, k);
        }
    }
}

proof fn lemma_flatten_pairs<A, B>(a: Seq<Seq<A>>, b: Seq<Seq<B>>, rel: spec_fn(A, B) -> bool)
    requires
        a.len() == b.len(),
        forall|i: int| 0 <= i < a.len() ==> (#[trigger] a[i]).len() == b[i].len(),
        forall|i: int, k: int|
            0 <= i < a.len() && 0 <= k < a[i].len() ==> rel(#[trigger] a[i][k], b[i][k]),
    ensures
        a.flatten().len() == b.flatten().len(),
        forall|x: int|
            0 <= x < a.flatten().len() ==> rel(#[trigger] a.flatten()[x], b.flatten()[x]),
    decreases a.len(),
{
    if a.len() > 0 {
        lemma_flatten_last(a);
        lemma_flatten_last(b);
        let c = a.drop_last();
        let d = b.drop_last();
        assert forall|i: int| 0 <= i < c.len() implies (#[trigger] c[i]).len() == d[i].len() by {
            assert(c[i] == a[i]);
        }
        assert forall|i: int, k: int| 0 <= i < c.len() && 0 <= k < c[i].len() implies rel(
            #[trigger] c[i][k],
            d[i][k],
        ) by {
            assert(c[i][k] == a[i][k]);
        }
        lemma_flatten_pairs(c, d, rel);
        let n = a.len() - 1;
        assert(a[n].len() == b[n].len());
        assert forall|x: int| 0 <= x < a.flatten().len() implies rel(
            #[trigger] a.flatten()[x],
            b.flatten()[x],
        ) by {
            if x < c.flatten().len() {
                assert(rel(c.flatten()[x], d.flatten()[x]));
            } else {
                let k = x - c.flatten().len();
                assert(rel(a[n][k], b[n][k]));
            }
        }
    }
}

proof fn lemma_all_told<R: CommandRules>(
    rules: &R,
    m: RulesModel,
    settings: &ScanSettings,
    hook_log: Map<Seq<char>, HookDecisionRecord>,
    sessions: Seq<SessionLog>,
    facts: Seq<SessionFacts>,
)
    requires
        follows(rules, m),
        observes(rules, settings, hook_log, sessions, facts),
    ensures
        runs(m, sessions).len() == commands_of(facts).len(),
        forall|x: int|
            0 <= x < commands_of(facts).len() ==> told(
                m,
                settings,
                hook_log,
                #[trigger] runs(m, sessions)[x],
                commands_of(facts)[x],
            ),
{
    let rel = |x: Run, f: PartFacts| told(m, settings, hook_log, x, f);
    let each = |s: SessionLog|
        match s {
            SessionLog::Unreadable => Seq::empty(),
            SessionLog::Commands(lines) => lines@.map_values(
                |line: ExtractedCommand|
                    (m.split)(line.command@).map_values(|part: Seq<char>| Run { line, part }),
            ).flatten(),
        };
    let a = sessions.map_values(each);
    let b = facts.map_values(|s: SessionFacts| session_commands(s));
    law_every_command_is_observed(rules, m, settings, hook_log, sessions, facts);
    assert forall|i: int| 0 <= i < a.len() implies (#[trigger] a[i]).len() == b[i].len() && forall|
        k: int,
    |
        0 <= k < a[i].len() ==> rel(#[trigger] a[i][k], b[i][k]) by {
        match (sessions[i], facts[i]) {
            (SessionLog::Commands(lines), SessionFacts::Commands(chains)) => {
                let c = lines@.map_values(
                    |line: ExtractedCommand|
                        (m.split)(line.command@).map_values(|part: Seq<char>| Run { line, part }),
                );
                let d = chains@.map_values(|c: Vec<PartFacts>| c@);
                assert forall|j: int| 0 <= j < c.len() implies (#[trigger] c[j]).len()
                    == d[j].len() by {
                    assert(chains@[j]@.len() == (m.split)(lines@[j].command@).len());
                }
                assert forall|j: int, k: int| 0 <= j < c.len() && 0 <= k < c[j].len() implies rel(
                    #[trigger] c[j][k],
                    d[j][k],
                ) by {
                    assert(c[j].len() == d[j].len());
                    lemma_told(rules, m, settings, hook_log, sessions, facts, i, j, k);
                }
                lemma_flatten_pairs(c, d, rel);
                assert(a[i] == c.flatten());
                assert(b[i] == d.flatten());
            },
            _ => {},
        }
    }
    lemma_flatten_pairs(a, b, rel);
    assert(runs(m, sessions) == a.flatten());
    assert forall|x: int| 0 <= x < commands_of(facts).len() implies told(
        m,
        settings,
        hook_log,
        #[trigger] runs(m, sessions)[x],
        commands_of(facts)[x],
    ) by {
        assert(rel(a.flatten()[x], b.flatten()[x]));
    }
}

proof fn lemma_paired_filters<A, B>(
    a: Seq<A>,
    b: Seq<B>,
    p: spec_fn(A) -> bool,
    q: spec_fn(B) -> bool,
)
    requires
        a.len() == b.len(),
        forall|x: int| 0 <= x < a.len() ==> p(#[trigger] a[x]) == q(b[x]),
    ensures
        a.filter(p).len() == b.filter(q).len(),
    decreases a.len(),
{
    reveal(Seq::filter);
    if a.len() > 0 {
        let n = a.len() - 1;
        assert(p(a[n]) == q(b[n]));
        let c = a.drop_last();
        let d = b.drop_last();
        assert forall|x: int| 0 <= x < c.len() implies p(#[trigger] c[x]) == q(d[x]) by {
            assert(c[x] == a[x]);
        }
        lemma_paired_filters(c, d, p, q);
    }
}

proof fn lemma_paired_sums<A, B>(
    a: Seq<A>,
    b: Seq<B>,
    p: spec_fn(A) -> bool,
    q: spec_fn(B) -> bool,
    v: spec_fn(int, A) -> int,
    w: spec_fn(int, B) -> int,
)
    requires
        a.len() == b.len(),
        forall|x: int| 0 <= x < a.len() ==> p(#[trigger] a[x]) == q(b[x]),
        forall|x: int, n: int| 0 <= x < a.len() && p(a[x]) ==> #[trigger] v(n, a[x]) == w(n, b[x]),
    ensures
        a.filter(p).fold_left(0int, v) == b.filter(q).fold_left(0int, w),
    decreases a.len(),
{
    reveal(Seq::filter);
    if a.len() > 0 {
        let n = a.len() - 1;
        assert(p(a[n]) == q(b[n]));
        let c = a.drop_last();
        let d = b.drop_last();
        assert forall|x: int| 0 <= x < c.len() implies p(#[trigger] c[x]) == q(d[x]) by {
            assert(c[x] == a[x]);
        }
        assert forall|x: int, n: int| 0 <= x < c.len() && p(c[x]) implies #[trigger] v(n, c[x])
            == w(n, d[x]) by {
            assert(v(n, a[x]) == w(n, b[x]));
        }
        lemma_paired_sums(c, d, p, q, v, w);
        if p(a[n]) {
            assert(c.filter(p).push(a[n]).drop_last() =~= c.filter(p));
            assert(d.filter(q).push(b[n]).drop_last() =~= d.filter(q));
            let sum = c.filter(p).fold_left(0int, v);
            assert(v(sum, a[n]) == w(sum, b[n]));
        }
    }
}

/// The numbers of a scan, from the sessions, the log, the settings and the rules alone: all commands
/// that were run; those that ran through the filter or ran it themselves; those that would have run
/// through it, had it not been switched off; and those of either of which the log says nothing.
pub proof fn law_numbers_of_a_scan<R: CommandRules>(
    rules: &R,
    m: RulesModel,
    settings: &ScanSettings,
    hook_log: Map<Seq<char>, HookDecisionRecord>,
    sessions: Seq<SessionLog>,
    since_days: u64,
    earliest_decision: Option<i64>,
    report: DiscoverReport,
)
    requires
        follows(rules, m),
        scans(rules, settings, hook_log, sessions, since_days, earliest_decision, Ok(report)),
    ensures
        ({
            let xs = runs(m, sessions);
            &&& report.total_commands == xs.len()
            &&& report.already_rtk == xs.filter(
                |x: Run|
                    !switched_off(m, x) && (m.class)(looked_up(m, x)) is Supported
                        && through_filter(m, settings, hook_log, x),
            ).len() + xs.filter(
                |x: Run|
                    !switched_off(m, x) && (m.class)(looked_up(m, x)) is Ignored && already_rtk(
                        x.part,
                    ),
            ).len()
            &&& report.already_rtk_estimated == xs.filter(
                |x: Run|
                    !switched_off(m, x) && (m.class)(looked_up(m, x)) is Supported
                        && through_filter(m, settings, hook_log, x) && !hook_log.contains_key(
                        x.line.tool_use_id@,
                    ),
            ).len()
            &&& report.rtk_disabled_count == xs.filter(
                |x: Run|
                    switched_off(m, x) && (m.class)(looked_up(m, x)) is Supported
                        && through_filter(m, settings, hook_log, x),
            ).len()
            &&& report.rtk_disabled_estimated == xs.filter(
                |x: Run|
                    switched_off(m, x) && (m.class)(looked_up(m, x)) is Supported
                        && through_filter(m, settings, hook_log, x) && !hook_log.contains_key(
                        x.line.tool_use_id@,
                    ),
            ).len()
        }),
{
    let facts = choose|facts: Seq<SessionFacts>| #[trigger]
        observes(rules, settings, hook_log, sessions, facts) && concludes(
            facts,
            since_days,
            earliest_decision,
            Ok(report),
        );
    law_numbers_of_a_report(facts, since_days, earliest_decision, report);
    lemma_all_told(rules, m, settings, hook_log, sessions, facts);
    let xs = runs(m, sessions);
    let cs = commands_of(facts);
    lemma_paired_filters(
        xs,
        cs,
        |x: Run|
            !switched_off(m, x) && (m.class)(looked_up(m, x)) is Supported && through_filter(
                m,
                settings,
                hook_log,
                x,
            ),
        |f: PartFacts|
            !f.disabled && f.finding is Supported && (f.finding->coverage == Coverage::Measured(
                true,
            ) || f.finding->coverage == Coverage::Estimated(true)),
    );
    lemma_paired_filters(
        xs,
        cs,
        |x: Run|
            !switched_off(m, x) && (m.class)(looked_up(m, x)) is Ignored && already_rtk(x.part),
        |f: PartFacts| !f.disabled && f.finding is Ignored && already_rtk(f.text@),
    );
    lemma_paired_filters(
        xs,
        cs,
        |x: Run|
            !switched_off(m, x) && (m.class)(looked_up(m, x)) is Supported && through_filter(
                m,
                settings,
                hook_log,
                x,
            ) && !hook_log.contains_key(x.line.tool_use_id@),
        |f: PartFacts|
            !f.disabled && f.finding is Supported && f.finding->coverage == Coverage::Estimated(
                true,
            ),
    );
    lemma_paired_filters(
        xs,
        cs,
        |x: Run|
            switched_off(m, x) && (m.class)(looked_up(m, x)) is Supported && through_filter(
                m,
                settings,
                hook_log,
                x,
            ),
        |f: PartFacts|
            f.disabled && f.finding is Supported && (f.finding->coverage == Coverage::Measured(true)
                || f.finding->coverage == Coverage::Estimated(true)),
    );
    lemma_paired_filters(
        xs,
        cs,
        |x: Run|
            switched_off(m, x) && (m.class)(looked_up(m, x)) is Supported && through_filter(
                m,
                settings,
                hook_log,
                x,
            ) && !hook_log.contains_key(x.line.tool_use_id@),
        |f: PartFacts|
            f.disabled && f.finding is Supported && f.finding->coverage == Coverage::Estimated(
                true,
            ),
    );
}

/// What a scan reports of a filter, from the sessions, the log, the settings and the rules alone: an
/// entry exactly where a command that the filter is for did not run through it, with the number of
/// those commands and the sums of what they printed and of what the filter would have saved.
pub proof fn law_filter_in_a_scan<R: CommandRules>(
    rules: &R,
    m: RulesModel,
    settings: &ScanSettings,
    hook_log: Map<Seq<char>, HookDecisionRecord>,
    sessions: Seq<SessionLog>,
    since_days: u64,
    earliest_decision: Option<i64>,
    report: DiscoverReport,
    filter: Seq<char>,
)
    requires
        follows(rules, m),
        scans(rules, settings, hook_log, sessions, since_days, earliest_decision, Ok(report)),
    ensures
        ({
            let missed = runs(m, sessions).filter(
                |x: Run|
                    !switched_off(m, x) && (m.class)(looked_up(m, x)) is Supported
                        && !through_filter(m, settings, hook_log, x)
                        && (m.class)(looked_up(m, x))->rtk_equivalent == filter,
            );
            &&& missed.len() == 0 ==> forall|i: int|
                0 <= i < report.supported@.len() ==> (
                #[trigger] report.supported@[i]).rtk_equivalent@ != filter
            &&& missed.len() > 0 ==> exists|i: int|
                #![trigger report.supported@[i]]
                {
                    let entry = report.supported@[i];
                    &&& 0 <= i < report.supported@.len()
                    &&& entry.rtk_equivalent@ == filter
                    &&& entry.count == missed.len()
                    &&& entry.raw_output_tokens == missed.fold_left(
                        0int,
                        |n: int, x: Run| n + printed(m, x),
                    )
                    &&& entry.estimated_savings_tokens == missed.fold_left(
                        0int,
                        |n: int, x: Run| n + saved(m, x),
                    )
                }
        }),
{
    let facts = choose|facts: Seq<SessionFacts>| #[trigger]
        observes(rules, settings, hook_log, sessions, facts) && concludes(
            facts,
            since_days,
            earliest_decision,
            Ok(report),
        );
    law_entry_of_a_filter(facts, since_days, earliest_decision, report, filter);
    lemma_all_told(rules, m, settings, hook_log, sessions, facts);
    let xs = runs(m, sessions);
    let cs = commands_of(facts);
    let p = |x: Run|
        !switched_off(m, x) && (m.class)(looked_up(m, x)) is Supported && !through_filter(
            m,
            settings,
            hook_log,
            x,
        ) && (m.class)(looked_up(m, x))->rtk_equivalent == filter;
    let q = |f: PartFacts|
        !f.disabled && f.finding is Supported && (f.finding->coverage == Coverage::Measured(false)
            || f.finding->coverage == Coverage::Estimated(false))
            && f.finding->rtk_equivalent@ == filter;
    lemma_paired_filters(xs, cs, p, q);
    lemma_paired_sums(
        xs,
        cs,
        p,
        q,
        |n: int, x: Run| n + printed(m, x),
        |n: int, f: PartFacts| n + f.finding->raw_tokens,
    );
    lemma_paired_sums(
        xs,
        cs,
        p,
        q,
        |n: int, x: Run| n + saved(m, x),
        |n: int, f: PartFacts| n + f.finding->saved_tokens,
    );
}

/// What a scan reports of a name, from the sessions and the rules alone: an entry exactly where a
/// command of that name was run that no filter exists for, with the number of those commands.
pub proof fn law_name_in_a_scan<R: CommandRules>(
    rules: &R,
    m: RulesModel,
    settings: &ScanSettings,
    hook_log: Map<Seq<char>, HookDecisionRecord>,
    sessions: Seq<SessionLog>,
    since_days: u64,
    earliest_decision: Option<i64>,
    report: DiscoverReport,
    name: Seq<char>,
)
    requires
        follows(rules, m),
        scans(rules, settings, hook_log, sessions, since_days, earliest_decision, Ok(report)),
    ensures
        ({
            let seen = runs(m, sessions).filter(
                |x: Run|
                    !switched_off(m, x) && (m.class)(x.part) is Unsupported
                        && (m.class)(x.part)->base_command == name,
            );
            &&& seen.len() == 0 ==> forall|i: int|
                0 <= i < report.unsupported@.len() ==> (
                #[trigger] report.unsupported@[i]).base_command@ != name
            &&& seen.len() > 0 ==> exists|i: int|
                0 <= i < report.unsupported@.len() && (
                #[trigger] report.unsupported@[i]).base_command@ == name
                    && report.unsupported@[i].count == seen.len()
        }),
{
    let facts = choose|facts: Seq<SessionFacts>| #[trigger]
        observes(rules, settings, hook_log, sessions, facts) && concludes(
            facts,
            since_days,
            earliest_decision,
            Ok(report),
        );
    law_entry_of_a_name(facts, since_days, earliest_decision, report, name);
    lemma_all_told(rules, m, settings, hook_log, sessions, facts);
    lemma_paired_filters(
        runs(m, sessions),
        commands_of(facts),
        |x: Run|
            !switched_off(m, x) && (m.class)(x.part) is Unsupported
                && (m.class)(x.part)->base_command == name,
        |f: PartFacts|
            !f.disabled && f.finding is Unsupported && f.finding->base_command@ == name,
    );
}

} // verus!
