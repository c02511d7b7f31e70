//! The report of a scan.

use vstd::prelude::*;
use vstd::string::*;

use crate::command::{split_key, split_status_key};
use crate::counting::{count_keys, count_views, counts_consistent, total, CommandCount};
use crate::ranking::{
    is_ranking, lemma_total_arranged, ranked_by, stable_sort, views, Ranked,
};
use crate::rules::RtkStatus;
use crate::tally::{
    consistent, supported_counts, supported_views, unsupported_counts, unsupported_views,
    SupportedBucket, SupportedView, Tally, TallyView, UnsupportedBucket, UnsupportedView,
};
use crate::text::{decimal, decimal_text, is_text_less, lemma_text_less_order, text_less};

verus! {

/// A filter that would have saved something.
#[derive(Debug)]
pub struct SupportedEntry {
    /// The most common of the commands that were missed.
    pub command: String,
    pub count: usize,
    pub rtk_equivalent: &'static str,
    pub category: &'static str,
    pub estimated_savings_tokens: usize,
    /// What the commands printed, in tokens. The share of the savings in it is the rate at which
    /// all of them together would have been cut down; where it is zero, so is the rate.
    pub raw_output_tokens: usize,
    pub rtk_status: RtkStatus,
}

/// A command that no filter exists for.
#[derive(Debug)]
pub struct UnsupportedEntry {
    pub base_command: String,
    pub count: usize,
    pub example: String,
}

/// What a scan found.
#[derive(Debug)]
pub struct DiscoverReport {
    pub sessions_scanned: usize,
    pub total_commands: usize,
    pub already_rtk: usize,
    pub already_rtk_estimated: usize,
    /// The day since which coverage is measured and not guessed.
    pub measured_since: Option<String>,
    pub since_days: u64,
    pub supported: Vec<SupportedEntry>,
    pub unsupported: Vec<UnsupportedEntry>,
    pub parse_errors: usize,
    pub rtk_disabled_count: usize,
    pub rtk_disabled_estimated: usize,
    pub rtk_disabled_examples: Vec<String>,
}

/// How many commands in front of which the filter was switched off are shown.
pub const MAX_EXAMPLES: usize = 5;

/// What a [`SupportedEntry`] holds.
#[verifier::ext_equal]
pub struct SupportedEntryView {
    pub command: Seq<char>,
    pub count: int,
    pub rtk_equivalent: Seq<char>,
    pub category: Seq<char>,
    pub estimated_savings_tokens: int,
    pub raw_output_tokens: int,
    pub rtk_status: RtkStatus,
}

impl View for SupportedEntry {
    type V = SupportedEntryView;

    open spec fn view(&self) -> SupportedEntryView {
        SupportedEntryView {
            command: self.command@,
            count: self.count as int,
            rtk_equivalent: self.rtk_equivalent@,
            category: self.category@,
            estimated_savings_tokens: self.estimated_savings_tokens as int,
            raw_output_tokens: self.raw_output_tokens as int,
            rtk_status: self.rtk_status,
        }
    }
}

impl View for UnsupportedEntry {
    type V = UnsupportedView;

    open spec fn view(&self) -> UnsupportedView {
        UnsupportedView {
            base_command: self.base_command@,
            count: self.count as int,
            example: self.example@,
        }
    }
}

/// Entries that save more come first.
impl Ranked for SupportedEntry {
    open spec fn ahead(a: SupportedEntryView, b: SupportedEntryView) -> bool {
        a.estimated_savings_tokens > b.estimated_savings_tokens
    }

    proof fn ahead_is_order(a: SupportedEntryView, b: SupportedEntryView, c: SupportedEntryView) {
    }

    fn is_ahead(&self, other: &Self) -> (r: bool) {
        self.estimated_savings_tokens > other.estimated_savings_tokens
    }
}

/// Entries that were seen more often come first.
impl Ranked for UnsupportedEntry {
    open spec fn ahead(a: UnsupportedView, b: UnsupportedView) -> bool {
        a.count > b.count
    }

    proof fn ahead_is_order(a: UnsupportedView, b: UnsupportedView, c: UnsupportedView) {
    }

    fn is_ahead(&self, other: &Self) -> (r: bool) {
        self.count > other.count
    }
}

/// Commands that were seen more often come first; of those that were seen as often, the one whose
/// text comes first.
impl Ranked for CommandCount {
    open spec fn ahead(a: (Seq<char>, int), b: (Seq<char>, int)) -> bool {
        a.1 > b.1 || (a.1 == b.1 && text_less(a.0, b.0))
    }

    proof fn ahead_is_order(a: (Seq<char>, int), b: (Seq<char>, int), c: (Seq<char>, int)) {
        lemma_text_less_order(a.0, b.0, c.0);
        lemma_text_less_order(c.0, b.0, a.0);
        lemma_text_less_order(a.0, c.0, b.0);
        lemma_text_less_order(b.0, a.0, c.0);
        lemma_text_less_order(b.0, c.0, a.0);
    }

    fn is_ahead(&self, other: &Self) -> (r: bool) {
        self.count > other.count || (self.count == other.count && is_text_less(
            self.command.as_str(),
            other.command.as_str(),
        ))
    }
}

/// The position of the highest count, the last of them where there are several.
pub open spec fn most_common(c: Seq<(Seq<char>, int)>) -> int
    decreases c.len(),
{
    if c.len() <= 1 {
        0
    } else {
        let p = most_common(c.drop_last());
        if c.last().1 >= c[p].1 {
            c.len() - 1
        } else {
            p
        }
    }
}

/// No command is more common than the most common one.
pub proof fn law_most_common(c: Seq<(Seq<char>, int)>)
    requires
        c.len() > 0,
    ensures
        0 <= most_common(c) < c.len(),
        forall|i: int| 0 <= i < c.len() ==> (#[trigger] c[i]).1 <= c[most_common(c)].1,
    decreases c.len(),
{
    if c.len() > 1 {
        let d = c.drop_last();
        law_most_common(d);
        assert forall|i: int| 0 <= i < c.len() implies (#[trigger] c[i]).1 <= c[most_common(
            c,
        )].1 by {
            if i < d.len() {
                assert(c[i] == d[i]);
            }
        }
    }
}

/// The command that a bucket is shown as, with its status.
pub open spec fn shown_command(c: Seq<(Seq<char>, int)>) -> (Seq<char>, RtkStatus) {
    if c.len() == 0 {
        (Seq::empty(), RtkStatus::Existing)
    } else {
        split_key(c[most_common(c)].0)
    }
}

/// The entry of a bucket.
pub open spec fn entry_of(b: SupportedView) -> SupportedEntryView {
    SupportedEntryView {
        command: shown_command(b.command_counts).0,
        count: b.count,
        rtk_equivalent: b.rtk_equivalent,
        category: b.category,
        estimated_savings_tokens: b.total_output_tokens,
        raw_output_tokens: b.total_raw_output_tokens,
        rtk_status: shown_command(b.command_counts).1,
    }
}

/// The entries of the buckets, in the order of the buckets.
pub open spec fn entries_of(s: Seq<SupportedView>) -> Seq<SupportedEntryView> {
    s.map_values(|b: SupportedView| entry_of(b))
}

/// A command with how often it was seen, as in `git status (3x)`.
pub open spec fn example_text(e: (Seq<char>, int)) -> Seq<char> {
    e.0 + " ("@ + decimal(e.1 as nat) + "x)"@
}

/// What is shown of a ranking of commands: the first of them.
pub open spec fn examples_of(ranking: Seq<(Seq<char>, int)>) -> Seq<Seq<char>> {
    let n = if ranking.len() < MAX_EXAMPLES {
        ranking.len() as int
    } else {
        MAX_EXAMPLES as int
    };
    ranking.take(n).map_values(|e: (Seq<char>, int)| example_text(e))
}

/// Whether `examples` are the first texts of a ranking of `commands`.
pub open spec fn shows_examples(
    commands: Seq<(Seq<char>, int)>,
    examples: Seq<Seq<char>>,
) -> bool {
    exists|ranking: Seq<(Seq<char>, int)>| #[trigger]
        is_ranking::<CommandCount>(commands, ranking) && examples == examples_of(ranking)
}

/// Whether `r` reports the totals `t`.
pub open spec fn reports(t: TallyView, r: DiscoverReport) -> bool {
    &&& r.total_commands == t.total_commands
    &&& r.already_rtk == t.already_rtk
    &&& r.already_rtk_estimated == t.already_rtk_estimated
    &&& r.parse_errors == t.parse_errors
    &&& r.rtk_disabled_count == t.rtk_disabled_count
    &&& r.rtk_disabled_estimated == t.rtk_disabled_estimated
    &&& is_ranking::<SupportedEntry>(entries_of(t.supported), views(r.supported@))
    &&& is_ranking::<UnsupportedEntry>(t.unsupported, views(r.unsupported@))
    &&& shows_examples(t.rtk_disabled_cmds, views(r.rtk_disabled_examples@))
}

/// Whether two reports say the same.
pub open spec fn same_report(a: DiscoverReport, b: DiscoverReport) -> bool {
    &&& a.sessions_scanned == b.sessions_scanned
    &&& a.total_commands == b.total_commands
    &&& a.already_rtk == b.already_rtk
    &&& a.already_rtk_estimated == b.already_rtk_estimated
    &&& a.measured_since is Some <==> b.measured_since is Some
    &&& a.measured_since is Some ==> a.measured_since->0@ == b.measured_since->0@
    &&& a.since_days == b.since_days
    &&& views(a.supported@) == views(b.supported@)
    &&& views(a.unsupported@) == views(b.unsupported@)
    &&& a.parse_errors == b.parse_errors
    &&& a.rtk_disabled_count == b.rtk_disabled_count
    &&& a.rtk_disabled_estimated == b.rtk_disabled_estimated
    &&& views(a.rtk_disabled_examples@) == views(b.rtk_disabled_examples@)
}

fn most_common_index(counts: &Vec<CommandCount>) -> (r: usize)
    requires
        counts@.len() > 0,
    ensures
        r == most_common(count_views(counts@)),
        r < counts@.len(),
{
    let ghost c = count_views(counts@);
    let mut best: usize = 0;
    let mut i: usize = 1;
    while i < counts.len()
        invariant
            1 <= i <= counts@.len(),
            best < i,
            c == count_views(counts@),
            best == most_common(c.take(i as int)),
        decreases counts@.len() - i,
    {
        proof {
            assert(c.take(i as int + 1).drop_last() =~= c.take(i as int));
            assert(c[i as int] == counts@[i as int]@);
            assert(c[best as int] == counts@[best as int]@);
        }
        if counts[i].count >= counts[best].count {
            best = i;
        }
        i = i + 1;
    }
    assert(c.take(i as int) =~= c);
    best
}

/// The entry of a bucket.
pub fn supported_entry(bucket: &SupportedBucket) -> (entry: SupportedEntry)
    ensures
        entry@ == entry_of(bucket@),
        entry.count == bucket.count,
        entry.rtk_equivalent@ == bucket.rtk_equivalent@,
        entry.category@ == bucket.category@,
        entry.estimated_savings_tokens == bucket.total_output_tokens,
        entry.raw_output_tokens == bucket.total_raw_output_tokens,
{
    let (command, rtk_status) = if bucket.command_counts.len() == 0 {
        (String::new(), RtkStatus::Existing)
    } else {
        let best = most_common_index(&bucket.command_counts);
        assert(count_views(bucket.command_counts@)[best as int]
            == bucket.command_counts@[best as int]@);
        split_status_key(bucket.command_counts[best].command.as_str())
    };
    SupportedEntry {
        command,
        count: bucket.count,
        rtk_equivalent: bucket.rtk_equivalent,
        category: bucket.category,
        estimated_savings_tokens: bucket.total_output_tokens,
        raw_output_tokens: bucket.total_raw_output_tokens,
        rtk_status,
    }
}

/// The entries of the buckets, by what they would have saved.
fn supported_entries(buckets: &Vec<SupportedBucket>) -> (entries: Vec<SupportedEntry>)
    ensures
        is_ranking::<SupportedEntry>(entries_of(supported_views(buckets@)), views(entries@)),
{
    let mut entries: Vec<SupportedEntry> = Vec::new();
    let mut i: usize = 0;
    while i < buckets.len()
        invariant
            i <= buckets@.len(),
            entries@.len() == i,
            forall|j: int| 0 <= j < i ==> (#[trigger] entries@[j])@ == entry_of(buckets@[j]@),
        decreases buckets@.len() - i,
    {
        entries.push(supported_entry(&buckets[i]));
        i = i + 1;
    }
    assert(views(entries@) =~= entries_of(supported_views(buckets@)));
    stable_sort(entries)
}

/// The unsupported commands, by how often they were seen.
fn unsupported_entries(buckets: &Vec<UnsupportedBucket>) -> (entries: Vec<UnsupportedEntry>)
    ensures
        is_ranking::<UnsupportedEntry>(unsupported_views(buckets@), views(entries@)),
{
    let mut entries: Vec<UnsupportedEntry> = Vec::new();
    let mut i: usize = 0;
    while i < buckets.len()
        invariant
            i <= buckets@.len(),
            entries@.len() == i,
            forall|j: int| 0 <= j < i ==> (#[trigger] entries@[j])@ == buckets@[j]@,
        decreases buckets@.len() - i,
    {
        entries.push(
            UnsupportedEntry {
                base_command: buckets[i].base_command.clone(),
                count: buckets[i].count,
                example: buckets[i].example.clone(),
            },
        );
        i = i + 1;
    }
    assert(views(entries@) =~= unsupported_views(buckets@));
    stable_sort(entries)
}

/// The most common of `commands`, with how often they were seen.
fn disabled_examples(commands: Vec<CommandCount>) -> (examples: Vec<String>)
    ensures
        shows_examples(count_views(commands@), views(examples@)),
{
    let ghost input = count_views(commands@);
    assert(views(commands@) =~= input);
    let ranking = stable_sort(commands);
    let n: usize = if ranking.len() < MAX_EXAMPLES {
        ranking.len()
    } else {
        MAX_EXAMPLES
    };
    let mut examples: Vec<String> = Vec::new();
    let mut i: usize = 0;
    while i < n
        invariant
            i <= n <= ranking@.len(),
            examples@.len() == i,
            forall|j: int|
                0 <= j < i ==> (#[trigger] examples@[j])@ == example_text(views(ranking@)[j]),
        decreases n - i,
    {
        let mut text = ranking[i].command.clone();
        text.append(" (");
        text.append(decimal_text(ranking[i].count).as_str());
        text.append("x)");
        assert(views(ranking@)[i as int] == ranking@[i as int]@);
        examples.push(text);
        i = i + 1;
    }
    assert(views(examples@) =~= examples_of(views(ranking@)));
    examples
}

/// The report of the totals of a scan.
pub fn build_report(
    tally: Tally,
    sessions_scanned: usize,
    since_days: u64,
    measured_since: Option<String>,
) -> (r: DiscoverReport)
    ensures
        reports(tally@, r),
        r.sessions_scanned == sessions_scanned,
        r.since_days == since_days,
        r.measured_since == measured_since,
        r.total_commands == tally.total_commands,
        r.already_rtk == tally.already_rtk,
        r.already_rtk_estimated == tally.already_rtk_estimated,
        r.parse_errors == tally.parse_errors,
        r.rtk_disabled_count == tally.rtk_disabled_count,
        r.rtk_disabled_estimated == tally.rtk_disabled_estimated,
        r.supported@.len() == tally.supported@.len(),
        r.unsupported@.len() == tally.unsupported@.len(),
{
    let supported = supported_entries(&tally.supported);
    let unsupported = unsupported_entries(&tally.unsupported);
    DiscoverReport {
        sessions_scanned,
        total_commands: tally.total_commands,
        already_rtk: tally.already_rtk,
        already_rtk_estimated: tally.already_rtk_estimated,
        measured_since,
        since_days,
        supported,
        unsupported,
        parse_errors: tally.parse_errors,
        rtk_disabled_count: tally.rtk_disabled_count,
        rtk_disabled_estimated: tally.rtk_disabled_estimated,
        rtk_disabled_examples: disabled_examples(tally.rtk_disabled_cmds),
    }
}

/// In a ranking of commands that are counted once each, no two tie: of two of them the first was
/// seen more often, or as often and has the lesser text.
pub proof fn law_examples_by_frequency(
    commands: Seq<(Seq<char>, int)>,
    ranking: Seq<(Seq<char>, int)>,
)
    requires
        counts_consistent(commands),
        is_ranking::<CommandCount>(commands, ranking),
    ensures
        ranking.len() == commands.len(),
        forall|i: int, j: int|
            #![trigger ranking[i], ranking[j]]
            0 <= i < j < ranking.len() ==> ranking[i].1 > ranking[j].1 || (ranking[i].1
                == ranking[j].1 && text_less(ranking[i].0, ranking[j].0)),
        examples_of(ranking).len() == (if commands.len() < MAX_EXAMPLES {
            commands.len()
        } else {
            MAX_EXAMPLES as nat
        }),
{
    let p = choose|p: Seq<int>| ranked_by::<CommandCount>(commands, ranking, p);
    let keys = count_keys(commands);
    assert forall|i: int, j: int|
        #![trigger ranking[i], ranking[j]]
        0 <= i < j < ranking.len() implies ranking[i].1 > ranking[j].1 || (ranking[i].1
        == ranking[j].1 && text_less(ranking[i].0, ranking[j].0)) by {
        assert(p[i] != p[j]);
        assert(keys[p[i]] != keys[p[j]]);
        assert(keys[p[i]] == ranking[i].0 && keys[p[j]] == ranking[j].0);
        lemma_text_less_order(ranking[i].0, ranking[j].0, ranking[i].0);
    }
}

/// How many commands the supported entries stand for.
pub open spec fn entry_counts(s: Seq<SupportedEntryView>) -> Seq<int> {
    s.map_values(|e: SupportedEntryView| e.count)
}

/// In a report, entries that save more stand before those that save less, unsupported commands that
/// were seen more often before those that were seen less often.
pub proof fn law_report_descends(t: TallyView, r: DiscoverReport)
    requires
        reports(t, r),
    ensures
        forall|i: int, j: int|
            0 <= i < j < r.supported@.len() ==> (#[trigger] r.supported@[i]).estimated_savings_tokens
                >= (#[trigger] r.supported@[j]).estimated_savings_tokens,
        forall|i: int, j: int|
            0 <= i < j < r.unsupported@.len() ==> (#[trigger] r.unsupported@[i]).count >= (
            #[trigger] r.unsupported@[j]).count,
{
    let s = views(r.supported@);
    let u = views(r.unsupported@);
    assert forall|i: int, j: int| 0 <= i < j < r.supported@.len() implies (
    #[trigger] r.supported@[i]).estimated_savings_tokens >= (
    #[trigger] r.supported@[j]).estimated_savings_tokens by {
        assert(s[i] == r.supported@[i]@ && s[j] == r.supported@[j]@);
    }
    assert forall|i: int, j: int| 0 <= i < j < r.unsupported@.len() implies (
    #[trigger] r.unsupported@[i]).count >= (#[trigger] r.unsupported@[j]).count by {
        assert(u[i] == r.unsupported@[i]@ && u[j] == r.unsupported@[j]@);
    }
}

/// The entries of a report stand for as many commands as the buckets hold. Nothing is reported in
/// two places: covered, bypassed, missed and unsupported commands together are at most all commands,
/// and the numbers that rest on guesses are at most those they are part of.
pub proof fn law_report_adds_up(t: TallyView, r: DiscoverReport)
    requires
        consistent(t),
        reports(t, r),
    ensures
        total(entry_counts(views(r.supported@))) == total(supported_counts(t.supported)),
        total(unsupported_counts(views(r.unsupported@))) == total(
            unsupported_counts(t.unsupported),
        ),
        r.already_rtk + r.rtk_disabled_count + total(entry_counts(views(r.supported@))) + total(
            unsupported_counts(views(r.unsupported@)),
        ) <= r.total_commands,
        r.already_rtk_estimated <= r.already_rtk,
        r.rtk_disabled_estimated <= r.rtk_disabled_count,
{
    let s = entries_of(t.supported);
    let p = choose|p: Seq<int>| ranked_by::<SupportedEntry>(s, views(r.supported@), p);
    let c = supported_counts(t.supported);
    lemma_total_arranged(c, p);
    assert(entry_counts(views(r.supported@)) =~= p.map_values(|i: int| c[i])) by {
        assert forall|i: int| 0 <= i < p.len() implies views(r.supported@)[i].count == c[p[i]] by {
            assert(views(r.supported@)[i] == s[p[i]]);
        }
    }
    let q = choose|q: Seq<int>| ranked_by::<UnsupportedEntry>(t.unsupported, views(r.unsupported@), q);
    let d = unsupported_counts(t.unsupported);
    lemma_total_arranged(d, q);
    assert(unsupported_counts(views(r.unsupported@)) =~= q.map_values(|i: int| d[i])) by {
        assert forall|i: int| 0 <= i < q.len() implies views(r.unsupported@)[i].count
            == d[q[i]] by {
            assert(views(r.unsupported@)[i] == t.unsupported[q[i]]);
        }
    }
}

} // verus!
