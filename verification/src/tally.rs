//! The running totals of a scan.

use vstd::prelude::*;

use crate::command::{already_rtk, is_already_rtk, status_key, status_key_text, truncate_command,
    truncated};
use crate::counting::{
    count_command, count_values, count_views, counted, counts_consistent, lemma_counted,
    lemma_place, lemma_place_is, lemma_total_bounds, lemma_total_push, lemma_total_update, place,
    total, CommandCount,
};
use crate::rules::RtkStatus;
use crate::survey::{
    chain_views, part_views, session_views, Finding, FindingView, PartFacts, PartView,
    SessionFacts, SessionView,
};
use crate::text::same_text;

verus! {

/// The commands that one filter would have covered.
#[derive(Debug)]
pub struct SupportedBucket {
    pub rtk_equivalent: &'static str,
    pub category: &'static str,
    pub count: usize,
    /// The tokens that filtering would have saved.
    pub total_output_tokens: usize,
    /// The tokens before filtering. The share of the first total in this one is the rate that the
    /// bucket as a whole saves, whichever of its commands came first.
    pub total_raw_output_tokens: usize,
    /// How often each command was seen, by its key.
    pub command_counts: Vec<CommandCount>,
}

/// The commands of one name that no filter exists for.
#[derive(Debug)]
pub struct UnsupportedBucket {
    pub base_command: String,
    pub count: usize,
    /// The first of them.
    pub example: String,
}

/// The running totals of a scan.
#[derive(Debug)]
pub struct Tally {
    pub total_commands: usize,
    pub already_rtk: usize,
    pub already_rtk_estimated: usize,
    pub parse_errors: usize,
    pub rtk_disabled_count: usize,
    pub rtk_disabled_estimated: usize,
    pub rtk_disabled_cmds: Vec<CommandCount>,
    pub supported: Vec<SupportedBucket>,
    pub unsupported: Vec<UnsupportedBucket>,
}

/// A total that does not fit in a `usize`.
#[derive(Clone, Copy, Debug, PartialEq, Eq, Structural)]
pub struct TallyOverflow;

/// What a [`SupportedBucket`] holds.
#[verifier::ext_equal]
pub struct SupportedView {
    pub rtk_equivalent: Seq<char>,
    pub category: Seq<char>,
    pub count: int,
    pub total_output_tokens: int,
    pub total_raw_output_tokens: int,
    pub command_counts: Seq<(Seq<char>, int)>,
}

impl View for SupportedBucket {
    type V = SupportedView;

    open spec fn view(&self) -> SupportedView {
        SupportedView {
            rtk_equivalent: self.rtk_equivalent@,
            category: self.category@,
            count: self.count as int,
            total_output_tokens: self.total_output_tokens as int,
            total_raw_output_tokens: self.total_raw_output_tokens as int,
            command_counts: count_views(self.command_counts@),
        }
    }
}

/// What an [`UnsupportedBucket`] holds.
#[verifier::ext_equal]
pub struct UnsupportedView {
    pub base_command: Seq<char>,
    pub count: int,
    pub example: Seq<char>,
}

impl View for UnsupportedBucket {
    type V = UnsupportedView;

    open spec fn view(&self) -> UnsupportedView {
        UnsupportedView {
            base_command: self.base_command@,
            count: self.count as int,
            example: self.example@,
        }
    }
}

/// What a list of supported buckets holds.
pub open spec fn supported_views(s: Seq<SupportedBucket>) -> Seq<SupportedView> {
    s.map_values(|b: SupportedBucket| b@)
}

/// What a list of unsupported buckets holds.
pub open spec fn unsupported_views(s: Seq<UnsupportedBucket>) -> Seq<UnsupportedView> {
    s.map_values(|b: UnsupportedBucket| b@)
}

/// What a [`Tally`] holds. Buckets stand in the order in which they were first needed.
#[verifier::ext_equal]
pub struct TallyView {
    pub total_commands: int,
    pub already_rtk: int,
    pub already_rtk_estimated: int,
    pub parse_errors: int,
    pub rtk_disabled_count: int,
    pub rtk_disabled_estimated: int,
    pub rtk_disabled_cmds: Seq<(Seq<char>, int)>,
    pub supported: Seq<SupportedView>,
    pub unsupported: Seq<UnsupportedView>,
}

impl View for Tally {
    type V = TallyView;

    open spec fn view(&self) -> TallyView {
        TallyView {
            total_commands: self.total_commands as int,
            already_rtk: self.already_rtk as int,
            already_rtk_estimated: self.already_rtk_estimated as int,
            parse_errors: self.parse_errors as int,
            rtk_disabled_count: self.rtk_disabled_count as int,
            rtk_disabled_estimated: self.rtk_disabled_estimated as int,
            rtk_disabled_cmds: count_views(self.rtk_disabled_cmds@),
            supported: supported_views(self.supported@),
            unsupported: unsupported_views(self.unsupported@),
        }
    }
}

/// The filters of the supported buckets.
pub open spec fn supported_keys(s: Seq<SupportedView>) -> Seq<Seq<char>> {
    s.map_values(|b: SupportedView| b.rtk_equivalent)
}

/// How many commands the supported buckets hold.
pub open spec fn supported_counts(s: Seq<SupportedView>) -> Seq<int> {
    s.map_values(|b: SupportedView| b.count)
}

/// The names of the unsupported buckets.
pub open spec fn unsupported_keys(s: Seq<UnsupportedView>) -> Seq<Seq<char>> {
    s.map_values(|b: UnsupportedView| b.base_command)
}

/// How many commands the unsupported buckets hold.
pub open spec fn unsupported_counts(s: Seq<UnsupportedView>) -> Seq<int> {
    s.map_values(|b: UnsupportedView| b.count)
}

/// The commands of a bucket are consistent and add up to its count.
pub open spec fn bucket_consistent(b: SupportedView) -> bool {
    &&& counts_consistent(b.command_counts)
    &&& total(count_values(b.command_counts)) == b.count
    &&& b.count >= 1
    &&& b.command_counts.len() >= 1
    &&& b.total_output_tokens >= 0
    &&& b.total_raw_output_tokens >= 0
}

/// The invariant of the totals: no bucket stands twice, every bucket holds something, what the
/// buckets hold adds up, no part of a total exceeds it, and nothing is counted in two places.
pub open spec fn consistent(t: TallyView) -> bool {
    &&& 0 <= t.already_rtk_estimated <= t.already_rtk
    &&& 0 <= t.rtk_disabled_estimated <= t.rtk_disabled_count
    &&& 0 <= t.parse_errors
    &&& counts_consistent(t.rtk_disabled_cmds)
    &&& total(count_values(t.rtk_disabled_cmds)) == t.rtk_disabled_count
    &&& supported_keys(t.supported).no_duplicates()
    &&& forall|i: int| 0 <= i < t.supported.len() ==> bucket_consistent(#[trigger] t.supported[i])
    &&& unsupported_keys(t.unsupported).no_duplicates()
    &&& forall|i: int| 0 <= i < t.unsupported.len() ==> 1 <= (#[trigger] t.unsupported[i]).count
    &&& t.already_rtk + t.rtk_disabled_count + total(supported_counts(t.supported)) + total(
        unsupported_counts(t.unsupported),
    ) <= t.total_commands
}

/// Whether the totals of the buckets fit in a `usize`.
pub open spec fn buckets_fit(s: Seq<SupportedView>) -> bool {
    forall|i: int|
        0 <= i < s.len() ==> (#[trigger] s[i]).total_output_tokens <= usize::MAX
            && s[i].total_raw_output_tokens <= usize::MAX
}

/// Whether the totals fit in a `usize`. The other numbers are bounded by `total_commands`.
pub open spec fn fits(t: TallyView) -> bool {
    t.total_commands <= usize::MAX && buckets_fit(t.supported)
}

/// The totals before anything was seen.
pub open spec fn nothing() -> TallyView {
    TallyView {
        total_commands: 0,
        already_rtk: 0,
        already_rtk_estimated: 0,
        parse_errors: 0,
        rtk_disabled_count: 0,
        rtk_disabled_estimated: 0,
        rtk_disabled_cmds: seq![],
        supported: seq![],
        unsupported: seq![],
    }
}

/// One or none.
pub open spec fn one_if(b: bool) -> int {
    if b {
        1
    } else {
        0
    }
}

/// The bucket with one more missed command in it.
pub open spec fn with_miss(
    b: SupportedView,
    text: Seq<char>,
    status: RtkStatus,
    raw_tokens: nat,
    saved_tokens: nat,
) -> SupportedView {
    SupportedView {
        count: b.count + 1,
        total_output_tokens: b.total_output_tokens + saved_tokens,
        total_raw_output_tokens: b.total_raw_output_tokens + raw_tokens,
        command_counts: counted(b.command_counts, status_key_text(truncated(text), status)),
        ..b
    }
}

/// A bucket without commands.
pub open spec fn empty_bucket(rtk_equivalent: Seq<char>, category: Seq<char>) -> SupportedView {
    SupportedView {
        rtk_equivalent,
        category,
        count: 0,
        total_output_tokens: 0,
        total_raw_output_tokens: 0,
        command_counts: seq![],
    }
}

/// The supported buckets after a missed command: its filter's bucket holds it, and is made where
/// there was none.
pub open spec fn with_missed(
    s: Seq<SupportedView>,
    rtk_equivalent: Seq<char>,
    category: Seq<char>,
    text: Seq<char>,
    status: RtkStatus,
    raw_tokens: nat,
    saved_tokens: nat,
) -> Seq<SupportedView> {
    let p = place(supported_keys(s), rtk_equivalent);
    if p < s.len() {
        s.update(p, with_miss(s[p], text, status, raw_tokens, saved_tokens))
    } else {
        s.push(
            with_miss(
                empty_bucket(rtk_equivalent, category),
                text,
                status,
                raw_tokens,
                saved_tokens,
            ),
        )
    }
}

/// The unsupported buckets after a command: the bucket of its name counts it, and is made with it
/// as the example where there was none.
pub open spec fn with_unsupported(
    s: Seq<UnsupportedView>,
    base_command: Seq<char>,
    text: Seq<char>,
) -> Seq<UnsupportedView> {
    let p = place(unsupported_keys(s), base_command);
    if p < s.len() {
        s.update(p, UnsupportedView { count: s[p].count + 1, ..s[p] })
    } else {
        s.push(UnsupportedView { base_command, count: 1, example: text })
    }
}

/// The totals after one more command.
///
/// A command in front of which the filter was switched off counts as a bypass where it is supported
/// and would have been covered; otherwise nothing was bypassed. Of the other commands, a supported
/// one was covered or missed, an unsupported one goes to its name's bucket, and one of no interest
/// counts only where it ran the filter itself.
pub open spec fn after_part(t: TallyView, f: PartView) -> TallyView {
    let t = TallyView { total_commands: t.total_commands + 1, ..t };
    match f.finding {
        FindingView::Supported {
            rtk_equivalent,
            category,
            status,
            coverage,
            raw_tokens,
            saved_tokens,
        } => if f.disabled && coverage.covered() {
            TallyView {
                rtk_disabled_count: t.rtk_disabled_count + 1,
                rtk_disabled_estimated: t.rtk_disabled_estimated + one_if(coverage is Estimated),
                rtk_disabled_cmds: counted(t.rtk_disabled_cmds, truncated(f.text)),
                ..t
            }
        } else if f.disabled {
            t
        } else if coverage.covered() {
            TallyView {
                already_rtk: t.already_rtk + 1,
                already_rtk_estimated: t.already_rtk_estimated + one_if(coverage is Estimated),
                ..t
            }
        } else {
            TallyView {
                supported: with_missed(
                    t.supported,
                    rtk_equivalent,
                    category,
                    f.text,
                    status,
                    raw_tokens,
                    saved_tokens,
                ),
                ..t
            }
        },
        FindingView::Unsupported { base_command } => if f.disabled {
            t
        } else {
            TallyView { unsupported: with_unsupported(t.unsupported, base_command, f.text), ..t }
        },
        FindingView::Ignored => TallyView {
            already_rtk: t.already_rtk + one_if(!f.disabled && already_rtk(f.text)),
            ..t
        },
    }
}

/// The totals after a sequence of commands.
pub open spec fn after_parts(t: TallyView, fs: Seq<PartView>) -> TallyView
    decreases fs.len(),
{
    if fs.len() == 0 {
        t
    } else {
        after_part(after_parts(t, fs.drop_last()), fs.last())
    }
}

/// Every command keeps the totals consistent.
pub proof fn law_part_keeps_consistent(t: TallyView, f: PartView)
    requires
        consistent(t),
    ensures
        consistent(after_part(t, f)),
{
    let u = after_part(t, f);
    match f.finding {
        FindingView::Supported {
            rtk_equivalent,
            category,
            status,
            coverage,
            raw_tokens,
            saved_tokens,
        } => {
            if f.disabled && coverage.covered() {
                lemma_counted(t.rtk_disabled_cmds, truncated(f.text));
            } else if !f.disabled && !coverage.covered() {
                let keys = supported_keys(t.supported);
                let p = place(keys, rtk_equivalent);
                lemma_place(keys, rtk_equivalent);
                let key = status_key_text(truncated(f.text), status);
                if p < t.supported.len() {
                    assert(keys[p] == t.supported[p].rtk_equivalent);
                    lemma_counted(t.supported[p].command_counts, key);
                    assert(supported_keys(u.supported) =~= keys);
                    assert(supported_counts(u.supported) =~= supported_counts(t.supported).update(
                        p,
                        t.supported[p].count + 1,
                    ));
                    lemma_total_update(
                        supported_counts(t.supported),
                        p,
                        t.supported[p].count + 1,
                    );
                } else {
                    assert(count_values(seq![]) =~= Seq::<int>::empty());
                    lemma_counted(seq![], key);
                    assert(supported_keys(u.supported) =~= keys.push(rtk_equivalent));
                    lemma_push_distinct(keys, rtk_equivalent);
                    assert(supported_counts(u.supported) =~= supported_counts(t.supported).push(1));
                    lemma_total_push(supported_counts(t.supported), 1);
                }
            }
        },
        FindingView::Unsupported { base_command } => {
            if !f.disabled {
                let keys = unsupported_keys(t.unsupported);
                let p = place(keys, base_command);
                lemma_place(keys, base_command);
                if p < t.unsupported.len() {
                    assert(unsupported_keys(u.unsupported) =~= keys);
                    assert(unsupported_counts(u.unsupported) =~= unsupported_counts(
                        t.unsupported,
                    ).update(p, t.unsupported[p].count + 1));
                    lemma_total_update(
                        unsupported_counts(t.unsupported),
                        p,
                        t.unsupported[p].count + 1,
                    );
                } else {
                    assert(unsupported_keys(u.unsupported) =~= keys.push(base_command));
                    lemma_push_distinct(keys, base_command);
                    assert(unsupported_counts(u.unsupported) =~= unsupported_counts(
                        t.unsupported,
                    ).push(1));
                    lemma_total_push(unsupported_counts(t.unsupported), 1);
                }
            }
        },
        FindingView::Ignored => {},
    }
}

proof fn lemma_push_distinct(keys: Seq<Seq<char>>, k: Seq<char>)
    requires
        keys.no_duplicates(),
        !keys.contains(k),
    ensures
        keys.push(k).no_duplicates(),
{
    let d = keys.push(k);
    assert forall|i: int, j: int|
        0 <= i < d.len() && 0 <= j < d.len() && i != j implies d[i] != d[j] by {
        if i < keys.len() {
            assert(keys[i] == d[i]);
        }
        if j < keys.len() {
            assert(keys[j] == d[j]);
        }
    }
}

pub proof fn lemma_nothing_consistent()
    ensures
        consistent(nothing()),
        fits(nothing()),
{
    let t = nothing();
    assert(count_values(t.rtk_disabled_cmds) =~= Seq::<int>::empty());
    assert(supported_counts(t.supported) =~= Seq::<int>::empty());
    assert(unsupported_counts(t.unsupported) =~= Seq::<int>::empty());
}

/// A total that does not fit is not mended by what comes later.
proof fn lemma_part_keeps_misfit(t: TallyView, f: PartView)
    requires
        fits(after_part(t, f)),
    ensures
        fits(t),
{
    let u = after_part(t, f);
    if f.finding is Supported {
        lemma_place(supported_keys(t.supported), f.finding->rtk_equivalent);
    }
    assert forall|i: int| 0 <= i < t.supported.len() implies (
    #[trigger] t.supported[i]).total_output_tokens <= usize::MAX
        && t.supported[i].total_raw_output_tokens <= usize::MAX by {
        assert(i < u.supported.len());
        assert(t.supported[i].total_output_tokens <= u.supported[i].total_output_tokens);
        assert(t.supported[i].total_raw_output_tokens <= u.supported[i].total_raw_output_tokens);
    }
}

/// What is counted is bounded by the number of commands.
proof fn lemma_totals(t: TallyView)
    requires
        consistent(t),
    ensures
        t.already_rtk <= t.total_commands,
        t.rtk_disabled_count <= t.total_commands,
        forall|i: int| 0 <= i < t.supported.len() ==> (#[trigger] t.supported[i]).count <= t.total_commands,
        forall|i: int|
            0 <= i < t.unsupported.len() ==> (#[trigger] t.unsupported[i]).count <= t.total_commands,
        0 <= t.total_commands,
{
    let s = supported_counts(t.supported);
    let u = unsupported_counts(t.unsupported);
    assert forall|i: int| 0 <= i < s.len() implies 0 <= #[trigger] s[i] by {
        assert(bucket_consistent(t.supported[i]));
    }
    assert forall|i: int| 0 <= i < u.len() implies 0 <= #[trigger] u[i] by {
        assert(1 <= t.unsupported[i].count);
    }
    lemma_total_bounds(s);
    lemma_total_bounds(u);
    assert forall|i: int| 0 <= i < t.supported.len() implies (#[trigger] t.supported[i]).count
        <= t.total_commands by {
        assert(s[i] == t.supported[i].count);
    }
    assert forall|i: int| 0 <= i < t.unsupported.len() implies (#[trigger] t.unsupported[i]).count
        <= t.total_commands by {
        assert(u[i] == t.unsupported[i].count);
    }
}

/// Adds a missed command to the bucket of its filter, where the totals of the bucket still fit.
fn add_missed(
    buckets: &mut Vec<SupportedBucket>,
    rtk_equivalent: &'static str,
    category: &'static str,
    text: &str,
    status: RtkStatus,
    raw_tokens: usize,
    saved_tokens: usize,
) -> (stored: bool)
    requires
        forall|i: int|
            0 <= i < old(buckets)@.len() ==> bucket_consistent(
                #[trigger] supported_views(old(buckets)@)[i],
            ) && supported_views(old(buckets)@)[i].count < usize::MAX,
    ensures
        stored == buckets_fit(
            with_missed(
                supported_views(old(buckets)@),
                rtk_equivalent@,
                category@,
                text@,
                status,
                raw_tokens as nat,
                saved_tokens as nat,
            ),
        ),
        stored ==> supported_views(final(buckets)@) == with_missed(
            supported_views(old(buckets)@),
            rtk_equivalent@,
            category@,
            text@,
            status,
            raw_tokens as nat,
            saved_tokens as nat,
        ),
        !stored ==> supported_views(final(buckets)@) == supported_views(old(buckets)@),
{
    let ghost before = supported_views(buckets@);
    let ghost after = with_missed(
        before,
        rtk_equivalent@,
        category@,
        text@,
        status,
        raw_tokens as nat,
        saved_tokens as nat,
    );
    let mut i: usize = 0;
    while i < buckets.len() && !same_text(buckets[i].rtk_equivalent, rtk_equivalent)
        invariant
            i <= buckets@.len(),
            before == supported_views(buckets@),
            forall|j: int| 0 <= j < i ==> #[trigger] supported_keys(before)[j] != rtk_equivalent@,
        decreases buckets@.len() - i,
    {
        assert(supported_keys(before)[i as int] == buckets@[i as int].rtk_equivalent@);
        i = i + 1;
    }
    proof {
        if i < buckets@.len() {
            assert(supported_keys(before)[i as int] == buckets@[i as int].rtk_equivalent@);
        }
        lemma_place_is(supported_keys(before), rtk_equivalent@, i as int);
        assert forall|j: int| 0 <= j < before.len() implies (
        #[trigger] before[j]).total_output_tokens <= usize::MAX
            && before[j].total_raw_output_tokens <= usize::MAX by {
            assert(before[j] == buckets@[j]@);
        }
    }
    let key = status_key(truncate_command(text).as_str(), status);
    if i < buckets.len() {
        assert(before[i as int] == buckets@[i as int]@);
        assert(after[i as int] == with_miss(
            before[i as int],
            text@,
            status,
            raw_tokens as nat,
            saved_tokens as nat,
        ));
        let bucket = &mut buckets[i];
        if bucket.total_output_tokens > usize::MAX - saved_tokens || bucket.total_raw_output_tokens
            > usize::MAX - raw_tokens {
            return false;
        }
        bucket.count = bucket.count + 1;
        bucket.total_output_tokens = bucket.total_output_tokens + saved_tokens;
        bucket.total_raw_output_tokens = bucket.total_raw_output_tokens + raw_tokens;
        count_command(&mut bucket.command_counts, key);
    } else {
        let mut command_counts: Vec<CommandCount> = Vec::new();
        proof {
            assert(count_views(command_counts@) =~= seq![]);
            assert(count_values(seq![]) =~= Seq::<int>::empty());
        }
        count_command(&mut command_counts, key);
        buckets.push(
            SupportedBucket {
                rtk_equivalent,
                category,
                count: 1,
                total_output_tokens: saved_tokens,
                total_raw_output_tokens: raw_tokens,
                command_counts,
            },
        );
    }
    proof {
        assert(supported_views(buckets@) =~= after);
        assert(buckets_fit(after)) by {
            assert forall|j: int| 0 <= j < after.len() implies (
            #[trigger] after[j]).total_output_tokens <= usize::MAX
                && after[j].total_raw_output_tokens <= usize::MAX by {
                assert(after[j] == buckets@[j]@);
            }
        }
    }
    true
}

/// Adds a command that no filter exists for to the bucket of its name.
fn add_unsupported(buckets: &mut Vec<UnsupportedBucket>, base_command: &String, text: &String)
    requires
        forall|i: int|
            0 <= i < old(buckets)@.len() ==> (#[trigger] unsupported_views(
                old(buckets)@,
            )[i]).count < usize::MAX,
    ensures
        unsupported_views(final(buckets)@) == with_unsupported(
            unsupported_views(old(buckets)@),
            base_command@,
            text@,
        ),
{
    let ghost before = unsupported_views(buckets@);
    let mut i: usize = 0;
    while i < buckets.len() && buckets[i].base_command != *base_command
        invariant
            i <= buckets@.len(),
            before == unsupported_views(buckets@),
            forall|j: int| 0 <= j < i ==> #[trigger] unsupported_keys(before)[j] != base_command@,
        decreases buckets@.len() - i,
    {
        assert(unsupported_keys(before)[i as int] == buckets@[i as int].base_command@);
        i = i + 1;
    }
    proof {
        if i < buckets@.len() {
            assert(unsupported_keys(before)[i as int] == buckets@[i as int].base_command@);
            assert(before[i as int] == buckets@[i as int]@);
        }
        lemma_place_is(unsupported_keys(before), base_command@, i as int);
    }
    if i < buckets.len() {
        let bucket = &mut buckets[i];
        bucket.count = bucket.count + 1;
    } else {
        buckets.push(
            UnsupportedBucket {
                base_command: base_command.clone(),
                count: 1,
                example: text.clone(),
            },
        );
    }
    assert(unsupported_views(buckets@) =~= with_unsupported(before, base_command@, text@));
}

impl Tally {
    /// The totals before anything was seen.
    pub fn new() -> (t: Self)
        ensures
            t@ == nothing(),
            consistent(t@),
            fits(t@),
    {
        let t = Tally {
            total_commands: 0,
            already_rtk: 0,
            already_rtk_estimated: 0,
            parse_errors: 0,
            rtk_disabled_count: 0,
            rtk_disabled_estimated: 0,
            rtk_disabled_cmds: Vec::new(),
            supported: Vec::new(),
            unsupported: Vec::new(),
        };
        proof {
            assert(t@ =~= nothing());
            lemma_nothing_consistent();
        }
        t
    }

    /// Adds one command to the totals, or leaves them as they are where a total would not fit.
    pub fn record_part(&mut self, facts: &PartFacts) -> (r: Result<(), TallyOverflow>)
        requires
            consistent(old(self)@),
        ensures
            consistent(final(self)@),
            r is Ok <==> fits(after_part(old(self)@, facts@)),
            r is Ok ==> final(self)@ == after_part(old(self)@, facts@),
            r is Err ==> final(self)@ == old(self)@,
    {
        let ghost before = self@;
        proof {
            law_part_keeps_consistent(before, facts@);
            lemma_totals(before);
        }
        if self.total_commands == usize::MAX {
            return Err(TallyOverflow);
        }
        match &facts.finding {
            Finding::Supported {
                rtk_equivalent,
                category,
                status,
                coverage,
                raw_tokens,
                saved_tokens,
            } => {
                if facts.disabled {
                    self.total_commands = self.total_commands + 1;
                    if coverage.is_covered() {
                        self.rtk_disabled_count = self.rtk_disabled_count + 1;
                        if coverage.is_estimated() {
                            self.rtk_disabled_estimated = self.rtk_disabled_estimated + 1;
                        }
                        let display = truncate_command(facts.text.as_str());
                        count_command(&mut self.rtk_disabled_cmds, display);
                    }
                } else if coverage.is_covered() {
                    self.total_commands = self.total_commands + 1;
                    self.already_rtk = self.already_rtk + 1;
                    if coverage.is_estimated() {
                        self.already_rtk_estimated = self.already_rtk_estimated + 1;
                    }
                } else {
                    let stored = add_missed(
                        &mut self.supported,
                        *rtk_equivalent,
                        *category,
                        facts.text.as_str(),
                        *status,
                        *raw_tokens,
                        *saved_tokens,
                    );
                    if !stored {
                        return Err(TallyOverflow);
                    }
                    self.total_commands = self.total_commands + 1;
                }
            },
            Finding::Unsupported { base_command } => {
                self.total_commands = self.total_commands + 1;
                if !facts.disabled {
                    add_unsupported(&mut self.unsupported, base_command, &facts.text);
                }
            },
            Finding::Ignored => {
                self.total_commands = self.total_commands + 1;
                if !facts.disabled && is_already_rtk(facts.text.as_str()) {
                    self.already_rtk = self.already_rtk + 1;
                }
            },
        }
        assert(self@ =~= after_part(before, facts@));
        Ok(())
    }
}

/// The commands of a session's command lines, one after the other.
pub open spec fn joined(chains: Seq<Seq<PartView>>) -> Seq<PartView>
    decreases chains.len(),
{
    if chains.len() == 0 {
        seq![]
    } else {
        joined(chains.drop_last()) + chains.last()
    }
}

/// The commands of a session, in their order. A session that could not be read has none.
pub open spec fn session_parts(session: SessionView) -> Seq<PartView> {
    match session {
        SessionView::Unreadable => seq![],
        SessionView::Commands(chains) => joined(chains),
    }
}

/// The commands of all sessions, in their order.
pub open spec fn all_parts(sessions: Seq<SessionView>) -> Seq<PartView>
    decreases sessions.len(),
{
    if sessions.len() == 0 {
        seq![]
    } else {
        all_parts(sessions.drop_last()) + session_parts(sessions.last())
    }
}

/// How many sessions could not be read.
pub open spec fn unreadable(sessions: Seq<SessionView>) -> int
    decreases sessions.len(),
{
    if sessions.len() == 0 {
        0
    } else {
        unreadable(sessions.drop_last()) + one_if(sessions.last() is Unreadable)
    }
}

/// The totals of all sessions.
pub open spec fn tallied(sessions: Seq<SessionView>) -> TallyView {
    TallyView { parse_errors: unreadable(sessions), ..after_parts(nothing(), all_parts(sessions)) }
}

/// One sequence of commands after another adds to the totals what both together do.
pub proof fn lemma_after_parts_add(t: TallyView, a: Seq<PartView>, b: Seq<PartView>)
    ensures
        after_parts(t, a + b) == after_parts(after_parts(t, a), b),
    decreases b.len(),
{
    if b.len() == 0 {
        assert(a + b =~= a);
    } else {
        assert((a + b).drop_last() =~= a + b.drop_last());
        lemma_after_parts_add(t, a, b.drop_last());
    }
}

proof fn lemma_parts_keep_misfit(t: TallyView, fs: Seq<PartView>)
    requires
        fits(after_parts(t, fs)),
    ensures
        fits(t),
    decreases fs.len(),
{
    if fs.len() > 0 {
        lemma_part_keeps_misfit(after_parts(t, fs.drop_last()), fs.last());
        lemma_parts_keep_misfit(t, fs.drop_last());
    }
}

proof fn lemma_parts_ignore_parse_errors(t: TallyView, n: int, fs: Seq<PartView>)
    ensures
        after_parts(TallyView { parse_errors: n, ..t }, fs) == (TallyView {
            parse_errors: n,
            ..after_parts(t, fs)
        }),
    decreases fs.len(),
{
    if fs.len() > 0 {
        lemma_parts_ignore_parse_errors(t, n, fs.drop_last());
    }
}

impl Tally {
    /// Adds the commands of a chain. Where a total does not fit, some of them may have been added.
    fn record_chain(&mut self, chain: &Vec<PartFacts>) -> (r: Result<(), TallyOverflow>)
        requires
            consistent(old(self)@),
        ensures
            consistent(final(self)@),
            r is Ok <==> fits(after_parts(old(self)@, part_views(chain@))),
            r is Ok ==> final(self)@ == after_parts(old(self)@, part_views(chain@)),
    {
        let ghost before = self@;
        let ghost parts = part_views(chain@);
        proof {
            lemma_view_fits(self);
        }
        let mut i: usize = 0;
        while i < chain.len()
            invariant
                i <= chain@.len(),
                before == old(self)@,
                parts == part_views(chain@),
                consistent(self@),
                fits(self@),
                self@ == after_parts(before, parts.take(i as int)),
            decreases chain@.len() - i,
        {
            let ghost done = parts.take(i as int + 1);
            proof {
                assert(done.drop_last() =~= parts.take(i as int));
                assert(done.last() == chain@[i as int]@);
                assert(parts =~= done + parts.skip(i as int + 1));
            }
            if self.record_part(&chain[i]).is_err() {
                proof {
                    lemma_after_parts_add(before, done, parts.skip(i as int + 1));
                    if fits(after_parts(before, parts)) {
                        lemma_parts_keep_misfit(
                            after_parts(before, done),
                            parts.skip(i as int + 1),
                        );
                    }
                }
                return Err(TallyOverflow);
            }
            i = i + 1;
        }
        assert(parts.take(i as int) =~= parts);
        Ok(())
    }

    /// Adds the command lines of a session.
    fn record_chains(&mut self, chains: &Vec<Vec<PartFacts>>) -> (r: Result<(), TallyOverflow>)
        requires
            consistent(old(self)@),
        ensures
            consistent(final(self)@),
            r is Ok <==> fits(after_parts(old(self)@, joined(chain_views(chains@)))),
            r is Ok ==> final(self)@ == after_parts(old(self)@, joined(chain_views(chains@))),
    {
        let ghost before = self@;
        let ghost views = chain_views(chains@);
        proof {
            lemma_view_fits(self);
        }
        let mut i: usize = 0;
        while i < chains.len()
            invariant
                i <= chains@.len(),
                before == old(self)@,
                views == chain_views(chains@),
                consistent(self@),
                fits(self@),
                self@ == after_parts(before, joined(views.take(i as int))),
            decreases chains@.len() - i,
        {
            let ghost done = views.take(i as int + 1);
            proof {
                assert(done.drop_last() =~= views.take(i as int));
                assert(done.last() == part_views(chains@[i as int]@));
                lemma_after_parts_add(before, joined(views.take(i as int)), done.last());
            }
            if self.record_chain(&chains[i]).is_err() {
                proof {
                    lemma_joined_split(views, i as int + 1);
                    let rest = joined(views.skip(i as int + 1));
                    lemma_after_parts_add(before, joined(done), rest);
                    if fits(after_parts(before, joined(views))) {
                        lemma_parts_keep_misfit(after_parts(before, joined(done)), rest);
                    }
                }
                return Err(TallyOverflow);
            }
            proof {
                lemma_view_fits(self);
            }
            i = i + 1;
        }
        assert(views.take(i as int) =~= views);
        Ok(())
    }
}

proof fn lemma_joined_split(chains: Seq<Seq<PartView>>, n: int)
    requires
        0 <= n <= chains.len(),
    ensures
        joined(chains) == joined(chains.take(n)) + joined(chains.skip(n)),
    decreases chains.len() - n,
{
    if n == chains.len() {
        assert(chains.take(n) =~= chains);
        assert(joined(chains) + joined(chains.skip(n)) =~= joined(chains));
    } else {
        let head = chains.drop_last();
        lemma_joined_split(head, n);
        assert(head.take(n) =~= chains.take(n));
        assert(head.skip(n) =~= chains.skip(n).drop_last());
        assert(chains.skip(n).last() == chains.last());
        assert(joined(chains) =~= joined(chains.take(n)) + joined(chains.skip(n)));
    }
}

proof fn lemma_all_parts_split(sessions: Seq<SessionView>, n: int)
    requires
        0 <= n <= sessions.len(),
    ensures
        all_parts(sessions) == all_parts(sessions.take(n)) + all_parts(sessions.skip(n)),
    decreases sessions.len() - n,
{
    if n == sessions.len() {
        assert(sessions.take(n) =~= sessions);
        assert(all_parts(sessions) + all_parts(sessions.skip(n)) =~= all_parts(sessions));
    } else {
        let head = sessions.drop_last();
        lemma_all_parts_split(head, n);
        assert(head.take(n) =~= sessions.take(n));
        assert(head.skip(n) =~= sessions.skip(n).drop_last());
        assert(sessions.skip(n).last() == sessions.last());
        assert(all_parts(sessions) =~= all_parts(sessions.take(n)) + all_parts(sessions.skip(n)));
    }
}

proof fn lemma_view_fits(t: &Tally)
    ensures
        fits(t@),
{
    assert forall|i: int| 0 <= i < t@.supported.len() implies (
    #[trigger] t@.supported[i]).total_output_tokens <= usize::MAX
        && t@.supported[i].total_raw_output_tokens <= usize::MAX by {
        assert(t@.supported[i] == t.supported@[i]@);
    }
}

/// The totals of all sessions, or an error where one of them does not fit in a `usize`.
pub fn tally(sessions: &Vec<SessionFacts>) -> (r: Result<Tally, TallyOverflow>)
    ensures
        r is Ok <==> fits(tallied(session_views(sessions@))),
        r matches Ok(t) ==> t@ == tallied(session_views(sessions@)) && consistent(t@),
{
    let ghost views = session_views(sessions@);
    let mut t = Tally::new();
    let mut i: usize = 0;
    proof {
        assert(views.take(0) =~= seq![]);
        assert(t@ =~= tallied(views.take(0)));
    }
    while i < sessions.len()
        invariant
            i <= sessions@.len(),
            views == session_views(sessions@),
            consistent(t@),
            fits(t@),
            0 <= t@.parse_errors <= i,
            t@ == tallied(views.take(i as int)),
        decreases sessions@.len() - i,
    {
        let ghost before = t@;
        let ghost done = views.take(i as int + 1);
        let ghost parts = all_parts(views.take(i as int));
        let ghost errors = t@.parse_errors;
        proof {
            assert(done.drop_last() =~= views.take(i as int));
            assert(done.last() == sessions@[i as int]@);
        }
        match &sessions[i] {
            SessionFacts::Unreadable => {
                t.parse_errors = t.parse_errors + 1;
                proof {
                    assert(all_parts(done) =~= parts);
                    assert(t@ =~= tallied(done));
                }
            },
            SessionFacts::Commands(chains) => {
                let ghost new_parts = joined(chain_views(chains@));
                proof {
                    assert(all_parts(done) == parts + new_parts);
                    lemma_after_parts_add(nothing(), parts, new_parts);
                    lemma_parts_ignore_parse_errors(
                        after_parts(nothing(), parts),
                        errors,
                        new_parts,
                    );
                    assert(after_parts(before, new_parts) == tallied(done));
                }
                if t.record_chains(chains).is_err() {
                    proof {
                        lemma_all_parts_split(views, i as int + 1);
                        let rest = all_parts(views.skip(i as int + 1));
                        lemma_after_parts_add(nothing(), all_parts(done), rest);
                        if fits(tallied(views)) {
                            lemma_parts_keep_misfit(
                                after_parts(nothing(), all_parts(done)),
                                rest,
                            );
                        }
                    }
                    return Err(TallyOverflow);
                }
            },
        }
        proof {
            lemma_view_fits(&t);
        }
        i = i + 1;
    }
    assert(views.take(i as int) =~= views);
    proof {
        lemma_view_fits(&t);
    }
    Ok(t)
}

} // verus!
