//! What the totals of a scan count: each of them, told from the commands that were scanned.

use vstd::prelude::*;

use crate::command::{already_rtk, law_status_key_round_trip, status_key_text, truncated};
use crate::counting::{
    count_keys, count_of, counted, lemma_count_of_counted, lemma_place, lemma_place_is,
    lemma_total_push, lemma_total_update, place, total,
};
use crate::ranking::{is_arrangement, lemma_total_arranged};
use crate::report::{law_most_common, most_common, shown_command};
use crate::survey::{PartView, SessionView};
use crate::tally::{
    after_parts, all_parts, consistent, law_part_keeps_consistent, lemma_nothing_consistent,
    nothing, supported_counts, supported_keys, tallied, unreadable, unsupported_counts,
    unsupported_keys, TallyView,
};

verus! {

/// How many of the commands `p` holds of.
pub open spec fn how_many(fs: Seq<PartView>, p: spec_fn(PartView) -> bool) -> int
    decreases fs.len(),
{
    if fs.len() == 0 {
        0
    } else {
        how_many(fs.drop_last(), p) + if p(fs.last()) {
            1int
        } else {
            0
        }
    }
}

/// The sum of `v` over the commands that `p` holds of.
pub open spec fn amount(
    fs: Seq<PartView>,
    p: spec_fn(PartView) -> bool,
    v: spec_fn(PartView) -> int,
) -> int
    decreases fs.len(),
{
    if fs.len() == 0 {
        0
    } else {
        amount(fs.drop_last(), p, v) + if p(fs.last()) {
            v(fs.last())
        } else {
            0
        }
    }
}

/// The position of the first command that `p` holds of, or the number of commands.
pub open spec fn first_where(fs: Seq<PartView>, p: spec_fn(PartView) -> bool) -> int
    decreases fs.len(),
{
    if fs.len() == 0 {
        0
    } else {
        let i = first_where(fs.drop_last(), p);
        if i < fs.len() - 1 || p(fs.last()) {
            i
        } else {
            fs.len() as int
        }
    }
}

/// A supported command that would have been covered, had the filter not been switched off.
pub open spec fn is_bypass(f: PartView) -> bool {
    f.disabled && f.finding is Supported && f.finding->coverage.covered()
}

/// A supported command that was covered.
pub open spec fn is_covered(f: PartView) -> bool {
    !f.disabled && f.finding is Supported && f.finding->coverage.covered()
}

/// A supported command that was not covered.
pub open spec fn is_missed(f: PartView) -> bool {
    !f.disabled && f.finding is Supported && !f.finding->coverage.covered()
}

/// A command that no filter exists for.
pub open spec fn is_unsupported(f: PartView) -> bool {
    !f.disabled && f.finding is Unsupported
}

/// A command that ran the filter itself.
pub open spec fn is_direct(f: PartView) -> bool {
    !f.disabled && f.finding is Ignored && already_rtk(f.text)
}

/// A command that only the number of all commands counts.
pub open spec fn is_passed_over(f: PartView) -> bool {
    !is_bypass(f) && !is_covered(f) && !is_missed(f) && !is_unsupported(f) && !is_direct(f)
}

/// A missed command whose filter is `rtk_equivalent`.
pub open spec fn missed_by(rtk_equivalent: Seq<char>) -> spec_fn(PartView) -> bool {
    |f: PartView| is_missed(f) && f.finding->rtk_equivalent == rtk_equivalent
}

/// The key under which a supported command is counted.
pub open spec fn key_of(f: PartView) -> Seq<char> {
    status_key_text(truncated(f.text), f.finding->status)
}

/// A missed command whose filter is `rtk_equivalent` and whose key is `key`.
pub open spec fn missed_as(rtk_equivalent: Seq<char>, key: Seq<char>) -> spec_fn(PartView) -> bool {
    |f: PartView| is_missed(f) && f.finding->rtk_equivalent == rtk_equivalent && key_of(f) == key
}

/// An unsupported command named `base_command`.
pub open spec fn unsupported_as(base_command: Seq<char>) -> spec_fn(PartView) -> bool {
    |f: PartView| is_unsupported(f) && f.finding->base_command == base_command
}

/// A bypass that is shown as `display`.
pub open spec fn bypassed_as(display: Seq<char>) -> spec_fn(PartView) -> bool {
    |f: PartView| is_bypass(f) && truncated(f.text) == display
}

/// The totals of a sequence of commands.
pub open spec fn totals(fs: Seq<PartView>) -> TallyView {
    after_parts(nothing(), fs)
}

/// The first command that `p` holds of is the first one, and there is one where `p` holds of any.
pub proof fn lemma_first_where(fs: Seq<PartView>, p: spec_fn(PartView) -> bool)
    ensures
        0 <= first_where(fs, p) <= fs.len(),
        first_where(fs, p) < fs.len() <==> how_many(fs, p) > 0,
        first_where(fs, p) < fs.len() ==> p(fs[first_where(fs, p)]),
        forall|i: int| 0 <= i < first_where(fs, p) ==> !p(#[trigger] fs[i]),
{
    lemma_how_many_bounds(fs, p);
}

proof fn lemma_how_many_bounds(fs: Seq<PartView>, p: spec_fn(PartView) -> bool)
    ensures
        0 <= how_many(fs, p) <= fs.len(),
        0 <= first_where(fs, p) <= fs.len(),
        first_where(fs, p) < fs.len() <==> how_many(fs, p) > 0,
        first_where(fs, p) < fs.len() ==> p(fs[first_where(fs, p)]),
        forall|i: int| 0 <= i < first_where(fs, p) ==> !p(#[trigger] fs[i]),
    decreases fs.len(),
{
    if fs.len() > 0 {
        let head = fs.drop_last();
        lemma_how_many_bounds(head, p);
        assert forall|i: int| 0 <= i < first_where(fs, p) implies !p(#[trigger] fs[i]) by {
            if i < head.len() {
                assert(fs[i] == head[i]);
            }
        }
        if first_where(head, p) < head.len() {
            assert(fs[first_where(head, p)] == head[first_where(head, p)]);
        }
    }
}

/// Every state that a scan goes through is consistent.
pub proof fn law_totals_consistent(fs: Seq<PartView>)
    ensures
        consistent(totals(fs)),
    decreases fs.len(),
{
    if fs.len() == 0 {
        lemma_nothing_consistent();
    } else {
        law_totals_consistent(fs.drop_last());
        law_part_keeps_consistent(totals(fs.drop_last()), fs.last());
    }
}

/// Every command is counted, and the numbers of covered and of bypassed commands, and of those of
/// them that rest on a guess, are what they say.
pub proof fn law_counters(fs: Seq<PartView>)
    ensures
        totals(fs).total_commands == fs.len(),
        totals(fs).already_rtk == how_many(fs, |f: PartView| is_covered(f)) + how_many(
            fs,
            |f: PartView| is_direct(f),
        ),
        totals(fs).already_rtk_estimated == how_many(
            fs,
            |f: PartView| is_covered(f) && f.finding->coverage is Estimated,
        ),
        totals(fs).rtk_disabled_count == how_many(fs, |f: PartView| is_bypass(f)),
        totals(fs).rtk_disabled_estimated == how_many(
            fs,
            |f: PartView| is_bypass(f) && f.finding->coverage is Estimated,
        ),
    decreases fs.len(),
{
    if fs.len() > 0 {
        law_counters(fs.drop_last());
    }
}

/// The bucket of a filter stands where a command was missed that it would have covered. It holds
/// the number of those commands, the category of the first of them and the sums of their tokens,
/// and counts each of their keys.
pub proof fn law_missed_commands(fs: Seq<PartView>, rtk_equivalent: Seq<char>)
    ensures
        ({
            let s = totals(fs).supported;
            let i = place(supported_keys(s), rtk_equivalent);
            let missed = missed_by(rtk_equivalent);
            &&& i < s.len() <==> how_many(fs, missed) > 0
            &&& i < s.len() ==> {
                &&& s[i].rtk_equivalent == rtk_equivalent
                &&& s[i].category == fs[first_where(fs, missed)].finding->category
                &&& s[i].count == how_many(fs, missed)
                &&& s[i].total_output_tokens == amount(
                    fs,
                    missed,
                    |f: PartView| f.finding->saved_tokens as int,
                )
                &&& s[i].total_raw_output_tokens == amount(
                    fs,
                    missed,
                    |f: PartView| f.finding->raw_tokens as int,
                )
                &&& forall|key: Seq<char>| #[trigger]
                    count_of(s[i].command_counts, key) == how_many(
                        fs,
                        missed_as(rtk_equivalent, key),
                    )
            }
        }),
    decreases fs.len(),
{
    let missed = missed_by(rtk_equivalent);
    lemma_how_many_bounds(fs, missed);
    if fs.len() > 0 {
        let head = fs.drop_last();
        let f = fs.last();
        lemma_how_many_bounds(head, missed);
        law_missed_commands(head, rtk_equivalent);
        let s = totals(head).supported;
        let t = totals(fs).supported;
        let i = place(supported_keys(s), rtk_equivalent);
        lemma_place(supported_keys(s), rtk_equivalent);
        if first_where(head, missed) < head.len() {
            assert(fs[first_where(head, missed)] == head[first_where(head, missed)]);
        }
        if is_missed(f) {
            let e = f.finding->rtk_equivalent;
            let p = place(supported_keys(s), e);
            lemma_place(supported_keys(s), e);
            if p < s.len() {
                assert(supported_keys(s)[p] == s[p].rtk_equivalent);
                assert(supported_keys(t) =~= supported_keys(s));
            } else {
                assert(supported_keys(t) =~= supported_keys(s).push(e));
                if i < s.len() {
                    lemma_place_is(supported_keys(t), rtk_equivalent, i);
                } else if e == rtk_equivalent {
                    lemma_place_is(supported_keys(t), rtk_equivalent, s.len() as int);
                    lemma_no_misses(head, rtk_equivalent);
                } else {
                    lemma_place_is(supported_keys(t), rtk_equivalent, s.len() as int + 1);
                }
            }
            if e == rtk_equivalent {
                let c = if p < s.len() {
                    s[p].command_counts
                } else {
                    seq![]
                };
                assert forall|key: Seq<char>| #[trigger]
                    count_of(t[p].command_counts, key) == how_many(
                    fs,
                    missed_as(rtk_equivalent, key),
                ) by {
                    lemma_count_of_counted(c, key_of(f), key);
                    assert(t[p].command_counts == counted(c, key_of(f)));
                    assert(how_many(fs, missed_as(rtk_equivalent, key)) == how_many(
                        head,
                        missed_as(rtk_equivalent, key),
                    ) + if key_of(f) == key {
                        1int
                    } else {
                        0
                    });
                    if p < s.len() {
                        assert(count_of(s[p].command_counts, key) == how_many(
                            head,
                            missed_as(rtk_equivalent, key),
                        ));
                    } else {
                        lemma_no_misses_as(head, rtk_equivalent, key);
                        assert(count_keys(c) =~= seq![]);
                    }
                }
            } else if i < s.len() {
                assert(t[i] == s[i]);
                assert forall|key: Seq<char>| #[trigger]
                    count_of(t[i].command_counts, key) == how_many(
                    fs,
                    missed_as(rtk_equivalent, key),
                ) by {
                    assert(count_of(s[i].command_counts, key) == how_many(
                        head,
                        missed_as(rtk_equivalent, key),
                    ));
                }
            }
        } else {
            assert(t == s);
            if i < s.len() {
                assert forall|key: Seq<char>| #[trigger]
                    count_of(t[i].command_counts, key) == how_many(
                    fs,
                    missed_as(rtk_equivalent, key),
                ) by {
                    assert(count_of(s[i].command_counts, key) == how_many(
                        head,
                        missed_as(rtk_equivalent, key),
                    ));
                }
            }
        }
    }
}

proof fn lemma_no_misses(fs: Seq<PartView>, rtk_equivalent: Seq<char>)
    requires
        how_many(fs, missed_by(rtk_equivalent)) == 0,
    ensures
        amount(fs, missed_by(rtk_equivalent), |f: PartView| f.finding->saved_tokens as int) == 0,
        amount(fs, missed_by(rtk_equivalent), |f: PartView| f.finding->raw_tokens as int) == 0,
    decreases fs.len(),
{
    if fs.len() > 0 {
        lemma_how_many_bounds(fs.drop_last(), missed_by(rtk_equivalent));
        lemma_no_misses(fs.drop_last(), rtk_equivalent);
    }
}

proof fn lemma_no_misses_as(fs: Seq<PartView>, rtk_equivalent: Seq<char>, key: Seq<char>)
    requires
        how_many(fs, missed_by(rtk_equivalent)) == 0,
    ensures
        how_many(fs, missed_as(rtk_equivalent, key)) == 0,
    decreases fs.len(),
{
    if fs.len() > 0 {
        lemma_how_many_bounds(fs.drop_last(), missed_by(rtk_equivalent));
        lemma_no_misses_as(fs.drop_last(), rtk_equivalent, key);
    }
}

/// The bucket of a name stands where an unsupported command has that name. It counts those commands
/// and holds the first of them.
pub proof fn law_unsupported_commands(fs: Seq<PartView>, base_command: Seq<char>)
    ensures
        ({
            let s = totals(fs).unsupported;
            let i = place(unsupported_keys(s), base_command);
            let named = unsupported_as(base_command);
            &&& i < s.len() <==> how_many(fs, named) > 0
            &&& i < s.len() ==> {
                &&& s[i].base_command == base_command
                &&& s[i].count == how_many(fs, named)
                &&& s[i].example == fs[first_where(fs, named)].text
            }
        }),
    decreases fs.len(),
{
    let named = unsupported_as(base_command);
    lemma_how_many_bounds(fs, named);
    if fs.len() > 0 {
        let head = fs.drop_last();
        let f = fs.last();
        lemma_how_many_bounds(head, named);
        law_unsupported_commands(head, base_command);
        let s = totals(head).unsupported;
        let t = totals(fs).unsupported;
        let i = place(unsupported_keys(s), base_command);
        lemma_place(unsupported_keys(s), base_command);
        if first_where(head, named) < head.len() {
            assert(fs[first_where(head, named)] == head[first_where(head, named)]);
        }
        if is_unsupported(f) {
            let b = f.finding->base_command;
            let p = place(unsupported_keys(s), b);
            lemma_place(unsupported_keys(s), b);
            if p < s.len() {
                assert(unsupported_keys(s)[p] == s[p].base_command);
                assert(unsupported_keys(t) =~= unsupported_keys(s));
            } else {
                assert(unsupported_keys(t) =~= unsupported_keys(s).push(b));
                if i < s.len() {
                    lemma_place_is(unsupported_keys(t), base_command, i);
                } else if b == base_command {
                    lemma_place_is(unsupported_keys(t), base_command, s.len() as int);
                } else {
                    lemma_place_is(unsupported_keys(t), base_command, s.len() as int + 1);
                }
            }
        } else {
            assert(t == s);
        }
    }
}

/// A command in front of which the filter was switched off is counted as often as it was a bypass.
pub proof fn law_bypassed_commands(fs: Seq<PartView>, display: Seq<char>)
    ensures
        count_of(totals(fs).rtk_disabled_cmds, display) == how_many(fs, bypassed_as(display)),
    decreases fs.len(),
{
    if fs.len() > 0 {
        let head = fs.drop_last();
        let f = fs.last();
        law_bypassed_commands(head, display);
        if is_bypass(f) {
            lemma_count_of_counted(totals(head).rtk_disabled_cmds, truncated(f.text), display);
        } else {
            assert(totals(fs).rtk_disabled_cmds == totals(head).rtk_disabled_cmds);
        }
    } else {
        assert(count_keys(totals(fs).rtk_disabled_cmds) =~= seq![]);
    }
}

/// Every command is counted in one place: it was covered or ran the filter itself, was a bypass,
/// was missed, is unsupported, or is passed over.
pub proof fn law_every_command_in_one_place(fs: Seq<PartView>)
    ensures
        ({
            let t = totals(fs);
            t.total_commands == t.already_rtk + t.rtk_disabled_count + total(
                supported_counts(t.supported),
            ) + total(unsupported_counts(t.unsupported)) + how_many(
                fs,
                |f: PartView| is_passed_over(f),
            )
        }),
    decreases fs.len(),
{
    let t = totals(fs);
    if fs.len() > 0 {
        let head = fs.drop_last();
        let f = fs.last();
        let h = totals(head);
        law_every_command_in_one_place(head);
        if is_missed(f) {
            let e = f.finding->rtk_equivalent;
            let p = place(supported_keys(h.supported), e);
            lemma_place(supported_keys(h.supported), e);
            let c = supported_counts(h.supported);
            if p < h.supported.len() {
                lemma_total_update(c, p, h.supported[p].count + 1);
                assert(supported_counts(t.supported) =~= c.update(p, h.supported[p].count + 1));
            } else {
                lemma_total_push(c, 1);
                assert(supported_counts(t.supported) =~= c.push(1));
            }
        } else if is_unsupported(f) {
            let b = f.finding->base_command;
            let p = place(unsupported_keys(h.unsupported), b);
            lemma_place(unsupported_keys(h.unsupported), b);
            let c = unsupported_counts(h.unsupported);
            if p < h.unsupported.len() {
                lemma_total_update(c, p, h.unsupported[p].count + 1);
                assert(unsupported_counts(t.unsupported) =~= c.update(
                    p,
                    h.unsupported[p].count + 1,
                ));
            } else {
                lemma_total_push(c, 1);
                assert(unsupported_counts(t.unsupported) =~= c.push(1));
            }
        }
    } else {
        assert(supported_counts(t.supported) =~= seq![]);
        assert(unsupported_counts(t.unsupported) =~= seq![]);
    }
}

/// The command that a bucket is shown as is one of the missed commands that it holds, under the
/// status of that command, and no other of them was missed more often.
pub proof fn law_shown_command_was_missed(fs: Seq<PartView>, i: int)
    requires
        0 <= i < totals(fs).supported.len(),
    ensures
        ({
            let b = totals(fs).supported[i];
            &&& exists|j: int|
                0 <= j < fs.len() && is_missed(#[trigger] fs[j]) && fs[j].finding->rtk_equivalent
                    == b.rtk_equivalent && shown_command(b.command_counts) == (
                    truncated(fs[j].text),
                    fs[j].finding->status,
                ) && how_many(fs, missed_as(b.rtk_equivalent, key_of(fs[j])))
                    == b.command_counts[most_common(b.command_counts)].1
            &&& forall|key: Seq<char>| #[trigger]
                count_of(b.command_counts, key) <= b.command_counts[most_common(
                    b.command_counts,
                )].1
        }),
{
    let s = totals(fs).supported;
    let b = s[i];
    let e = b.rtk_equivalent;
    let c = b.command_counts;
    law_totals_consistent(fs);
    law_missed_commands(fs, e);
    assert(supported_keys(s)[i] == e);
    lemma_place(supported_keys(s), e);
    assert(place(supported_keys(s), e) == i) by {
        let p = place(supported_keys(s), e);
        assert(supported_keys(s)[p] == e);
    }
    assert(c.len() >= 1);
    law_most_common(c);
    let m = most_common(c);
    let key = c[m].0;
    lemma_place(count_keys(c), key);
    assert(count_keys(c)[m] == key);
    let p = place(count_keys(c), key);
    assert(count_keys(c)[p] == c[p].0);
    assert(count_of(c, key) == c[p].1 && c[p].1 >= 1);
    assert(count_of(c, key) == how_many(fs, missed_as(e, key)));
    assert(p == m) by {
        assert(count_keys(c)[p] == count_keys(c)[m]);
    }
    lemma_how_many_bounds(fs, missed_as(e, key));
    let j = first_where(fs, missed_as(e, key));
    law_status_key_round_trip(truncated(fs[j].text), fs[j].finding->status);
    assert(is_missed(fs[j]));
    assert forall|k: Seq<char>| #[trigger] count_of(c, k) <= c[m].1 by {
        lemma_place(count_keys(c), k);
        assert(1 <= c[m].1);
    }
}

/// Whether `gs` holds the commands of `fs` in the order that `order` gives.
pub open spec fn reordered(fs: Seq<PartView>, gs: Seq<PartView>, order: Seq<int>) -> bool {
    &&& is_arrangement(order, fs.len())
    &&& gs.len() == fs.len()
    &&& forall|i: int| 0 <= i < gs.len() ==> #[trigger] gs[i] == fs[order[i]]
}

spec fn shares(
    fs: Seq<PartView>,
    p: spec_fn(PartView) -> bool,
    v: spec_fn(PartView) -> int,
) -> Seq<int> {
    fs.map_values(
        |f: PartView|
            if p(f) {
                v(f)
            } else {
                0
            },
    )
}

proof fn lemma_amount_is_total(
    fs: Seq<PartView>,
    p: spec_fn(PartView) -> bool,
    v: spec_fn(PartView) -> int,
)
    ensures
        amount(fs, p, v) == total(shares(fs, p, v)),
    decreases fs.len(),
{
    if fs.len() > 0 {
        lemma_amount_is_total(fs.drop_last(), p, v);
        assert(shares(fs, p, v).drop_last() =~= shares(fs.drop_last(), p, v));
    }
}

proof fn lemma_how_many_is_amount(fs: Seq<PartView>, p: spec_fn(PartView) -> bool)
    ensures
        how_many(fs, p) == amount(fs, p, |f: PartView| 1int),
    decreases fs.len(),
{
    if fs.len() > 0 {
        lemma_how_many_is_amount(fs.drop_last(), p);
    }
}

proof fn lemma_amount_reordered(
    fs: Seq<PartView>,
    gs: Seq<PartView>,
    order: Seq<int>,
    p: spec_fn(PartView) -> bool,
    v: spec_fn(PartView) -> int,
)
    requires
        reordered(fs, gs, order),
    ensures
        amount(gs, p, v) == amount(fs, p, v),
{
    let s = shares(fs, p, v);
    lemma_amount_is_total(fs, p, v);
    lemma_amount_is_total(gs, p, v);
    lemma_total_arranged(s, order);
    assert(shares(gs, p, v) =~= order.map_values(|i: int| s[i]));
}

proof fn lemma_how_many_reordered(
    fs: Seq<PartView>,
    gs: Seq<PartView>,
    order: Seq<int>,
    p: spec_fn(PartView) -> bool,
)
    requires
        reordered(fs, gs, order),
    ensures
        how_many(gs, p) == how_many(fs, p),
{
    lemma_how_many_is_amount(fs, p);
    lemma_how_many_is_amount(gs, p);
    lemma_amount_reordered(fs, gs, order, p, |f: PartView| 1int);
}

/// The bucket of a filter has the same number of commands, the same sums of tokens, and so the same
/// rate of savings, in whatever order the commands come, and counts them the same.
pub proof fn law_missed_commands_in_any_order(
    fs: Seq<PartView>,
    gs: Seq<PartView>,
    order: Seq<int>,
    rtk_equivalent: Seq<char>,
)
    requires
        reordered(fs, gs, order),
    ensures
        ({
            let s = totals(fs).supported;
            let t = totals(gs).supported;
            let i = place(supported_keys(s), rtk_equivalent);
            let j = place(supported_keys(t), rtk_equivalent);
            &&& i < s.len() <==> j < t.len()
            &&& i < s.len() ==> {
                &&& t[j].count == s[i].count
                &&& t[j].total_output_tokens == s[i].total_output_tokens
                &&& t[j].total_raw_output_tokens == s[i].total_raw_output_tokens
                &&& forall|key: Seq<char>| #[trigger]
                    count_of(t[j].command_counts, key) == count_of(s[i].command_counts, key)
            }
        }),
{
    let missed = missed_by(rtk_equivalent);
    law_missed_commands(fs, rtk_equivalent);
    law_missed_commands(gs, rtk_equivalent);
    lemma_how_many_reordered(fs, gs, order, missed);
    lemma_amount_reordered(
        fs,
        gs,
        order,
        missed,
        |f: PartView| f.finding->saved_tokens as int,
    );
    lemma_amount_reordered(fs, gs, order, missed, |f: PartView| f.finding->raw_tokens as int);
    let s = totals(fs).supported;
    let t = totals(gs).supported;
    let i = place(supported_keys(s), rtk_equivalent);
    let j = place(supported_keys(t), rtk_equivalent);
    if i < s.len() {
        assert forall|key: Seq<char>| #[trigger]
            count_of(t[j].command_counts, key) == count_of(s[i].command_counts, key) by {
            lemma_how_many_reordered(fs, gs, order, missed_as(rtk_equivalent, key));
            assert(count_of(s[i].command_counts, key) == how_many(
                fs,
                missed_as(rtk_equivalent, key),
            ));
        }
    }
}

/// The other numbers of a scan are the same in whatever order the commands come.
pub proof fn law_counters_in_any_order(
    fs: Seq<PartView>,
    gs: Seq<PartView>,
    order: Seq<int>,
    base_command: Seq<char>,
    display: Seq<char>,
)
    requires
        reordered(fs, gs, order),
    ensures
        totals(gs).total_commands == totals(fs).total_commands,
        totals(gs).already_rtk == totals(fs).already_rtk,
        totals(gs).already_rtk_estimated == totals(fs).already_rtk_estimated,
        totals(gs).rtk_disabled_count == totals(fs).rtk_disabled_count,
        totals(gs).rtk_disabled_estimated == totals(fs).rtk_disabled_estimated,
        count_of(totals(gs).rtk_disabled_cmds, display) == count_of(
            totals(fs).rtk_disabled_cmds,
            display,
        ),
        ({
            let s = totals(fs).unsupported;
            let t = totals(gs).unsupported;
            let i = place(unsupported_keys(s), base_command);
            let j = place(unsupported_keys(t), base_command);
            &&& i < s.len() <==> j < t.len()
            &&& i < s.len() ==> t[j].count == s[i].count
        }),
{
    law_counters(fs);
    law_counters(gs);
    law_bypassed_commands(fs, display);
    law_bypassed_commands(gs, display);
    law_unsupported_commands(fs, base_command);
    law_unsupported_commands(gs, base_command);
    lemma_how_many_reordered(fs, gs, order, |f: PartView| is_covered(f));
    lemma_how_many_reordered(fs, gs, order, |f: PartView| is_direct(f));
    lemma_how_many_reordered(
        fs,
        gs,
        order,
        |f: PartView| is_covered(f) && f.finding->coverage is Estimated,
    );
    lemma_how_many_reordered(fs, gs, order, |f: PartView| is_bypass(f));
    lemma_how_many_reordered(
        fs,
        gs,
        order,
        |f: PartView| is_bypass(f) && f.finding->coverage is Estimated,
    );
    lemma_how_many_reordered(fs, gs, order, bypassed_as(display));
    lemma_how_many_reordered(fs, gs, order, unsupported_as(base_command));
}

/// The totals of all sessions are consistent, and each number in them but that of unreadable sessions
/// is the one that the commands of all sessions give, whichever session they stand in.
pub proof fn law_totals_of_sessions(sessions: Seq<SessionView>)
    ensures
        consistent(tallied(sessions)),
        0 <= tallied(sessions).parse_errors <= sessions.len(),
        tallied(sessions) == (TallyView {
            parse_errors: tallied(sessions).parse_errors,
            ..totals(all_parts(sessions))
        }),
{
    law_totals_consistent(all_parts(sessions));
    lemma_unreadable_bounds(sessions);
}

proof fn lemma_unreadable_bounds(sessions: Seq<SessionView>)
    ensures
        0 <= unreadable(sessions) <= sessions.len(),
    decreases sessions.len(),
{
    if sessions.len() > 0 {
        lemma_unreadable_bounds(sessions.drop_last());
    }
}

} // verus!
