//! Reading single commands: what they run, how they are shown, and how a shown command is filed
//! together with the status of its filter.

use vstd::prelude::*;
use vstd::string::*;

use crate::rules::RtkStatus;
use crate::text::{
    behind_word, characters, law_trimmed_ignores_padding, law_words, leading_words,
    lemma_second_word, lemma_trimmed_end, lemma_word_len_is, same_text, starts_with, trim, trimmed,
    white_space, word, word_len,
};

verus! {

/// Whether `cmd` runs `rtk` itself, and not through its unfiltered `proxy`.
pub open spec fn already_rtk(cmd: Seq<char>) -> bool {
    "rtk "@.is_prefix_of(trimmed(cmd)) && !"rtk proxy"@.is_prefix_of(trimmed(cmd))
}

/// Whether a command that starts with `rtk` counts as covered. `rtk proxy <cmd>` runs the command
/// unfiltered on purpose, so it does not count.
pub fn is_already_rtk(cmd: &str) -> (r: bool)
    ensures
        r == already_rtk(cmd@),
{
    let trimmed_cmd = trim(cmd);
    starts_with(trimmed_cmd, "rtk ") && !starts_with(trimmed_cmd, "rtk proxy")
}

/// The second word of `cmd`, or nothing where there is only one.
pub open spec fn subcmd(cmd: Seq<char>) -> Seq<char> {
    word(behind_word(trimmed(cmd)))
}

/// The subcommand of a command: its second word.
pub fn extract_subcmd<'a>(cmd: &'a str) -> (r: &'a str)
    ensures
        r@ == subcmd(cmd@),
{
    let (_, second) = leading_words(trim(cmd));
    match second {
        Some(second_word) => second_word,
        None => {
            proof {
                reveal_strlit("");
                assert(""@ =~= subcmd(cmd@));
            }
            ""
        },
    }
}

/// The first two words of `cmd`, with a space between them, or the only one.
pub open spec fn truncated(cmd: Seq<char>) -> Seq<char> {
    let t = trimmed(cmd);
    if word_len(t) >= t.len() {
        t
    } else {
        word(t) + seq![' '] + subcmd(cmd)
    }
}

/// A command as it is shown: its first two words.
pub fn truncate_command(cmd: &str) -> (r: String)
    ensures
        r@ == truncated(cmd@),
{
    let trimmed_cmd = trim(cmd);
    let (first, second) = leading_words(trimmed_cmd);
    proof {
        lemma_second_word(cmd@);
    }
    match second {
        Some(second_word) => {
            proof {
                reveal_strlit(" ");
                assert(" "@ =~= seq![' ']);
            }
            let mut r = first.to_owned();
            r.append(" ");
            r.append(second_word);
            r
        },
        None => trimmed_cmd.to_owned(),
    }
}

/// The name of a status.
pub open spec fn status_name(status: RtkStatus) -> Seq<char> {
    match status {
        RtkStatus::Existing => "Existing"@,
        RtkStatus::Passthrough => "Passthrough"@,
        RtkStatus::NotSupported => "NotSupported"@,
    }
}

/// The key under which a shown command is counted: the command, a colon and the name of its status.
pub open spec fn status_key_text(command: Seq<char>, status: RtkStatus) -> Seq<char> {
    command + seq![':'] + status_name(status)
}

/// The key under which `command` is counted.
pub fn status_key(command: &str, status: RtkStatus) -> (r: String)
    ensures
        r@ == status_key_text(command@, status),
{
    proof {
        reveal_strlit(":");
        assert(":"@ =~= seq![':']);
    }
    let mut r = command.to_owned();
    r.append(":");
    match status {
        RtkStatus::Existing => r.append("Existing"),
        RtkStatus::Passthrough => r.append("Passthrough"),
        RtkStatus::NotSupported => r.append("NotSupported"),
    }
    r
}

/// The position of the last colon of `s`, or -1.
pub open spec fn last_colon(s: Seq<char>) -> int
    decreases s.len(),
{
    if s.len() == 0 {
        -1
    } else if s.last() == ':' {
        s.len() - 1
    } else {
        last_colon(s.drop_last())
    }
}

/// The status that a name stands for. A name that stands for none is read as `Existing`.
pub open spec fn named_status(name: Seq<char>) -> RtkStatus {
    if name == "Passthrough"@ {
        RtkStatus::Passthrough
    } else if name == "NotSupported"@ {
        RtkStatus::NotSupported
    } else {
        RtkStatus::Existing
    }
}

/// What a key holds: the text up to its last colon and the status behind it. A key without a colon
/// is a command with an existing filter.
pub open spec fn split_key(key: Seq<char>) -> (Seq<char>, RtkStatus) {
    if last_colon(key) >= 0 {
        (key.take(last_colon(key)), named_status(key.skip(last_colon(key) + 1)))
    } else {
        (key, RtkStatus::Existing)
    }
}

proof fn lemma_last_colon(s: Seq<char>, p: int)
    requires
        -1 <= p < s.len(),
        p >= 0 ==> s[p] == ':',
        forall|i: int| p < i < s.len() ==> #[trigger] s[i] != ':',
    ensures
        last_colon(s) == p,
    decreases s.len(),
{
    if s.len() > 0 && p < s.len() - 1 {
        lemma_last_colon(s.drop_last(), p);
    }
}

/// Reads a key back.
pub fn split_status_key(key: &str) -> (r: (String, RtkStatus))
    ensures
        (r.0@, r.1) == split_key(key@),
{
    let v = characters(key);
    let n: usize = v.len();
    let mut i: usize = n;
    while i > 0 && v[i - 1] != ':'
        invariant
            n == v@.len(),
            i <= n,
            forall|j: int| i <= j < n ==> #[trigger] v@[j] != ':',
        decreases i,
    {
        i = i - 1;
    }
    proof {
        lemma_last_colon(v@, i - 1);
    }
    if i == 0 {
        return (key.to_owned(), RtkStatus::Existing);
    }
    assert(key@.subrange(0, i - 1) =~= key@.take(i - 1));
    assert(key@.subrange(i as int, n as int) =~= key@.skip(i as int));
    let name = key.substring_char(i, n);
    let status = if same_text(name, "Passthrough") {
        RtkStatus::Passthrough
    } else if same_text(name, "NotSupported") {
        RtkStatus::NotSupported
    } else {
        RtkStatus::Existing
    };
    (key.substring_char(0, i - 1).to_owned(), status)
}

/// A key gives back the command and the status that it was made of, whatever the command holds.
pub proof fn law_status_key_round_trip(command: Seq<char>, status: RtkStatus)
    ensures
        split_key(status_key_text(command, status)) == (command, status),
{
    reveal_strlit("Existing");
    reveal_strlit("Passthrough");
    reveal_strlit("NotSupported");
    let key = status_key_text(command, status);
    let name = status_name(status);
    assert forall|i: int| command.len() < i < key.len() implies #[trigger] key[i] != ':' by {
        assert(key[i] == name[i - command.len() - 1]);
    }
    lemma_last_colon(key, command.len() as int);
    assert(key.take(command.len() as int) =~= command);
    assert(key.skip(command.len() as int + 1) =~= name);
    assert("Existing"@.len() != "Passthrough"@.len());
    assert("NotSupported"@.len() != "Passthrough"@.len());
    assert("Existing"@.len() != "NotSupported"@.len());
}

/// Different commands and statuses are counted under different keys.
pub proof fn law_status_key_injective(
    a: Seq<char>,
    s: RtkStatus,
    b: Seq<char>,
    t: RtkStatus,
)
    requires
        status_key_text(a, s) == status_key_text(b, t),
    ensures
        a == b,
        s == t,
{
    law_status_key_round_trip(a, s);
    law_status_key_round_trip(b, t);
}

/// White space around a command changes neither how it is read nor how it is shown.
pub proof fn law_padding_is_ignored(before: Seq<char>, cmd: Seq<char>, after: Seq<char>)
    requires
        forall|i: int| 0 <= i < before.len() ==> white_space(#[trigger] before[i]),
        forall|i: int| 0 <= i < after.len() ==> white_space(#[trigger] after[i]),
    ensures
        already_rtk(before + cmd + after) == already_rtk(cmd),
        subcmd(before + cmd + after) == subcmd(cmd),
        truncated(before + cmd + after) == truncated(cmd),
{
    law_trimmed_ignores_padding(before, cmd, after);
}

/// The subcommand is the second word, and the first two words are what is shown, whatever white
/// space stands before, between and behind them.
pub proof fn law_subcommand_is_second_word(
    before: Seq<char>,
    first: Seq<char>,
    gap: Seq<char>,
    second: Seq<char>,
    rest: Seq<char>,
)
    requires
        forall|i: int| 0 <= i < before.len() ==> white_space(#[trigger] before[i]),
        first.len() > 0,
        forall|i: int| 0 <= i < first.len() ==> !white_space(#[trigger] first[i]),
        gap.len() > 0,
        forall|i: int| 0 <= i < gap.len() ==> white_space(#[trigger] gap[i]),
        second.len() > 0,
        forall|i: int| 0 <= i < second.len() ==> !white_space(#[trigger] second[i]),
        rest.len() > 0 ==> white_space(rest[0]),
    ensures
        subcmd(before + first + gap + second + rest) == second,
        truncated(before + first + gap + second + rest) == first + seq![' '] + second,
{
    law_words(before, first, gap, second, rest);
}

/// A command of one word has no subcommand and is shown as that word, whatever white space stands
/// around it.
pub proof fn law_single_word(before: Seq<char>, first: Seq<char>, after: Seq<char>)
    requires
        forall|i: int| 0 <= i < before.len() ==> white_space(#[trigger] before[i]),
        forall|i: int| 0 <= i < first.len() ==> !white_space(#[trigger] first[i]),
        forall|i: int| 0 <= i < after.len() ==> white_space(#[trigger] after[i]),
    ensures
        subcmd(before + first + after) == Seq::<char>::empty(),
        truncated(before + first + after) == first,
{
    law_padding_is_ignored(before, first, after);
    lemma_word_len_is(first, first.len() as int);
    assert(trimmed(first) == first);
    assert(behind_word(first) =~= Seq::<char>::empty());
    assert(subcmd(first) =~= Seq::<char>::empty());
}

/// A key is read at its last colon, whatever stands before it; what stands behind it names the
/// status, and `Existing` is meant by every name but two. A key without a colon is all command.
pub proof fn law_key_is_read_at_last_colon(command: Seq<char>, name: Seq<char>)
    requires
        forall|i: int| 0 <= i < name.len() ==> #[trigger] name[i] != ':',
    ensures
        split_key(command + seq![':'] + name).0 == command,
        split_key(command + seq![':'] + name).1 == RtkStatus::Passthrough <==> name
            == "Passthrough"@,
        split_key(command + seq![':'] + name).1 == RtkStatus::NotSupported <==> name
            == "NotSupported"@,
        split_key(name) == (name, RtkStatus::Existing),
{
    reveal_strlit("Passthrough");
    reveal_strlit("NotSupported");
    let key = command + seq![':'] + name;
    assert forall|i: int| command.len() < i < key.len() implies #[trigger] key[i] != ':' by {
        assert(key[i] == name[i - command.len() - 1]);
    }
    lemma_last_colon(key, command.len() as int);
    lemma_last_colon(name, -1);
    assert(key.take(command.len() as int) =~= command);
    assert(key.skip(command.len() as int + 1) =~= name);
    assert("NotSupported"@.len() != "Passthrough"@.len());
}

/// Every command that `rtk` runs counts, whatever its name is and whatever follows it, as long as
/// the name does not start with `proxy`.
pub proof fn law_rtk_counts(
    before: Seq<char>,
    gap: Seq<char>,
    name: Seq<char>,
    rest: Seq<char>,
)
    requires
        forall|i: int| 0 <= i < before.len() ==> white_space(#[trigger] before[i]),
        forall|i: int| 0 <= i < gap.len() ==> white_space(#[trigger] gap[i]),
        name.len() > 0,
        forall|i: int| 0 <= i < name.len() ==> !white_space(#[trigger] name[i]),
        rest.len() > 0 ==> white_space(rest[0]),
        !(name.len() >= 5 && name.take(5) == seq!['p', 'r', 'o', 'x', 'y']),
    ensures
        already_rtk(before + seq!['r', 't', 'k', ' '] + gap + name + rest),
{
    let rtk = seq!['r', 't', 'k'];
    let space = seq![' '];
    let head = seq!['r', 't', 'k', ' '];
    let cmd = before + head + gap + name + rest;
    reveal_strlit("rtk ");
    reveal_strlit("rtk proxy");
    law_words(before, rtk, space + gap, name, rest);
    assert(before + rtk + (space + gap) + name + rest =~= cmd);
    let s = rtk + (space + gap) + name + rest;
    assert(cmd =~= before + s);
    law_trimmed_ignores_padding(before, s, Seq::empty());
    assert(before + s + Seq::<char>::empty() =~= cmd);
    let t = trimmed(s);
    lemma_trimmed_behind_a_word(s);
    let n = rtk.len() + space.len() + gap.len() + name.len();
    assert(!white_space(s[n - 1])) by {
        assert(s[n - 1] == name.last());
    }
    assert(t.len() >= n);
    assert("rtk "@ =~= t.subrange(0, 4));
    if "rtk proxy"@.is_prefix_of(t) {
        let p = "rtk proxy"@;
        assert(p == t.subrange(0, 9));
        assert(p[4] == t[4] && p[5] == t[5] && p[6] == t[6] && p[7] == t[7] && p[8] == t[8]);
        if gap.len() > 0 {
            assert(t[4] == gap[0]);
        } else {
            assert forall|i: int| 0 <= i < name.len() && i < 5 implies t[4 + i] == name[i] by {
            }
            if name.len() < 5 {
                assert(t.len() > n);
                assert(t[n as int] == rest[0]);
            } else {
                assert(name.take(5) =~= seq!['p', 'r', 'o', 'x', 'y']);
            }
        }
    }
}

/// Nothing that starts with `rtk proxy` counts, whatever follows.
pub proof fn law_proxy_does_not_count(before: Seq<char>, rest: Seq<char>)
    requires
        forall|i: int| 0 <= i < before.len() ==> white_space(#[trigger] before[i]),
    ensures
        !already_rtk(before + seq!['r', 't', 'k', ' ', 'p', 'r', 'o', 'x', 'y'] + rest),
{
    reveal_strlit("rtk proxy");
    let proxy = seq!['r', 't', 'k', ' ', 'p', 'r', 'o', 'x', 'y'];
    let none = Seq::<char>::empty();
    let s = proxy + rest;
    assert("rtk proxy"@ =~= proxy);
    law_trimmed_ignores_padding(before, s, none);
    assert(before + s + none =~= before + proxy + rest);
    lemma_trimmed_behind_a_word(s);
    assert(!white_space(s[8]));
    assert(proxy =~= trimmed(s).subrange(0, 9));
}

/// A command that is not `rtk` does not count, nor does `rtk` on its own or with other white space
/// than a space behind it, nor nothing at all.
pub proof fn law_others_do_not_count(
    before: Seq<char>,
    first: Seq<char>,
    rest: Seq<char>,
    after: Seq<char>,
)
    requires
        forall|i: int| 0 <= i < before.len() ==> white_space(#[trigger] before[i]),
        first.len() > 0,
        forall|i: int| 0 <= i < first.len() ==> !white_space(#[trigger] first[i]),
        rest.len() > 0 ==> white_space(rest[0]),
        forall|i: int| 0 <= i < after.len() ==> white_space(#[trigger] after[i]),
    ensures
        first != seq!['r', 't', 'k'] ==> !already_rtk(before + first + rest),
        rest.len() > 0 && rest[0] != ' ' ==> !already_rtk(before + seq!['r', 't', 'k'] + rest),
        !already_rtk(before + seq!['r', 't', 'k'] + after),
        !already_rtk(before),
{
    reveal_strlit("rtk ");
    let rtk = seq!['r', 't', 'k'];
    let none = Seq::<char>::empty();
    if first != rtk {
        let s = first + rest;
        law_trimmed_ignores_padding(before, s, none);
        assert(before + s + none =~= before + first + rest);
        lemma_trimmed_behind_a_word(s);
        let t = trimmed(s);
        assert(!white_space(s[first.len() - 1]));
        assert(t.len() >= first.len());
        if "rtk "@.is_prefix_of(t) {
            let r = "rtk "@;
            assert(r == t.subrange(0, 4));
            assert(r[0] == t[0] && r[1] == t[1] && r[2] == t[2] && r[3] == t[3]);
            assert(first.len() <= 3) by {
                if first.len() > 3 {
                    assert(first[3] == t[3]);
                }
            }
            if first.len() < 3 {
                assert(t[first.len() as int] == rest[0]);
            }
            assert(first =~= rtk);
        }
    }
    if rest.len() > 0 && rest[0] != ' ' {
        let s = rtk + rest;
        law_trimmed_ignores_padding(before, s, none);
        assert(before + s + none =~= before + rtk + rest);
        lemma_trimmed_behind_a_word(s);
        if "rtk "@.is_prefix_of(trimmed(s)) {
            assert("rtk "@[3] == trimmed(s).subrange(0, 4)[3]);
            assert(trimmed(s)[3] == rest[0]);
        }
    }
    law_padding_is_ignored(before, rtk, after);
    lemma_trimmed_behind_a_word(rtk);
    law_padding_is_ignored(before, none, none);
    assert(before + none + none =~= before);
}

proof fn lemma_trimmed_behind_a_word(s: Seq<char>)
    requires
        s.len() > 0,
        !white_space(s[0]),
    ensures
        trimmed(s).len() <= s.len(),
        trimmed(s) == s.take(trimmed(s).len() as int),
        forall|i: int|
            0 <= i < s.len() && !white_space(#[trigger] s[i]) ==> i < trimmed(s).len(),
{
    lemma_trimmed_end(s);
}

} // verus!
