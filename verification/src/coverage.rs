//! Whether a supported command was routed through the filter, and how sure that is.

use vstd::hash_map::StringHashMap;
use vstd::prelude::*;

use crate::rules::{
    answers_once, follows, lemma_follows, says_rewritable, says_unattestable, says_verdict, texts,
    CommandRules, PermissionVerdict, RulesModel,
};

verus! {

/// What the hook did with a tool call.
#[derive(Clone, Copy, Debug, PartialEq, Eq, Structural)]
pub enum HookOutcome {
    /// The hook let the call run in its filtered form.
    Allow,
    /// The hook did not rewrite the call.
    Deny,
}

impl HookOutcome {
    /// Whether the call ran through the filter.
    pub open spec fn covered(self) -> bool {
        self == HookOutcome::Allow
    }

    /// Whether the call ran through the filter.
    pub fn is_covered(&self) -> (r: bool)
        ensures
            r == self.covered(),
            r <==> *self == HookOutcome::Allow,
    {
        *self == HookOutcome::Allow
    }
}

/// One row of the log of hook decisions.
#[derive(Clone, Copy, Debug, PartialEq, Eq, Structural)]
pub struct HookDecisionRecord {
    pub decision: HookOutcome,
}

/// The log of hook decisions, by the identifier of the tool call.
pub struct HookLog {
    rows: StringHashMap<HookDecisionRecord>,
}

impl View for HookLog {
    type V = Map<Seq<char>, HookDecisionRecord>;

    closed spec fn view(&self) -> Map<Seq<char>, HookDecisionRecord> {
        self.rows@
    }
}

impl HookLog {
    /// A log without rows.
    pub fn new() -> (log: Self)
        ensures
            log@ == Map::<Seq<char>, HookDecisionRecord>::empty(),
    {
        HookLog { rows: StringHashMap::new() }
    }

    /// Adds a row, in place of one with the same identifier.
    pub fn insert(&mut self, tool_use_id: String, record: HookDecisionRecord)
        ensures
            final(self)@ == old(self)@.insert(tool_use_id@, record),
    {
        self.rows.insert(tool_use_id, record);
    }

    /// The row of a tool call.
    pub fn get(&self, tool_use_id: &str) -> (r: Option<&HookDecisionRecord>)
        ensures
            match r {
                Some(record) => self@.contains_key(tool_use_id@) && *record == self@[tool_use_id@],
                None => !self@.contains_key(tool_use_id@),
            },
    {
        self.rows.get(tool_use_id)
    }
}

/// Whether a supported command was routed through the filter.
///
/// `Measured` comes from a row of the hook's own log: it says what happened. `Estimated` is the
/// fallback where there is no such row: a guess from the hook, the configuration and the rules of
/// today.
#[derive(Clone, Copy, Debug, PartialEq, Eq, Structural)]
pub enum Coverage {
    Measured(bool),
    Estimated(bool),
}

impl Coverage {
    /// Whether the command was routed through the filter.
    pub open spec fn covered(self) -> bool {
        match self {
            Coverage::Measured(covered) => covered,
            Coverage::Estimated(covered) => covered,
        }
    }

    /// Whether the command was routed through the filter.
    pub fn is_covered(&self) -> (r: bool)
        ensures
            r == self.covered(),
            *self == Coverage::Measured(r) || *self == Coverage::Estimated(r),
    {
        match self {
            Coverage::Measured(covered) => *covered,
            Coverage::Estimated(covered) => *covered,
        }
    }

    /// Whether the answer is a guess.
    pub fn is_estimated(&self) -> (r: bool)
        ensures
            r == (self is Estimated),
    {
        matches!(self, Coverage::Estimated(_))
    }
}

/// `r` is the guess at whether the hook would have rewritten `cmd` under `verdict`, from what
/// `rules` say of `cmd`. Without a hook, and on a command that is denied, the guess is no, whatever
/// they say. Otherwise it is yes where they find nothing unattestable in it and would rewrite it.
pub open spec fn estimates_with_verdict<R: CommandRules>(
    rules: &R,
    cmd: Seq<char>,
    verdict: PermissionVerdict,
    hook_installed: bool,
    excluded: Seq<Seq<char>>,
    transparent_prefixes: Seq<Seq<char>>,
    r: bool,
) -> bool {
    if !hook_installed || verdict == PermissionVerdict::Deny {
        !r
    } else {
        ||| says_unattestable(rules, cmd, true) && !r
        ||| says_unattestable(rules, cmd, false) && says_rewritable(
            rules,
            cmd,
            excluded,
            transparent_prefixes,
            r,
        )
    }
}

/// `r` is the guess at whether the hook would have rewritten `cmd`, under the verdict that `rules`
/// give on it.
pub open spec fn estimates<R: CommandRules>(
    rules: &R,
    cmd: Seq<char>,
    hook_installed: bool,
    excluded: Seq<Seq<char>>,
    transparent_prefixes: Seq<Seq<char>>,
    r: bool,
) -> bool {
    exists|verdict: PermissionVerdict|
        #[trigger] says_verdict(rules, cmd, verdict) && estimates_with_verdict(
            rules,
            cmd,
            verdict,
            hook_installed,
            excluded,
            transparent_prefixes,
            r,
        )
}

/// `r` is the coverage of `cmd` in the tool call `tool_use_id`: what the log says of the call, and
/// the guess about `cmd` where the log says nothing.
pub open spec fn covers<R: CommandRules>(
    rules: &R,
    cmd: Seq<char>,
    tool_use_id: Seq<char>,
    hook_log: Map<Seq<char>, HookDecisionRecord>,
    hook_installed: bool,
    excluded: Seq<Seq<char>>,
    transparent_prefixes: Seq<Seq<char>>,
    r: Coverage,
) -> bool {
    if hook_log.contains_key(tool_use_id) {
        r == Coverage::Measured(hook_log[tool_use_id].decision.covered())
    } else {
        r is Estimated && estimates(
            rules,
            cmd,
            hook_installed,
            excluded,
            transparent_prefixes,
            r.covered(),
        )
    }
}

/// Whether `cmd` was routed through the filter or, where the log has no row for the tool call, is
/// likely to have been.
///
/// The log has one row for a tool call, which may run a chain of commands: each of them gets the
/// answer that the whole call got.
pub fn hook_coverage<R: CommandRules>(
    rules: &R,
    cmd: &str,
    tool_use_id: &str,
    hook_log: &HookLog,
    hook_installed: bool,
    excluded: &[String],
    transparent_prefixes: &[String],
) -> (r: Coverage)
    ensures
        covers(
            rules,
            cmd@,
            tool_use_id@,
            hook_log@,
            hook_installed,
            texts(excluded@),
            texts(transparent_prefixes@),
            r,
        ),
        hook_log@.contains_key(tool_use_id@) ==> r == Coverage::Measured(
            hook_log@[tool_use_id@].decision == HookOutcome::Allow,
        ),
        !hook_log@.contains_key(tool_use_id@) ==> r is Estimated,
{
    if let Some(record) = hook_log.get(tool_use_id) {
        return Coverage::Measured(record.decision.is_covered());
    }
    Coverage::Estimated(
        estimate_hook_coverage(rules, cmd, hook_installed, excluded, transparent_prefixes),
    )
}

/// A guess at whether the hook of today would rewrite `cmd`.
pub fn estimate_hook_coverage<R: CommandRules>(
    rules: &R,
    cmd: &str,
    hook_installed: bool,
    excluded: &[String],
    transparent_prefixes: &[String],
) -> (r: bool)
    ensures
        estimates(
            rules,
            cmd@,
            hook_installed,
            texts(excluded@),
            texts(transparent_prefixes@),
            r,
        ),
{
    let verdict = rules.check_command(cmd);
    assert(says_verdict(rules, cmd@, verdict));
    estimate_hook_coverage_with_verdict(
        rules,
        cmd,
        verdict,
        hook_installed,
        excluded,
        transparent_prefixes,
    )
}

/// A guess at whether the hook of today would rewrite `cmd` under the permission verdict `verdict`.
///
/// A denied command and one with an unattestable construct are never rewritten, whether or not the
/// rules support them.
pub fn estimate_hook_coverage_with_verdict<R: CommandRules>(
    rules: &R,
    cmd: &str,
    verdict: PermissionVerdict,
    hook_installed: bool,
    excluded: &[String],
    transparent_prefixes: &[String],
) -> (r: bool)
    ensures
        estimates_with_verdict(
            rules,
            cmd@,
            verdict,
            hook_installed,
            texts(excluded@),
            texts(transparent_prefixes@),
            r,
        ),
        !hook_installed || verdict == PermissionVerdict::Deny ==> !r,
{
    if !hook_installed || verdict == PermissionVerdict::Deny {
        return false;
    }
    let unattestable = rules.contains_unattestable_construct(cmd);
    assert(says_unattestable(rules, cmd@, unattestable));
    if unattestable {
        return false;
    }
    let rewritten = rules.rewrite_command(cmd, excluded, transparent_prefixes);
    let r = rewritten.is_some();
    assert(says_rewritable(rules, cmd@, texts(excluded@), texts(transparent_prefixes@), r));
    r
}

/// Where the log has a row for a tool call, the row alone decides: the hook, the configuration and
/// the rules of today change nothing, and the answer is no guess.
pub proof fn law_log_decides<R: CommandRules, S: CommandRules>(
    rules: &R,
    other_rules: &S,
    cmd: Seq<char>,
    other_cmd: Seq<char>,
    tool_use_id: Seq<char>,
    hook_log: Map<Seq<char>, HookDecisionRecord>,
    hook_installed: bool,
    other_hook_installed: bool,
    excluded: Seq<Seq<char>>,
    other_excluded: Seq<Seq<char>>,
    transparent_prefixes: Seq<Seq<char>>,
    other_transparent_prefixes: Seq<Seq<char>>,
    r: Coverage,
    other_r: Coverage,
)
    requires
        hook_log.contains_key(tool_use_id),
        covers(
            rules,
            cmd,
            tool_use_id,
            hook_log,
            hook_installed,
            excluded,
            transparent_prefixes,
            r,
        ),
        covers(
            other_rules,
            other_cmd,
            tool_use_id,
            hook_log,
            other_hook_installed,
            other_excluded,
            other_transparent_prefixes,
            other_r,
        ),
    ensures
        r == other_r,
        r is Measured,
        r.covered() == (hook_log[tool_use_id].decision == HookOutcome::Allow),
{
}

/// Without a row in the log and without a hook, a command was not covered, whatever the rules say
/// of it.
pub proof fn law_no_hook_no_coverage<R: CommandRules>(
    rules: &R,
    cmd: Seq<char>,
    tool_use_id: Seq<char>,
    hook_log: Map<Seq<char>, HookDecisionRecord>,
    excluded: Seq<Seq<char>>,
    transparent_prefixes: Seq<Seq<char>>,
    r: Coverage,
)
    requires
        !hook_log.contains_key(tool_use_id),
        covers(
            rules,
            cmd,
            tool_use_id,
            hook_log,
            false,
            excluded,
            transparent_prefixes,
            r,
        ),
    ensures
        r == Coverage::Estimated(false),
{
}

/// A command that the rules always deny, or always find something unattestable in, or never
/// rewrite, is not estimated as covered.
pub proof fn law_estimate_needs_a_rewrite<R: CommandRules>(
    rules: &R,
    cmd: Seq<char>,
    hook_installed: bool,
    excluded: Seq<Seq<char>>,
    transparent_prefixes: Seq<Seq<char>>,
    r: bool,
)
    requires
        estimates(rules, cmd, hook_installed, excluded, transparent_prefixes, r),
        ({
            ||| forall|v: PermissionVerdict| #[trigger]
                says_verdict(rules, cmd, v) ==> v == PermissionVerdict::Deny
            ||| !says_unattestable(rules, cmd, false)
            ||| !says_rewritable(rules, cmd, excluded, transparent_prefixes, true)
        }),
    ensures
        !r,
{
}

/// Only a denial matters: under any two verdicts that are none, the same guesses can come out, and
/// where the rules answer each question in one way, the same guess does.
pub proof fn law_only_deny_matters<R: CommandRules>(
    rules: &R,
    cmd: Seq<char>,
    verdict: PermissionVerdict,
    other_verdict: PermissionVerdict,
    hook_installed: bool,
    excluded: Seq<Seq<char>>,
    transparent_prefixes: Seq<Seq<char>>,
    r: bool,
    other_r: bool,
)
    requires
        verdict != PermissionVerdict::Deny,
        other_verdict != PermissionVerdict::Deny,
    ensures
        estimates_with_verdict(
            rules,
            cmd,
            verdict,
            hook_installed,
            excluded,
            transparent_prefixes,
            r,
        ) == estimates_with_verdict(
            rules,
            cmd,
            other_verdict,
            hook_installed,
            excluded,
            transparent_prefixes,
            r,
        ),
        answers_once(rules) && estimates_with_verdict(
            rules,
            cmd,
            verdict,
            hook_installed,
            excluded,
            transparent_prefixes,
            r,
        ) && estimates_with_verdict(
            rules,
            cmd,
            other_verdict,
            hook_installed,
            excluded,
            transparent_prefixes,
            other_r,
        ) ==> r == other_r,
{
}

/// Only the row of the tool call itself matters: under two logs that say the same of it, whatever
/// else they hold, the same answers can come out, and where the rules answer each question in one
/// way, the same answer does.
pub proof fn law_other_rows_do_not_matter<R: CommandRules>(
    rules: &R,
    cmd: Seq<char>,
    tool_use_id: Seq<char>,
    hook_log: Map<Seq<char>, HookDecisionRecord>,
    other_log: Map<Seq<char>, HookDecisionRecord>,
    hook_installed: bool,
    excluded: Seq<Seq<char>>,
    transparent_prefixes: Seq<Seq<char>>,
    r: Coverage,
    other_r: Coverage,
)
    requires
        hook_log.contains_key(tool_use_id) == other_log.contains_key(tool_use_id),
        hook_log.contains_key(tool_use_id) ==> hook_log[tool_use_id] == other_log[tool_use_id],
    ensures
        covers(
            rules,
            cmd,
            tool_use_id,
            hook_log,
            hook_installed,
            excluded,
            transparent_prefixes,
            r,
        ) == covers(
            rules,
            cmd,
            tool_use_id,
            other_log,
            hook_installed,
            excluded,
            transparent_prefixes,
            r,
        ),
        answers_once(rules) && covers(
            rules,
            cmd,
            tool_use_id,
            hook_log,
            hook_installed,
            excluded,
            transparent_prefixes,
            r,
        ) && covers(
            rules,
            cmd,
            tool_use_id,
            other_log,
            hook_installed,
            excluded,
            transparent_prefixes,
            other_r,
        ) ==> r == other_r,
{
}

/// With the hook installed and the command not denied, a command that holds nothing unattestable and
/// that the rules rewrite is estimated as covered, whatever is excluded and whatever prefixes are
/// transparent.
pub proof fn law_rewritten_is_covered<R: CommandRules>(
    rules: &R,
    cmd: Seq<char>,
    verdict: PermissionVerdict,
    excluded: Seq<Seq<char>>,
    transparent_prefixes: Seq<Seq<char>>,
    r: bool,
)
    requires
        verdict != PermissionVerdict::Deny,
        answers_once(rules),
        says_unattestable(rules, cmd, false),
        says_rewritable(rules, cmd, excluded, transparent_prefixes, true),
        estimates_with_verdict(
            rules,
            cmd,
            verdict,
            true,
            excluded,
            transparent_prefixes,
            r,
        ),
    ensures
        r,
{
}

/// Where each answer of the rules depends on the question alone, a command is estimated as covered
/// exactly where the hook is installed, the verdict is not a denial, the command holds nothing
/// unattestable and the rules rewrite it under the exclusions and prefixes that are configured.
pub proof fn law_estimate<R: CommandRules>(
    rules: &R,
    m: RulesModel,
    cmd: Seq<char>,
    verdict: PermissionVerdict,
    hook_installed: bool,
    excluded: Seq<Seq<char>>,
    transparent_prefixes: Seq<Seq<char>>,
    r: bool,
)
    requires
        follows(rules, m),
        estimates_with_verdict(
            rules,
            cmd,
            verdict,
            hook_installed,
            excluded,
            transparent_prefixes,
            r,
        ),
    ensures
        r <==> {
            &&& hook_installed
            &&& verdict != PermissionVerdict::Deny
            &&& !(m.unattestable)(cmd)
            &&& (m.rewrites)(cmd, excluded, transparent_prefixes)
        },
{
    lemma_follows(rules, m);
}

/// Where each answer of the rules depends on the question alone, coverage is measured where the log
/// has a row of the tool call, and then it is what the row says; otherwise it is estimated, under
/// the verdict that the rules give on the command.
pub proof fn law_coverage<R: CommandRules>(
    rules: &R,
    m: RulesModel,
    cmd: Seq<char>,
    tool_use_id: Seq<char>,
    hook_log: Map<Seq<char>, HookDecisionRecord>,
    hook_installed: bool,
    excluded: Seq<Seq<char>>,
    transparent_prefixes: Seq<Seq<char>>,
    r: Coverage,
)
    requires
        follows(rules, m),
        covers(
            rules,
            cmd,
            tool_use_id,
            hook_log,
            hook_installed,
            excluded,
            transparent_prefixes,
            r,
        ),
    ensures
        hook_log.contains_key(tool_use_id) ==> r == Coverage::Measured(
            hook_log[tool_use_id].decision == HookOutcome::Allow,
        ),
        !hook_log.contains_key(tool_use_id) ==> r == Coverage::Estimated(
            hook_installed && (m.verdict)(cmd) != PermissionVerdict::Deny && !(m.unattestable)(cmd)
                && (m.rewrites)(cmd, excluded, transparent_prefixes),
        ),
{
    lemma_follows(rules, m);
    if !hook_log.contains_key(tool_use_id) {
        let verdict = choose|verdict: PermissionVerdict|
            #[trigger] says_verdict(rules, cmd, verdict) && estimates_with_verdict(
                rules,
                cmd,
                verdict,
                hook_installed,
                excluded,
                transparent_prefixes,
                r.covered(),
            );
        law_estimate(
            rules,
            m,
            cmd,
            verdict,
            hook_installed,
            excluded,
            transparent_prefixes,
            r.covered(),
        );
    }
}

} // verus!
