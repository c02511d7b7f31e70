//! What the scan asks about a command, and the answers it can get.
//!
//! Which commands exist, how a chain of them is split and what the user's configuration says of
//! them is decided elsewhere. The scan asks an implementation of [`CommandRules`] and takes every
//! answer as it comes. The `says_*` predicates say that an answer was given to a question.

use vstd::prelude::*;

verus! {

/// What a permission check says of a command.
#[derive(Clone, Copy, Debug, PartialEq, Eq, Structural)]
pub enum PermissionVerdict {
    Allow,
    Deny,
    Ask,
    Default,
}

/// How a supported command is handled.
#[derive(Clone, Copy, Debug, PartialEq, Eq, Structural)]
pub enum RtkStatus {
    Existing,
    Passthrough,
    NotSupported,
}

/// A percentage, held as the bit pattern of the binary floating-point number that states it.
#[derive(Clone, Copy, Debug, PartialEq, Eq, Structural)]
pub struct SavingsPct {
    pub bits: u64,
}

/// What is known of a command.
#[derive(Debug)]
pub enum Classification {
    /// The command could run through the filter.
    Supported {
        rtk_equivalent: &'static str,
        category: &'static str,
        estimated_savings_pct: SavingsPct,
        status: RtkStatus,
    },
    /// A command that no filter exists for.
    Unsupported { base_command: String },
    /// A command that is of no interest.
    Ignored,
}

/// The rules about commands that the scan relies on.
pub trait CommandRules {
    /// The commands that a chain such as `a && b` consists of.
    fn split_command_chain<'a>(&self, command: &'a str) -> Vec<&'a str>;

    /// The environment assignments in front of a command, and the command behind them.
    fn strip_disabled_prefix<'a>(&self, command: &'a str) -> (&'a str, &'a str);

    /// Whether environment assignments switch the filter off.
    fn prefix_contains_rtk_disabled(&self, env_prefix: &str) -> bool;

    /// What is known of a command.
    fn classify_command(&self, command: &str) -> Classification;

    /// The output that a command of this category and subcommand has on average, in tokens.
    fn category_avg_tokens(&self, category: &str, subcmd: &str) -> usize;

    /// The share of `output_tokens` that `pct` percent come to, rounded toward zero.
    fn savings_tokens(&self, output_tokens: usize, pct: SavingsPct) -> usize;

    /// Whether a command holds something that keeps the hook from telling what would run.
    fn contains_unattestable_construct(&self, command: &str) -> bool;

    /// The command that the hook would run instead, where it would run another one.
    fn rewrite_command(
        &self,
        command: &str,
        excluded: &[String],
        transparent_prefixes: &[String],
    ) -> Option<String>;

    /// What the permissions that are configured today say of a command.
    fn check_command(&self, command: &str) -> PermissionVerdict;
}

/// The texts that a sequence of strings holds.
pub open spec fn texts(s: Seq<String>) -> Seq<Seq<char>> {
    s.map_values(|t: String| t@)
}

/// The texts that a sequence of string slices holds.
pub open spec fn slice_texts(s: Seq<&str>) -> Seq<Seq<char>> {
    s.map_values(|t: &str| t@)
}

/// What a [`Classification`] holds.
pub enum ClassificationView {
    Supported {
        rtk_equivalent: Seq<char>,
        category: Seq<char>,
        estimated_savings_pct: SavingsPct,
        status: RtkStatus,
    },
    Unsupported { base_command: Seq<char> },
    Ignored,
}

impl View for Classification {
    type V = ClassificationView;

    open spec fn view(&self) -> ClassificationView {
        match *self {
            Classification::Supported {
                rtk_equivalent,
                category,
                estimated_savings_pct,
                status,
            } => ClassificationView::Supported {
                rtk_equivalent: rtk_equivalent@,
                category: category@,
                estimated_savings_pct,
                status,
            },
            Classification::Unsupported { base_command } => ClassificationView::Unsupported {
                base_command: base_command@,
            },
            Classification::Ignored => ClassificationView::Ignored,
        }
    }
}

/// `rules` splits the chain `command` into `parts`.
pub open spec fn says_split<R: CommandRules>(
    rules: &R,
    command: Seq<char>,
    parts: Seq<Seq<char>>,
) -> bool {
    exists|c: &str, r: Vec<&str>|
        #![trigger call_ensures(R::split_command_chain, (rules, c), r)]
        c@ == command && slice_texts(r@) == parts && call_ensures(
            R::split_command_chain,
            (rules, c),
            r,
        )
}

/// `rules` finds `env_prefix` in front of `actual` in `command`.
pub open spec fn says_prefix<R: CommandRules>(
    rules: &R,
    command: Seq<char>,
    env_prefix: Seq<char>,
    actual: Seq<char>,
) -> bool {
    exists|c: &str, r: (&str, &str)|
        #![trigger call_ensures(R::strip_disabled_prefix, (rules, c), r)]
        c@ == command && r.0@ == env_prefix && r.1@ == actual && call_ensures(
            R::strip_disabled_prefix,
            (rules, c),
            r,
        )
}

/// `rules` says whether `env_prefix` switches the filter off.
pub open spec fn says_disabled<R: CommandRules>(
    rules: &R,
    env_prefix: Seq<char>,
    answer: bool,
) -> bool {
    exists|c: &str|
        #![trigger call_ensures(R::prefix_contains_rtk_disabled, (rules, c), answer)]
        c@ == env_prefix && call_ensures(R::prefix_contains_rtk_disabled, (rules, c), answer)
}

/// `rules` classifies `command` so.
pub open spec fn says_class<R: CommandRules>(
    rules: &R,
    command: Seq<char>,
    answer: ClassificationView,
) -> bool {
    exists|c: &str, r: Classification|
        #![trigger call_ensures(R::classify_command, (rules, c), r)]
        c@ == command && r@ == answer && call_ensures(R::classify_command, (rules, c), r)
}

/// `rules` gives the average output of a category and subcommand.
pub open spec fn says_avg_tokens<R: CommandRules>(
    rules: &R,
    category: Seq<char>,
    subcmd: Seq<char>,
    answer: usize,
) -> bool {
    exists|c: &str, s: &str|
        #![trigger call_ensures(R::category_avg_tokens, (rules, c, s), answer)]
        c@ == category && s@ == subcmd && call_ensures(
            R::category_avg_tokens,
            (rules, c, s),
            answer,
        )
}

/// `rules` gives the share of `output_tokens` that `pct` percent come to.
pub open spec fn says_savings<R: CommandRules>(
    rules: &R,
    output_tokens: usize,
    pct: SavingsPct,
    answer: usize,
) -> bool {
    call_ensures(R::savings_tokens, (rules, output_tokens, pct), answer)
}

/// `rules` says whether `command` holds an unattestable construct.
pub open spec fn says_unattestable<R: CommandRules>(
    rules: &R,
    command: Seq<char>,
    answer: bool,
) -> bool {
    exists|c: &str|
        #![trigger call_ensures(R::contains_unattestable_construct, (rules, c), answer)]
        c@ == command && call_ensures(R::contains_unattestable_construct, (rules, c), answer)
}

/// `rules` says whether the hook would run something else in place of `command`.
pub open spec fn says_rewritable<R: CommandRules>(
    rules: &R,
    command: Seq<char>,
    excluded: Seq<Seq<char>>,
    transparent_prefixes: Seq<Seq<char>>,
    answer: bool,
) -> bool {
    exists|c: &str, e: &[String], p: &[String], r: Option<String>|
        #![trigger call_ensures(R::rewrite_command, (rules, c, e, p), r)]
        c@ == command && texts(e@) == excluded && texts(p@) == transparent_prefixes && (r is Some)
            == answer && call_ensures(R::rewrite_command, (rules, c, e, p), r)
}

/// `rules` gives this verdict on `command`.
pub open spec fn says_verdict<R: CommandRules>(
    rules: &R,
    command: Seq<char>,
    answer: PermissionVerdict,
) -> bool {
    exists|c: &str|
        #![trigger call_ensures(R::check_command, (rules, c), answer)]
        c@ == command && call_ensures(R::check_command, (rules, c), answer)
}

/// Whether `rules` answer each question in one way, as functions of the question do.
pub open spec fn answers_once<R: CommandRules>(rules: &R) -> bool {
    &&& forall|c: Seq<char>, a: Seq<Seq<char>>, b: Seq<Seq<char>>|
        #![trigger says_split(rules, c, a), says_split(rules, c, b)]
        says_split(rules, c, a) && says_split(rules, c, b) ==> a == b
    &&& forall|c: Seq<char>, e: Seq<char>, a: Seq<char>, f: Seq<char>, b: Seq<char>|
        #![trigger says_prefix(rules, c, e, a), says_prefix(rules, c, f, b)]
        says_prefix(rules, c, e, a) && says_prefix(rules, c, f, b) ==> e == f && a == b
    &&& forall|c: Seq<char>, a: bool, b: bool|
        #![trigger says_disabled(rules, c, a), says_disabled(rules, c, b)]
        says_disabled(rules, c, a) && says_disabled(rules, c, b) ==> a == b
    &&& forall|c: Seq<char>, a: ClassificationView, b: ClassificationView|
        #![trigger says_class(rules, c, a), says_class(rules, c, b)]
        says_class(rules, c, a) && says_class(rules, c, b) ==> a == b
    &&& forall|c: Seq<char>, s: Seq<char>, a: usize, b: usize|
        #![trigger says_avg_tokens(rules, c, s, a), says_avg_tokens(rules, c, s, b)]
        says_avg_tokens(rules, c, s, a) && says_avg_tokens(rules, c, s, b) ==> a == b
    &&& forall|n: usize, pct: SavingsPct, a: usize, b: usize|
        #![trigger says_savings(rules, n, pct, a), says_savings(rules, n, pct, b)]
        says_savings(rules, n, pct, a) && says_savings(rules, n, pct, b) ==> a == b
    &&& forall|c: Seq<char>, a: bool, b: bool|
        #![trigger says_unattestable(rules, c, a), says_unattestable(rules, c, b)]
        says_unattestable(rules, c, a) && says_unattestable(rules, c, b) ==> a == b
    &&& forall|c: Seq<char>, e: Seq<Seq<char>>, p: Seq<Seq<char>>, a: bool, b: bool|
        #![trigger says_rewritable(rules, c, e, p, a), says_rewritable(rules, c, e, p, b)]
        says_rewritable(rules, c, e, p, a) && says_rewritable(rules, c, e, p, b) ==> a == b
    &&& forall|c: Seq<char>, a: PermissionVerdict, b: PermissionVerdict|
        #![trigger says_verdict(rules, c, a), says_verdict(rules, c, b)]
        says_verdict(rules, c, a) && says_verdict(rules, c, b) ==> a == b
}

/// What rules answer where each answer depends on the question alone: one function for each
/// question.
pub struct RulesModel {
    pub split: spec_fn(Seq<char>) -> Seq<Seq<char>>,
    pub prefix: spec_fn(Seq<char>) -> (Seq<char>, Seq<char>),
    pub disabled: spec_fn(Seq<char>) -> bool,
    pub class: spec_fn(Seq<char>) -> ClassificationView,
    pub avg_tokens: spec_fn(Seq<char>, Seq<char>) -> usize,
    pub savings: spec_fn(usize, SavingsPct) -> usize,
    pub unattestable: spec_fn(Seq<char>) -> bool,
    pub rewrites: spec_fn(Seq<char>, Seq<Seq<char>>, Seq<Seq<char>>) -> bool,
    pub verdict: spec_fn(Seq<char>) -> PermissionVerdict,
}

/// Whether every answer that `rules` can give is the one that `m` has for the question.
pub open spec fn follows<R: CommandRules>(rules: &R, m: RulesModel) -> bool {
    &&& forall|c: &str, r: Vec<&str>| #[trigger]
        call_ensures(R::split_command_chain, (rules, c), r) ==> r@.map_values(|t: &str| t@) == (
        m.split)(c@)
    &&& forall|c: &str, r: (&str, &str)| #[trigger]
        call_ensures(R::strip_disabled_prefix, (rules, c), r) ==> (r.0@, r.1@) == (m.prefix)(c@)
    &&& forall|c: &str, r: bool| #[trigger]
        call_ensures(R::prefix_contains_rtk_disabled, (rules, c), r) ==> r == (m.disabled)(c@)
    &&& forall|c: &str, r: Classification| #[trigger]
        call_ensures(R::classify_command, (rules, c), r) ==> (m.class)(c@) == (match r {
            Classification::Supported {
                rtk_equivalent,
                category,
                estimated_savings_pct,
                status,
            } => ClassificationView::Supported {
                rtk_equivalent: rtk_equivalent@,
                category: category@,
                estimated_savings_pct,
                status,
            },
            Classification::Unsupported { base_command } => ClassificationView::Unsupported {
                base_command: base_command@,
            },
            Classification::Ignored => ClassificationView::Ignored,
        })
    &&& forall|c: &str, s: &str, r: usize| #[trigger]
        call_ensures(R::category_avg_tokens, (rules, c, s), r) ==> r == (m.avg_tokens)(c@, s@)
    &&& forall|n: usize, pct: SavingsPct, r: usize| #[trigger]
        call_ensures(R::savings_tokens, (rules, n, pct), r) ==> r == (m.savings)(n, pct)
    &&& forall|c: &str, r: bool| #[trigger]
        call_ensures(R::contains_unattestable_construct, (rules, c), r) ==> r == (m.unattestable)(
            c@,
        )
    &&& forall|c: &str, e: &[String], p: &[String], r: Option<String>| #[trigger]
        call_ensures(R::rewrite_command, (rules, c, e, p), r) ==> (r is Some) == (m.rewrites)(
            c@,
            e@.map_values(|t: String| t@),
            p@.map_values(|t: String| t@),
        )
    &&& forall|c: &str, r: PermissionVerdict| #[trigger]
        call_ensures(R::check_command, (rules, c), r) ==> r == (m.verdict)(c@)
}

/// Rules that follow a model say what the model says.
pub proof fn lemma_follows<R: CommandRules>(rules: &R, m: RulesModel)
    requires
        follows(rules, m),
    ensures
        forall|c: Seq<char>, a: Seq<Seq<char>>| #[trigger]
            says_split(rules, c, a) ==> a == (m.split)(c),
        forall|c: Seq<char>, e: Seq<char>, a: Seq<char>| #[trigger]
            says_prefix(rules, c, e, a) ==> (e, a) == (m.prefix)(c),
        forall|c: Seq<char>, a: bool| #[trigger]
            says_disabled(rules, c, a) ==> a == (m.disabled)(c),
        forall|c: Seq<char>, a: ClassificationView| #[trigger]
            says_class(rules, c, a) ==> a == (m.class)(c),
        forall|c: Seq<char>, s: Seq<char>, a: usize| #[trigger]
            says_avg_tokens(rules, c, s, a) ==> a == (m.avg_tokens)(c, s),
        forall|n: usize, pct: SavingsPct, a: usize| #[trigger]
            says_savings(rules, n, pct, a) ==> a == (m.savings)(n, pct),
        forall|c: Seq<char>, a: bool| #[trigger]
            says_unattestable(rules, c, a) ==> a == (m.unattestable)(c),
        forall|c: Seq<char>, e: Seq<Seq<char>>, p: Seq<Seq<char>>, a: bool| #[trigger]
            says_rewritable(rules, c, e, p, a) ==> a == (m.rewrites)(c, e, p),
        forall|c: Seq<char>, a: PermissionVerdict| #[trigger]
            says_verdict(rules, c, a) ==> a == (m.verdict)(c),
{
}

} // verus!
