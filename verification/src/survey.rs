//! What the rules say of every command that the sessions hold.

use vstd::prelude::*;

use crate::command::{extract_subcmd, subcmd};
use crate::coverage::{
    covers, hook_coverage, law_coverage, law_other_rows_do_not_matter, Coverage,
    HookDecisionRecord, HookLog, HookOutcome,
};
use crate::rules::{
    answers_once, follows, lemma_follows, says_avg_tokens, says_class, says_disabled, says_prefix,
    says_savings, says_split, slice_texts, texts, Classification, ClassificationView, CommandRules,
    PermissionVerdict, RtkStatus, RulesModel,
};

verus! {

/// The state of the hook and of its configuration, as of today.
#[derive(Debug)]
pub struct ScanSettings {
    pub hook_installed: bool,
    pub excluded: Vec<String>,
    pub transparent_prefixes: Vec<String>,
}

/// A command line that a session ran.
#[derive(Debug)]
pub struct ExtractedCommand {
    pub command: String,
    pub tool_use_id: String,
    /// The length of what the command printed, where the session holds it.
    pub output_len: Option<usize>,
}

/// A session file.
#[derive(Debug)]
pub enum SessionLog {
    /// A file that could not be read.
    Unreadable,
    /// The command lines of the session, in their order.
    Commands(Vec<ExtractedCommand>),
}

/// What was found out about one command of a chain.
#[derive(Debug)]
pub enum Finding {
    /// A supported command. Where it was missed, with the tokens that it printed and those of them
    /// that its filter would have saved; where nothing was missed, they are not asked for and are
    /// zero.
    Supported {
        rtk_equivalent: &'static str,
        category: &'static str,
        status: RtkStatus,
        coverage: Coverage,
        raw_tokens: usize,
        saved_tokens: usize,
    },
    Unsupported { base_command: String },
    Ignored,
}

/// One command of a chain.
#[derive(Debug)]
pub struct PartFacts {
    /// The command. Where the filter was switched off in front of it, without what did so.
    pub text: String,
    /// Whether the filter was switched off in front of the command.
    pub disabled: bool,
    pub finding: Finding,
}

/// What was found out about a session: for each of its command lines, the commands of the chain.
#[derive(Debug)]
pub enum SessionFacts {
    Unreadable,
    Commands(Vec<Vec<PartFacts>>),
}

/// What a [`Finding`] holds.
pub enum FindingView {
    Supported {
        rtk_equivalent: Seq<char>,
        category: Seq<char>,
        status: RtkStatus,
        coverage: Coverage,
        raw_tokens: nat,
        saved_tokens: nat,
    },
    Unsupported { base_command: Seq<char> },
    Ignored,
}

impl View for Finding {
    type V = FindingView;

    open spec fn view(&self) -> FindingView {
        match *self {
            Finding::Supported {
                rtk_equivalent,
                category,
                status,
                coverage,
                raw_tokens,
                saved_tokens,
            } => FindingView::Supported {
                rtk_equivalent: rtk_equivalent@,
                category: category@,
                status,
                coverage,
                raw_tokens: raw_tokens as nat,
                saved_tokens: saved_tokens as nat,
            },
            Finding::Unsupported { base_command } => FindingView::Unsupported {
                base_command: base_command@,
            },
            Finding::Ignored => FindingView::Ignored,
        }
    }
}

/// What [`PartFacts`] hold.
pub struct PartView {
    pub text: Seq<char>,
    pub disabled: bool,
    pub finding: FindingView,
}

impl View for PartFacts {
    type V = PartView;

    open spec fn view(&self) -> PartView {
        PartView { text: self.text@, disabled: self.disabled, finding: self.finding@ }
    }
}

/// What the facts about a chain hold.
pub open spec fn part_views(parts: Seq<PartFacts>) -> Seq<PartView> {
    parts.map_values(|f: PartFacts| f@)
}

/// What the facts about the command lines of a session hold.
pub open spec fn chain_views(chains: Seq<Vec<PartFacts>>) -> Seq<Seq<PartView>> {
    chains.map_values(|c: Vec<PartFacts>| part_views(c@))
}

/// What [`SessionFacts`] hold.
pub enum SessionView {
    Unreadable,
    Commands(Seq<Seq<PartView>>),
}

impl View for SessionFacts {
    type V = SessionView;

    open spec fn view(&self) -> SessionView {
        match *self {
            SessionFacts::Unreadable => SessionView::Unreadable,
            SessionFacts::Commands(chains) => SessionView::Commands(chain_views(chains@)),
        }
    }
}

/// What the facts about all sessions hold.
pub open spec fn session_views(sessions: Seq<SessionFacts>) -> Seq<SessionView> {
    sessions.map_values(|s: SessionFacts| s@)
}

/// `raw` is the unfiltered output of `text` in tokens: a quarter of its length where that is known,
/// and what `rules` give as the average of its category and subcommand where it is not.
pub open spec fn measures_output<R: CommandRules>(
    rules: &R,
    output_len: Option<usize>,
    category: Seq<char>,
    text: Seq<char>,
    raw: usize,
) -> bool {
    match output_len {
        Some(len) => raw == len / 4,
        None => says_avg_tokens(rules, category, subcmd(text), raw),
    }
}

/// `finding` is what `rules` and the log say of `text`. `disabled` says whether the filter was
/// switched off in front of it.
pub open spec fn finds<R: CommandRules>(
    rules: &R,
    settings: &ScanSettings,
    hook_log: Map<Seq<char>, HookDecisionRecord>,
    tool_use_id: Seq<char>,
    output_len: Option<usize>,
    disabled: bool,
    text: Seq<char>,
    finding: Finding,
) -> bool {
    exists|class: ClassificationView| #[trigger]
        says_class(rules, text, class) && match class {
            ClassificationView::Supported {
                rtk_equivalent,
                category,
                estimated_savings_pct,
                status,
            } => {
                &&& finding is Supported
                &&& finding->rtk_equivalent@ == rtk_equivalent
                &&& finding->category@ == category
                &&& finding->status == status
                &&& covers(
                    rules,
                    text,
                    tool_use_id,
                    hook_log,
                    settings.hook_installed,
                    texts(settings.excluded@),
                    texts(settings.transparent_prefixes@),
                    finding->coverage,
                )
                &&& if disabled || finding->coverage.covered() {
                    finding->raw_tokens == 0 && finding->saved_tokens == 0
                } else {
                    measures_output(rules, output_len, category, text, finding->raw_tokens)
                        && says_savings(
                        rules,
                        finding->raw_tokens,
                        estimated_savings_pct,
                        finding->saved_tokens,
                    )
                }
            },
            ClassificationView::Unsupported { base_command } => finding@
                == (FindingView::Unsupported { base_command }),
            ClassificationView::Ignored => finding is Ignored,
        }
}

/// `facts` is what `rules` and the log say of `part`, one command of a chain.
pub open spec fn observes_part<R: CommandRules>(
    rules: &R,
    settings: &ScanSettings,
    hook_log: Map<Seq<char>, HookDecisionRecord>,
    tool_use_id: Seq<char>,
    output_len: Option<usize>,
    part: Seq<char>,
    facts: PartFacts,
) -> bool {
    exists|env_prefix: Seq<char>, actual: Seq<char>| #[trigger]
        says_prefix(rules, part, env_prefix, actual) && says_disabled(
            rules,
            env_prefix,
            facts.disabled,
        ) && facts.text@ == (if facts.disabled {
            actual
        } else {
            part
        }) && finds(
            rules,
            settings,
            hook_log,
            tool_use_id,
            output_len,
            facts.disabled,
            facts.text@,
            facts.finding,
        )
}

/// `facts` is what `rules` and the log say of a command line: one entry for each command that the
/// rules split it into, in their order.
pub open spec fn observes_command<R: CommandRules>(
    rules: &R,
    settings: &ScanSettings,
    hook_log: Map<Seq<char>, HookDecisionRecord>,
    command: ExtractedCommand,
    facts: Seq<PartFacts>,
) -> bool {
    exists|parts: Seq<Seq<char>>| #[trigger]
        says_split(rules, command.command@, parts) && facts.len() == parts.len() && forall|i: int|
            0 <= i < parts.len() ==> observes_part(
                rules,
                settings,
                hook_log,
                command.tool_use_id@,
                command.output_len,
                parts[i],
                #[trigger] facts[i],
            )
}

/// `facts` is what `rules` and the log say of a session, command line by command line.
pub open spec fn observes_session<R: CommandRules>(
    rules: &R,
    settings: &ScanSettings,
    hook_log: Map<Seq<char>, HookDecisionRecord>,
    session: SessionLog,
    facts: SessionFacts,
) -> bool {
    match session {
        SessionLog::Unreadable => facts is Unreadable,
        SessionLog::Commands(commands) => facts matches SessionFacts::Commands(chains)
            && chains@.len() == commands@.len() && forall|i: int|
            0 <= i < chains@.len() ==> observes_command(
                rules,
                settings,
                hook_log,
                commands@[i],
                (#[trigger] chains@[i])@,
            ),
    }
}

/// `facts` is what `rules` and the log say of all sessions.
pub open spec fn observes<R: CommandRules>(
    rules: &R,
    settings: &ScanSettings,
    hook_log: Map<Seq<char>, HookDecisionRecord>,
    sessions: Seq<SessionLog>,
    facts: Seq<SessionFacts>,
) -> bool {
    facts.len() == sessions.len() && forall|i: int|
        0 <= i < facts.len() ==> observes_session(
            rules,
            settings,
            hook_log,
            sessions[i],
            #[trigger] facts[i],
        )
}

fn find<R: CommandRules>(
    rules: &R,
    settings: &ScanSettings,
    hook_log: &HookLog,
    tool_use_id: &str,
    output_len: Option<usize>,
    disabled: bool,
    text: &str,
) -> (finding: Finding)
    ensures
        finds(rules, settings, hook_log@, tool_use_id@, output_len, disabled, text@, finding),
{
    let class = rules.classify_command(text);
    assert(says_class(rules, text@, class@));
    match class {
        Classification::Supported {
            rtk_equivalent,
            category,
            estimated_savings_pct,
            status,
        } => {
            let coverage = hook_coverage(
                rules,
                text,
                tool_use_id,
                hook_log,
                settings.hook_installed,
                settings.excluded.as_slice(),
                settings.transparent_prefixes.as_slice(),
            );
            if disabled || coverage.is_covered() {
                return Finding::Supported {
                    rtk_equivalent,
                    category,
                    status,
                    coverage,
                    raw_tokens: 0,
                    saved_tokens: 0,
                };
            }
            let raw_tokens: usize = match output_len {
                Some(len) => len / 4,
                None => {
                    let word = extract_subcmd(text);
                    let average = rules.category_avg_tokens(category, word);
                    assert(says_avg_tokens(rules, category@, subcmd(text@), average));
                    average
                },
            };
            let saved_tokens: usize = rules.savings_tokens(raw_tokens, estimated_savings_pct);
            Finding::Supported {
                rtk_equivalent,
                category,
                status,
                coverage,
                raw_tokens,
                saved_tokens,
            }
        },
        Classification::Unsupported { base_command } => Finding::Unsupported { base_command },
        Classification::Ignored => Finding::Ignored,
    }
}

/// What `rules` and the log say of one command of a chain.
pub fn observe_part<R: CommandRules>(
    rules: &R,
    settings: &ScanSettings,
    hook_log: &HookLog,
    tool_use_id: &str,
    output_len: Option<usize>,
    part: &str,
) -> (facts: PartFacts)
    ensures
        observes_part(rules, settings, hook_log@, tool_use_id@, output_len, part@, facts),
{
    let (env_prefix, actual) = rules.strip_disabled_prefix(part);
    assert(says_prefix(rules, part@, env_prefix@, actual@));
    let disabled = rules.prefix_contains_rtk_disabled(env_prefix);
    assert(says_disabled(rules, env_prefix@, disabled));
    let text = if disabled {
        actual
    } else {
        part
    };
    let finding = find(rules, settings, hook_log, tool_use_id, output_len, disabled, text);
    PartFacts { text: text.to_owned(), disabled, finding }
}

/// What `rules` and the log say of a command line.
pub fn observe_command<R: CommandRules>(
    rules: &R,
    settings: &ScanSettings,
    hook_log: &HookLog,
    command: &ExtractedCommand,
) -> (facts: Vec<PartFacts>)
    ensures
        observes_command(rules, settings, hook_log@, *command, facts@),
{
    let parts = rules.split_command_chain(command.command.as_str());
    assert(says_split(rules, command.command@, slice_texts(parts@)));
    let mut facts: Vec<PartFacts> = Vec::new();
    let mut i: usize = 0;
    while i < parts.len()
        invariant
            i <= parts@.len(),
            facts@.len() == i,
            forall|j: int|
                0 <= j < i ==> observes_part(
                    rules,
                    settings,
                    hook_log@,
                    command.tool_use_id@,
                    command.output_len,
                    slice_texts(parts@)[j],
                    #[trigger] facts@[j],
                ),
        decreases parts@.len() - i,
    {
        let part = parts[i];
        facts.push(
            observe_part(
                rules,
                settings,
                hook_log,
                command.tool_use_id.as_str(),
                command.output_len,
                part,
            ),
        );
        i = i + 1;
    }
    facts
}

/// What `rules` and the log say of a session.
pub fn observe_session<R: CommandRules>(
    rules: &R,
    settings: &ScanSettings,
    hook_log: &HookLog,
    session: &SessionLog,
) -> (facts: SessionFacts)
    ensures
        observes_session(rules, settings, hook_log@, *session, facts),
{
    match session {
        SessionLog::Unreadable => SessionFacts::Unreadable,
        SessionLog::Commands(commands) => {
            let mut chains: Vec<Vec<PartFacts>> = Vec::new();
            let mut i: usize = 0;
            while i < commands.len()
                invariant
                    i <= commands@.len(),
                    chains@.len() == i,
                    forall|j: int|
                        0 <= j < i ==> observes_command(
                            rules,
                            settings,
                            hook_log@,
                            commands@[j],
                            (#[trigger] chains@[j])@,
                        ),
                decreases commands@.len() - i,
            {
                chains.push(observe_command(rules, settings, hook_log, &commands[i]));
                i = i + 1;
            }
            SessionFacts::Commands(chains)
        },
    }
}

/// What `rules` and the log say of all sessions.
pub fn observe_sessions<R: CommandRules>(
    rules: &R,
    settings: &ScanSettings,
    hook_log: &HookLog,
    sessions: &Vec<SessionLog>,
) -> (facts: Vec<SessionFacts>)
    ensures
        observes(rules, settings, hook_log@, sessions@, facts@),
{
    let mut facts: Vec<SessionFacts> = Vec::new();
    let mut i: usize = 0;
    while i < sessions.len()
        invariant
            i <= sessions@.len(),
            facts@.len() == i,
            forall|j: int|
                0 <= j < i ==> observes_session(
                    rules,
                    settings,
                    hook_log@,
                    sessions@[j],
                    #[trigger] facts@[j],
                ),
        decreases sessions@.len() - i,
    {
        facts.push(observe_session(rules, settings, hook_log, &sessions[i]));
        i = i + 1;
    }
    facts
}

proof fn lemma_one_finding<R: CommandRules>(
    rules: &R,
    settings: &ScanSettings,
    hook_log: Map<Seq<char>, HookDecisionRecord>,
    tool_use_id: Seq<char>,
    output_len: Option<usize>,
    disabled: bool,
    text: Seq<char>,
    a: Finding,
    b: Finding,
)
    requires
        answers_once(rules),
        finds(rules, settings, hook_log, tool_use_id, output_len, disabled, text, a),
        finds(rules, settings, hook_log, tool_use_id, output_len, disabled, text, b),
    ensures
        a@ == b@,
{
    if a is Supported && b is Supported {
        law_other_rows_do_not_matter(
            rules,
            text,
            tool_use_id,
            hook_log,
            hook_log,
            settings.hook_installed,
            texts(settings.excluded@),
            texts(settings.transparent_prefixes@),
            a->coverage,
            b->coverage,
        );
    }
}

proof fn lemma_one_part<R: CommandRules>(
    rules: &R,
    settings: &ScanSettings,
    hook_log: Map<Seq<char>, HookDecisionRecord>,
    tool_use_id: Seq<char>,
    output_len: Option<usize>,
    part: Seq<char>,
    a: PartFacts,
    b: PartFacts,
)
    requires
        answers_once(rules),
        observes_part(rules, settings, hook_log, tool_use_id, output_len, part, a),
        observes_part(rules, settings, hook_log, tool_use_id, output_len, part, b),
    ensures
        a@ == b@,
{
    assert(a.disabled == b.disabled && a.text@ == b.text@);
    lemma_one_finding(
        rules,
        settings,
        hook_log,
        tool_use_id,
        output_len,
        a.disabled,
        a.text@,
        a.finding,
        b.finding,
    );
}

proof fn lemma_one_chain<R: CommandRules>(
    rules: &R,
    settings: &ScanSettings,
    hook_log: Map<Seq<char>, HookDecisionRecord>,
    command: ExtractedCommand,
    a: Seq<PartFacts>,
    b: Seq<PartFacts>,
)
    requires
        answers_once(rules),
        observes_command(rules, settings, hook_log, command, a),
        observes_command(rules, settings, hook_log, command, b),
    ensures
        part_views(a) == part_views(b),
{
    assert(a.len() == b.len());
    assert forall|i: int| 0 <= i < a.len() implies part_views(a)[i] == part_views(b)[i] by {
        let parts = choose|parts: Seq<Seq<char>>| #[trigger]
            says_split(rules, command.command@, parts) && a.len() == parts.len() && forall|i: int|
                0 <= i < parts.len() ==> observes_part(
                    rules,
                    settings,
                    hook_log,
                    command.tool_use_id@,
                    command.output_len,
                    parts[i],
                    #[trigger] a[i],
                );
        lemma_one_part(
            rules,
            settings,
            hook_log,
            command.tool_use_id@,
            command.output_len,
            parts[i],
            a[i],
            b[i],
        );
    }
    assert(part_views(a) =~= part_views(b));
}

/// Where the rules answer each question in one way, the same sessions, settings and log give the
/// same facts.
pub proof fn law_same_sessions_same_facts<R: CommandRules>(
    rules: &R,
    settings: &ScanSettings,
    hook_log: Map<Seq<char>, HookDecisionRecord>,
    sessions: Seq<SessionLog>,
    facts: Seq<SessionFacts>,
    other_facts: Seq<SessionFacts>,
)
    requires
        answers_once(rules),
        observes(rules, settings, hook_log, sessions, facts),
        observes(rules, settings, hook_log, sessions, other_facts),
    ensures
        session_views(facts) == session_views(other_facts),
{
    assert forall|i: int| 0 <= i < facts.len() implies facts[i]@ == other_facts[i]@ by {
        if let SessionLog::Commands(commands) = sessions[i] {
            let a = facts[i]->Commands_0@;
            let b = other_facts[i]->Commands_0@;
            assert forall|j: int| 0 <= j < a.len() implies chain_views(a)[j] == chain_views(b)[j] by {
                lemma_one_chain(rules, settings, hook_log, commands@[j], a[j]@, b[j]@);
            }
            assert(chain_views(a) =~= chain_views(b));
        }
    }
    assert(session_views(facts) =~= session_views(other_facts));
}

/// Every session has its facts, and those of a session that can be read hold every command line,
/// with as many commands as the rules split the line into.
pub proof fn law_every_command_is_observed<R: CommandRules>(
    rules: &R,
    m: RulesModel,
    settings: &ScanSettings,
    hook_log: Map<Seq<char>, HookDecisionRecord>,
    sessions: Seq<SessionLog>,
    facts: Seq<SessionFacts>,
)
    requires
        follows(rules, m),
        observes(rules, settings, hook_log, sessions, facts),
    ensures
        facts.len() == sessions.len(),
        forall|i: int|
            0 <= i < sessions.len() ==> match (sessions[i], #[trigger] facts[i]) {
                (SessionLog::Unreadable, SessionFacts::Unreadable) => true,
                (SessionLog::Commands(lines), SessionFacts::Commands(chains)) => {
                    &&& chains@.len() == lines@.len()
                    &&& forall|j: int|
                        0 <= j < lines@.len() ==> (#[trigger] chains@[j])@.len() == (m.split)(
                            lines@[j].command@,
                        ).len()
                },
                _ => false,
            },
{
    lemma_follows(rules, m);
    assert forall|i: int| 0 <= i < sessions.len() implies match (sessions[i], #[trigger] facts[i]) {
        (SessionLog::Unreadable, SessionFacts::Unreadable) => true,
        (SessionLog::Commands(lines), SessionFacts::Commands(chains)) => {
            &&& chains@.len() == lines@.len()
            &&& forall|j: int|
                0 <= j < lines@.len() ==> (#[trigger] chains@[j])@.len() == (m.split)(
                    lines@[j].command@,
                ).len()
        },
        _ => false,
    } by {
        assert(observes_session(rules, settings, hook_log, sessions[i], facts[i]));
    }
}

proof fn lemma_observed_part<R: CommandRules>(
    rules: &R,
    m: RulesModel,
    settings: &ScanSettings,
    hook_log: Map<Seq<char>, HookDecisionRecord>,
    sessions: Seq<SessionLog>,
    facts: Seq<SessionFacts>,
    i: int,
    j: int,
    k: int,
)
    requires
        follows(rules, m),
        observes(rules, settings, hook_log, sessions, facts),
        0 <= i < facts.len(),
        facts[i] is Commands,
        0 <= j < facts[i]->Commands_0@.len(),
        0 <= k < facts[i]->Commands_0@[j]@.len(),
    ensures
        sessions[i] is Commands,
        j < sessions[i]->Commands_0@.len(),
        ({
            let line = sessions[i]->Commands_0@[j];
            observes_part(
                rules,
                settings,
                hook_log,
                line.tool_use_id@,
                line.output_len,
                (m.split)(line.command@)[k],
                facts[i]->Commands_0@[j]@[k],
            )
        }),
{
    lemma_follows(rules, m);
    assert(observes_session(rules, settings, hook_log, sessions[i], facts[i]));
    let chains = facts[i]->Commands_0@;
    assert(observes_command(
        rules,
        settings,
        hook_log,
        sessions[i]->Commands_0@[j],
        chains[j]@,
    ));
}

/// Each command of a chain is read as the rules say. Where the assignments in front of it switch the
/// filter off, it is read without them, and otherwise as it stands. It is supported, unsupported or
/// ignored as it is classified, under the names that the classification gives.
pub proof fn law_observed_command<R: CommandRules>(
    rules: &R,
    m: RulesModel,
    settings: &ScanSettings,
    hook_log: Map<Seq<char>, HookDecisionRecord>,
    sessions: Seq<SessionLog>,
    facts: Seq<SessionFacts>,
    i: int,
    j: int,
    k: int,
)
    requires
        follows(rules, m),
        observes(rules, settings, hook_log, sessions, facts),
        0 <= i < facts.len(),
        facts[i] is Commands,
        0 <= j < facts[i]->Commands_0@.len(),
        0 <= k < facts[i]->Commands_0@[j]@.len(),
    ensures
        ({
            let part = (m.split)(sessions[i]->Commands_0@[j].command@)[k];
            let (env_prefix, actual) = (m.prefix)(part);
            let f = facts[i]->Commands_0@[j]@[k];
            &&& f.disabled == (m.disabled)(env_prefix)
            &&& f.disabled ==> f.text@ == actual
            &&& !f.disabled ==> f.text@ == part
            &&& match (m.class)(f.text@) {
                ClassificationView::Supported { rtk_equivalent, category, status, .. } => {
                    &&& f.finding is Supported
                    &&& f.finding->rtk_equivalent@ == rtk_equivalent
                    &&& f.finding->category@ == category
                    &&& f.finding->status == status
                },
                ClassificationView::Unsupported { base_command } => {
                    &&& f.finding is Unsupported
                    &&& f.finding->base_command@ == base_command
                },
                ClassificationView::Ignored => f.finding is Ignored,
            }
        }),
{
    lemma_follows(rules, m);
    lemma_observed_part(rules, m, settings, hook_log, sessions, facts, i, j, k);
    let line = sessions[i]->Commands_0@[j];
    let f = facts[i]->Commands_0@[j]@[k];
    assert(finds(
        rules,
        settings,
        hook_log,
        line.tool_use_id@,
        line.output_len,
        f.disabled,
        f.text@,
        f.finding,
    ));
    let class = choose|class: ClassificationView| #[trigger] says_class(rules, f.text@, class);
    if let Finding::Unsupported { base_command } = f.finding {
        assert(f.finding@ == (FindingView::Unsupported { base_command: base_command@ }));
    }
}

/// A supported command is covered as the log says of its tool call, and where the log has no row of
/// it, as the hook, the permissions, the exclusions and the rules of today have it.
pub proof fn law_observed_coverage<R: CommandRules>(
    rules: &R,
    m: RulesModel,
    settings: &ScanSettings,
    hook_log: Map<Seq<char>, HookDecisionRecord>,
    sessions: Seq<SessionLog>,
    facts: Seq<SessionFacts>,
    i: int,
    j: int,
    k: int,
)
    requires
        follows(rules, m),
        observes(rules, settings, hook_log, sessions, facts),
        0 <= i < facts.len(),
        facts[i] is Commands,
        0 <= j < facts[i]->Commands_0@.len(),
        0 <= k < facts[i]->Commands_0@[j]@.len(),
        facts[i]->Commands_0@[j]@[k].finding is Supported,
    ensures
        ({
            let id = sessions[i]->Commands_0@[j].tool_use_id@;
            let f = facts[i]->Commands_0@[j]@[k];
            let estimate = {
                &&& settings.hook_installed
                &&& (m.verdict)(f.text@) != PermissionVerdict::Deny
                &&& !(m.unattestable)(f.text@)
                &&& (m.rewrites)(
                    f.text@,
                    settings.excluded@.map_values(|t: String| t@),
                    settings.transparent_prefixes@.map_values(|t: String| t@),
                )
            };
            &&& hook_log.contains_key(id) ==> f.finding->coverage == Coverage::Measured(
                hook_log[id].decision == HookOutcome::Allow,
            )
            &&& !hook_log.contains_key(id) ==> f.finding->coverage == Coverage::Estimated(estimate)
        }),
{
    lemma_observed_part(rules, m, settings, hook_log, sessions, facts, i, j, k);
    let line = sessions[i]->Commands_0@[j];
    let f = facts[i]->Commands_0@[j]@[k];
    law_coverage(
        rules,
        m,
        f.text@,
        line.tool_use_id@,
        hook_log,
        settings.hook_installed,
        texts(settings.excluded@),
        texts(settings.transparent_prefixes@),
        f.finding->coverage,
    );
}

/// A missed command printed a quarter of its length in tokens, rounded down, however long it is;
/// where the length is not known, as much as a command of its category and second word does on
/// average. It would have saved the share of that which its classification names.
pub proof fn law_observed_tokens<R: CommandRules>(
    rules: &R,
    m: RulesModel,
    settings: &ScanSettings,
    hook_log: Map<Seq<char>, HookDecisionRecord>,
    sessions: Seq<SessionLog>,
    facts: Seq<SessionFacts>,
    i: int,
    j: int,
    k: int,
)
    requires
        follows(rules, m),
        observes(rules, settings, hook_log, sessions, facts),
        0 <= i < facts.len(),
        facts[i] is Commands,
        0 <= j < facts[i]->Commands_0@.len(),
        0 <= k < facts[i]->Commands_0@[j]@.len(),
        !facts[i]->Commands_0@[j]@[k].disabled,
        facts[i]->Commands_0@[j]@[k].finding is Supported,
        ({
            let coverage = facts[i]->Commands_0@[j]@[k].finding->coverage;
            coverage == Coverage::Measured(false) || coverage == Coverage::Estimated(false)
        }),
    ensures
        ({
            let line = sessions[i]->Commands_0@[j];
            let f = facts[i]->Commands_0@[j]@[k];
            let raw = f.finding->raw_tokens;
            &&& line.output_len matches Some(len) ==> 4 * raw <= len < 4 * raw + 4
            &&& line.output_len is None ==> raw == (m.avg_tokens)(
                f.finding->category@,
                subcmd(f.text@),
            )
            &&& (m.class)(f.text@) is Supported
            &&& f.finding->saved_tokens == (m.savings)(
                raw,
                (m.class)(f.text@)->estimated_savings_pct,
            )
        }),
{
    lemma_follows(rules, m);
    lemma_observed_part(rules, m, settings, hook_log, sessions, facts, i, j, k);
}

/// The tokens of a missed command whose output is known do not depend on the rules: whatever they
/// answer, the output has between four times its tokens and three characters more.
pub proof fn law_known_output<R: CommandRules>(
    rules: &R,
    settings: &ScanSettings,
    hook_log: Map<Seq<char>, HookDecisionRecord>,
    tool_use_id: Seq<char>,
    len: usize,
    part: Seq<char>,
    facts: PartFacts,
)
    requires
        observes_part(rules, settings, hook_log, tool_use_id, Some(len), part, facts),
        !facts.disabled,
        facts.finding is Supported,
        facts.finding->coverage == Coverage::Measured(false) || facts.finding->coverage
            == Coverage::Estimated(false),
    ensures
        4 * facts.finding->raw_tokens <= len < 4 * facts.finding->raw_tokens + 4,
{
}

} // verus!
