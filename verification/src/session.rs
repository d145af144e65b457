//! The decisions taken when an agent session starts: which built-in tools are
//! active, which safety policies apply, and the capabilities sent to the
//! harness. Finding the harness binary, the working directory and the home
//! directory is left to the caller, who passes what it found.

use vstd::prelude::*;
use crate::policy::{
    Condition, Decision, Policy, Verdict, CallbackOutcome, confirm_run_command, file_tools, workspace_only,
    evaluate, prioritized, at_level, level, wildcard, outside_workspaces, denied_message, next_stop, stops_at,
    lemma_prioritized_layout, lemma_skip, lemma_at_level_prefix, label_of, group_start,
};
use crate::types::{BuiltinTools, CapabilitiesConfig, ToolCall, read_only_tools, builtin_tool_name, law_builtin_tool_names};

verus! {

/// Why an agent cannot start or serve a request.
#[derive(Debug, Clone, Copy, PartialEq, Eq, Structural)]
pub enum AgentError {
    /// No harness binary was given and none was found.
    BinaryNotFound,
    /// Both enabled and disabled tools were configured.
    ConflictingToolSelection,
    /// Tools that write are active but no policy governs them.
    UnguardedWriteTools,
    /// Triggers can only be registered before the session starts.
    TriggersAfterStart,
    /// The session has not started.
    NotStarted,
}

impl AgentError {
    /// The error as text.
    pub fn message(&self) -> (r: &'static str)
        ensures
            r@ == agent_error_message(*self),
    {
        match self {
            AgentError::BinaryNotFound => "Could not find default localharness binary. Please specify binary_path explicitly.",
            AgentError::ConflictingToolSelection => "enabled_tools and disabled_tools are mutually exclusive",
            AgentError::UnguardedWriteTools => "Write tools are enabled without a safety policy. Add policies=[policy.allow_all()] to approve all tool calls, or policies=[policy.deny_all(), policy.allow(\"tool_name\")] to selectively allow specific tools.",
            AgentError::TriggersAfterStart => "Cannot register triggers after the agent has started.",
            AgentError::NotStarted => "Agent session not started. Use start() first.",
        }
    }
}

/// The text of each agent error.
pub open spec fn agent_error_message(e: AgentError) -> Seq<char> {
    match e {
        AgentError::BinaryNotFound => "Could not find default localharness binary. Please specify binary_path explicitly."@,
        AgentError::ConflictingToolSelection => "enabled_tools and disabled_tools are mutually exclusive"@,
        AgentError::UnguardedWriteTools => "Write tools are enabled without a safety policy. Add policies=[policy.allow_all()] to approve all tool calls, or policies=[policy.deny_all(), policy.allow(\"tool_name\")] to selectively allow specific tools."@,
        AgentError::TriggersAfterStart => "Cannot register triggers after the agent has started."@,
        AgentError::NotStarted => "Agent session not started. Use start() first."@,
    }
}

/// The harness binary: the configured one, else the one found.
pub fn resolve_binary_path(configured: Option<String>, discovered: Option<String>) -> (r: Result<String, AgentError>)
    ensures
        r == match configured {
            Some(p) => Ok(p),
            None => match discovered {
                Some(p) => Ok(p),
                None => Err(AgentError::BinaryNotFound),
            },
        },
{
    match configured {
        Some(p) => Ok(p),
        None => match discovered {
            Some(p) => Ok(p),
            None => Err(AgentError::BinaryNotFound),
        },
    }
}

/// Every built-in tool, in the harness's order.
pub open spec fn all_tools() -> Seq<BuiltinTools> {
    seq![
        BuiltinTools::CreateFile,
        BuiltinTools::EditFile,
        BuiltinTools::FindFile,
        BuiltinTools::ListDir,
        BuiltinTools::RunCommand,
        BuiltinTools::SearchDir,
        BuiltinTools::ViewFile,
        BuiltinTools::StartSubagent,
        BuiltinTools::GenerateImage,
        BuiltinTools::Finish,
    ]
}

/// Law: the built-in tools listed for a session are every built-in tool, each
/// once.
pub proof fn law_all_tools_once_each(t: BuiltinTools)
    ensures
        all_tools().contains(t),
        all_tools().no_duplicates(),
{
    let a = all_tools();
    let k: int = match t {
        BuiltinTools::CreateFile => 0,
        BuiltinTools::EditFile => 1,
        BuiltinTools::FindFile => 2,
        BuiltinTools::ListDir => 3,
        BuiltinTools::RunCommand => 4,
        BuiltinTools::SearchDir => 5,
        BuiltinTools::ViewFile => 6,
        BuiltinTools::StartSubagent => 7,
        BuiltinTools::GenerateImage => 8,
        BuiltinTools::Finish => 9,
    };
    assert(a[k] == t);
}

/// The tools of `s` that are not in `removed`, in order.
pub open spec fn without_tools(s: Seq<BuiltinTools>, removed: Seq<BuiltinTools>) -> Seq<BuiltinTools>
    decreases s.len(),
{
    if s.len() == 0 {
        seq![]
    } else if removed.contains(s.last()) {
        without_tools(s.drop_last(), removed)
    } else {
        without_tools(s.drop_last(), removed).push(s.last())
    }
}

/// Law: removing tools keeps exactly the tools of `s` that are not removed,
/// in their order in `s`.
pub proof fn law_without_tools_filters(s: Seq<BuiltinTools>, removed: Seq<BuiltinTools>)
    ensures
        without_tools(s, removed) == s.filter(|t: BuiltinTools| !removed.contains(t)),
        forall|t: BuiltinTools| without_tools(s, removed).contains(t) <==> (s.contains(t) && !removed.contains(t)),
        s.no_duplicates() ==> without_tools(s, removed).no_duplicates(),
    decreases s.len(),
{
    reveal(Seq::filter);
    if s.len() > 0 {
        let t = s.drop_last();
        let x = s.last();
        law_without_tools_filters(t, removed);
        let w = without_tools(t, removed);
        assert(s[s.len() - 1] == x);
        assert forall|y: BuiltinTools| s.contains(y) <==> (t.contains(y) || y == x) by {
            if s.contains(y) {
                let i = choose|i: int| 0 <= i < s.len() && s[i] == y;
                if i < t.len() {
                    assert(t[i] == y);
                }
            }
            if t.contains(y) {
                let i = choose|i: int| 0 <= i < t.len() && t[i] == y;
                assert(s[i] == y);
            }
        }
        if !removed.contains(x) {
            assert forall|y: BuiltinTools| w.push(x).contains(y) <==> (w.contains(y) || y == x) by {
                if w.push(x).contains(y) {
                    let i = choose|i: int| 0 <= i < w.push(x).len() && w.push(x)[i] == y;
                    if i < w.len() {
                        assert(w[i] == y);
                    }
                }
                if w.contains(y) {
                    let i = choose|i: int| 0 <= i < w.len() && w[i] == y;
                    assert(w.push(x)[i] == y);
                }
                assert(w.push(x)[w.len() as int] == x);
            }
            if s.no_duplicates() {
                assert(t.no_duplicates()) by {
                    assert forall|i: int, j: int| 0 <= i < j < t.len() implies t[i] != t[j] by {
                        assert(t[i] == s[i] && t[j] == s[j]);
                    }
                }
                assert(!t.contains(x)) by {
                    if t.contains(x) {
                        let i = choose|i: int| 0 <= i < t.len() && t[i] == x;
                        assert(s[i] == s[s.len() - 1]);
                    }
                }
                assert forall|i: int, j: int| 0 <= i < j < w.push(x).len() implies w.push(x)[i] != w.push(x)[j] by {
                    if j == w.len() {
                        assert(w.contains(w[i]));
                    } else {
                        assert(w.push(x)[i] == w[i] && w.push(x)[j] == w[j]);
                    }
                }
            }
        } else if s.no_duplicates() {
            assert(t.no_duplicates()) by {
                assert forall|i: int, j: int| 0 <= i < j < t.len() implies t[i] != t[j] by {
                    assert(t[i] == s[i] && t[j] == s[j]);
                }
            }
        }
    }
}

/// The active tools of a configuration: the enabled ones, or all but the
/// disabled ones, or all; both lists at once is an error.
pub open spec fn active_tools_of(caps: CapabilitiesConfig) -> Result<Seq<BuiltinTools>, AgentError> {
    match (caps.enabled_tools, caps.disabled_tools) {
        (Some(_), Some(_)) => Err(AgentError::ConflictingToolSelection),
        (Some(e), None) => Ok(e@),
        (None, Some(d)) => Ok(without_tools(all_tools(), d@)),
        (None, None) => Ok(all_tools()),
    }
}

/// Law: without a list of enabled tools, the active tools are every built-in
/// tool that is not disabled, each once.
pub proof fn law_active_tools_are_all_but_disabled(caps: CapabilitiesConfig)
    requires
        caps.enabled_tools is None,
    ensures
        active_tools_of(caps) matches Ok(r) && r.no_duplicates() && forall|t: BuiltinTools| r.contains(t) <==> match caps.disabled_tools {
            Some(d) => !d@.contains(t),
            None => true,
        },
{
    law_all_tools_once_each(BuiltinTools::Finish);
    assert forall|t: BuiltinTools| all_tools().contains(t) by {
        law_all_tools_once_each(t);
    }
    if let Some(d) = caps.disabled_tools {
        law_without_tools_filters(all_tools(), d@);
    }
}

/// Some tool of `tools` is not read-only.
pub open spec fn writes(tools: Seq<BuiltinTools>) -> bool {
    exists|i: int| 0 <= i < tools.len() && !read_only_tools().contains(#[trigger] tools[i])
}

/// Law: the tools that can change something — create or edit files, run
/// commands, start subagents, generate images — write; the tools that only
/// find, list, view or search files, and finishing the trajectory, do not. A
/// list of tools writes exactly when one of its tools does.
pub proof fn law_write_tools(t: BuiltinTools, tools: Seq<BuiltinTools>)
    ensures
        writes(seq![t]) <==> (t == BuiltinTools::CreateFile || t == BuiltinTools::EditFile
            || t == BuiltinTools::RunCommand || t == BuiltinTools::StartSubagent
            || t == BuiltinTools::GenerateImage),
        writes(tools) <==> exists|i: int| 0 <= i < tools.len() && writes(seq![#[trigger] tools[i]]),
{
    let r = read_only_tools();
    assert(r[0] == BuiltinTools::FindFile && r[1] == BuiltinTools::ListDir && r[2] == BuiltinTools::ViewFile
        && r[3] == BuiltinTools::SearchDir && r[4] == BuiltinTools::Finish);
    assert(seq![t][0] == t);
    if writes(tools) {
        let i = choose|i: int| 0 <= i < tools.len() && !r.contains(#[trigger] tools[i]);
        assert(seq![tools[i]][0] == tools[i]);
    }
    if exists|i: int| 0 <= i < tools.len() && writes(seq![#[trigger] tools[i]]) {
        let i = choose|i: int| 0 <= i < tools.len() && writes(seq![#[trigger] tools[i]]);
        assert(seq![tools[i]][0] == tools[i]);
    }
}

/// Every built-in tool.
pub fn all_builtin_tools() -> (r: Vec<BuiltinTools>)
    ensures
        r@ == all_tools(),
{
    let r = vec![
        BuiltinTools::CreateFile,
        BuiltinTools::EditFile,
        BuiltinTools::FindFile,
        BuiltinTools::ListDir,
        BuiltinTools::RunCommand,
        BuiltinTools::SearchDir,
        BuiltinTools::ViewFile,
        BuiltinTools::StartSubagent,
        BuiltinTools::GenerateImage,
        BuiltinTools::Finish,
    ];
    assert(r@ =~= all_tools());
    r
}

/// Whether `t` is in `tools`.
fn contains_tool(tools: &Vec<BuiltinTools>, t: BuiltinTools) -> (r: bool)
    ensures
        r == tools@.contains(t),
{
    let mut i: usize = 0;
    while i < tools.len()
        invariant
            i <= tools@.len(),
            forall|k: int| 0 <= k < i ==> tools@[k] != t,
        decreases tools.len() - i,
    {
        if tools[i] == t {
            return true;
        }
        i = i + 1;
    }
    false
}

/// A copy of a tool list.
fn copy_tools(tools: &Vec<BuiltinTools>) -> (r: Vec<BuiltinTools>)
    ensures
        r@ == tools@,
{
    let mut r: Vec<BuiltinTools> = Vec::new();
    let mut i: usize = 0;
    while i < tools.len()
        invariant
            i <= tools@.len(),
            r@ == tools@.take(i as int),
        decreases tools.len() - i,
    {
        r.push(tools[i]);
        assert(tools@.take(i + 1) =~= tools@.take(i as int).push(tools@[i as int]));
        i = i + 1;
    }
    assert(tools@.take(tools@.len() as int) =~= tools@);
    r
}

/// The tools that the session offers, from its capabilities.
pub fn active_tools(caps: &CapabilitiesConfig) -> (r: Result<Vec<BuiltinTools>, AgentError>)
    ensures
        match (r, active_tools_of(*caps)) {
            (Ok(v), Ok(s)) => v@ == s,
            (Err(e), Err(f)) => e == f,
            _ => false,
        },
{
    match (&caps.enabled_tools, &caps.disabled_tools) {
        (Some(_), Some(_)) => Err(AgentError::ConflictingToolSelection),
        (Some(e), None) => Ok(copy_tools(e)),
        (None, Some(d)) => {
            let all = all_builtin_tools();
            let mut r: Vec<BuiltinTools> = Vec::new();
            let mut i: usize = 0;
            while i < all.len()
                invariant
                    all@ == all_tools(),
                    i <= all@.len(),
                    r@ == without_tools(all@.take(i as int), d@),
                decreases all.len() - i,
            {
                assert(all@.take(i + 1).drop_last() =~= all@.take(i as int));
                assert(all@.take(i + 1).last() == all@[i as int]);
                if !contains_tool(d, all[i]) {
                    r.push(all[i]);
                }
                i = i + 1;
            }
            assert(all@.take(all@.len() as int) =~= all@);
            Ok(r)
        },
        (None, None) => Ok(all_builtin_tools()),
    }
}

/// Whether some active tool can write.
pub fn has_write_tools(tools: &Vec<BuiltinTools>) -> (r: bool)
    ensures
        r == writes(tools@),
{
    let read_only = BuiltinTools::read_only();
    let mut i: usize = 0;
    while i < tools.len()
        invariant
            read_only@ == read_only_tools(),
            i <= tools@.len(),
            forall|k: int| 0 <= k < i ==> read_only_tools().contains(#[trigger] tools@[k]),
        decreases tools.len() - i,
    {
        if !contains_tool(&read_only, tools[i]) {
            return true;
        }
        i = i + 1;
    }
    false
}

/// The default directory of the harness's application data under `home`.
pub fn default_app_data_dir(home: &str) -> (r: String)
    ensures
        r@ == home@ + "/.gemini/antigravity"@,
{
    let mut r = home.to_owned();
    r.append("/.gemini/antigravity");
    r
}

/// The policy at `i` keeps the file tool `file_tools()[i]` inside `allowed`.
pub open spec fn is_scope_policy<P>(p: Policy<P>, i: int, allowed: Seq<String>) -> bool {
    &&& p.tool@ == file_tools()[i]
    &&& p.decision == Decision::Deny
    &&& p.when matches Some(Condition::OutsideWorkspaces(ws)) && ws@ == allowed
    &&& p.ask_user is None
    &&& p.name@ == "workspace_only"@
}

/// The policies at `r` are the default command policies of a session.
pub open spec fn is_default_policies<P>(r: Seq<Policy<P>>) -> bool {
    &&& r.len() == 2
    &&& r[0].tool@ == "RUN_COMMAND"@
    &&& r[0].decision == Decision::Deny
    &&& r[0].when is None
    &&& r[0].ask_user is None
    &&& r[0].name@ == "confirm_run_command"@
    &&& r[1].tool@ == "*"@
    &&& r[1].decision == Decision::Approve
    &&& r[1].when is None
    &&& r[1].ask_user is None
    &&& r[1].name@ == "allow_all"@
}

/// The policies of a session: the configured ones (by default, `RUN_COMMAND`
/// denied and everything else approved), and when there are workspaces, the
/// workspace scoping policies first, for the workspaces and the application
/// data directory.
pub fn session_policies<P>(configured: Option<Vec<Policy<P>>>, workspaces: Vec<String>, app_data_dir: String) -> (r: Vec<Policy<P>>)
    ensures
        policies_planned(r@, configured, workspaces@, app_data_dir),
        r@.len() == 0 <==> planned_without_policies(configured, workspaces@),
{
    let base = match configured {
        Some(p) => p,
        None => confirm_run_command(None),
    };
    if workspaces.len() == 0 {
        assert(base@.skip(0) =~= base@);
        return base;
    }
    let mut allowed = workspaces;
    allowed.push(app_data_dir);
    let mut scoped = workspace_only(allowed);
    let ghost scoped_view = scoped@;
    let ghost base_view = base@;
    let mut rest = base;
    scoped.append(&mut rest);
    assert(scoped@.skip(6) =~= base_view);
    assert forall|i: int| 0 <= i < 6 implies scoped@[i] == scoped_view[i] by {}
    scoped
}

/// `r` are the capabilities sent to the harness for the configured `caps`:
/// the same, with the finish tool's schema set to the response schema when
/// there is one.
pub open spec fn capabilities_sent(r: CapabilitiesConfig, caps: CapabilitiesConfig, response_schema: Option<String>) -> bool {
    &&& (r.enabled_tools matches Some(v) ==> caps.enabled_tools matches Some(w) && v@ == w@)
    &&& (r.enabled_tools is None <==> caps.enabled_tools is None)
    &&& (r.disabled_tools matches Some(v) ==> caps.disabled_tools matches Some(w) && v@ == w@)
    &&& (r.disabled_tools is None <==> caps.disabled_tools is None)
    &&& r.compaction_threshold == caps.compaction_threshold
    &&& r.image_model == caps.image_model
    &&& r.finish_tool_schema_json == match response_schema {
        Some(s) => Some(s),
        None => caps.finish_tool_schema_json,
    }
}

/// The capabilities sent to the harness for `caps` and the response schema.
pub fn session_capabilities(caps: &CapabilitiesConfig, response_schema: &Option<String>) -> (r: CapabilitiesConfig)
    ensures
        capabilities_sent(r, *caps, *response_schema),
{
    let enabled_tools = match &caps.enabled_tools {
        Some(v) => Some(copy_tools(v)),
        None => None,
    };
    let disabled_tools = match &caps.disabled_tools {
        Some(v) => Some(copy_tools(v)),
        None => None,
    };
    let finish_tool_schema_json = match response_schema {
        Some(s) => Some(s.clone()),
        None => caps.finish_tool_schema_json.clone(),
    };
    CapabilitiesConfig {
        enabled_tools,
        disabled_tools,
        compaction_threshold: caps.compaction_threshold,
        finish_tool_schema_json,
        image_model: caps.image_model.clone(),
    }
}

/// The policies of a session, from the configured ones (`configured`), the
/// workspaces and the application data directory.
pub open spec fn policies_planned<P>(r: Seq<Policy<P>>, configured: Option<Vec<Policy<P>>>, workspaces: Seq<String>, app_data_dir: String) -> bool {
    let offset: int = if workspaces.len() > 0 { 6 } else { 0 };
    &&& r.len() >= offset
    &&& workspaces.len() > 0 ==> forall|i: int| 0 <= i < 6 ==> is_scope_policy(#[trigger] r[i], i, workspaces.push(app_data_dir))
    &&& match configured {
        Some(p) => r.skip(offset) == p@,
        None => is_default_policies(r.skip(offset)),
    }
}

/// A session has no policy only when none was configured (an explicit empty
/// list) and there are no workspaces.
pub open spec fn planned_without_policies<P>(configured: Option<Vec<Policy<P>>>, workspaces: Seq<String>) -> bool {
    workspaces.len() == 0 && (configured matches Some(p) && p@.len() == 0)
}

/// What a session starts with.
pub struct SessionPlan<P> {
    /// The built-in tools the session offers.
    pub active_tools: Vec<BuiltinTools>,
    /// The policies that guard tool calls (none: no enforcer is installed).
    pub policies: Vec<Policy<P>>,
    /// The capabilities sent to the harness.
    pub capabilities: CapabilitiesConfig,
}

/// Plans a session from its configuration. `workspaces` are the configured
/// workspaces, or else the current directory when it is known; `app_data_dir`
/// is the configured directory, or else the default one. Fails when enabled
/// and disabled tools are both configured, or when tools that write are active
/// and no policy would guard them.
pub fn plan_session<P>(
    caps: &CapabilitiesConfig,
    configured_policies: Option<Vec<Policy<P>>>,
    workspaces: Vec<String>,
    app_data_dir: String,
    response_schema: &Option<String>,
) -> (r: Result<SessionPlan<P>, AgentError>)
    ensures
        r matches Err(e) ==> match active_tools_of(*caps) {
            Err(f) => e == f,
            Ok(t) => e == AgentError::UnguardedWriteTools && writes(t) && planned_without_policies(configured_policies, workspaces@),
        },
        r is Ok <==> match active_tools_of(*caps) {
            Err(_) => false,
            Ok(t) => !(writes(t) && planned_without_policies(configured_policies, workspaces@)),
        },
        r matches Ok(plan) ==> {
            &&& active_tools_of(*caps) == Ok::<Seq<BuiltinTools>, AgentError>(plan.active_tools@)
            &&& policies_planned(plan.policies@, configured_policies, workspaces@, app_data_dir)
            &&& capabilities_sent(plan.capabilities, *caps, *response_schema)
            &&& writes(plan.active_tools@) ==> plan.policies@.len() > 0
        },
{
    let active = match active_tools(caps) {
        Ok(t) => t,
        Err(e) => return Err(e),
    };
    let write = has_write_tools(&active);
    let policies = session_policies(configured_policies, workspaces, app_data_dir);
    if write && policies.len() == 0 {
        return Err(AgentError::UnguardedWriteTools);
    }
    let capabilities = session_capabilities(caps, response_schema);
    Ok(SessionPlan { active_tools: active, policies, capabilities })
}


/// The file tool names differ from each other and from the wildcard.
proof fn lemma_file_tools_distinct()
    ensures
        forall|i: int, j: int| 0 <= i < j < 6 ==> file_tools()[i] != file_tools()[j],
        forall|i: int| 0 <= i < 6 ==> file_tools()[i] != wildcard(),
{
    let f = file_tools();
    let t = seq![
        BuiltinTools::CreateFile,
        BuiltinTools::EditFile,
        BuiltinTools::ViewFile,
        BuiltinTools::ListDir,
        BuiltinTools::SearchDir,
        BuiltinTools::FindFile,
    ];
    assert forall|i: int, j: int| 0 <= i < j < 6 implies file_tools()[i] != file_tools()[j] by {
        assert(f[i] == builtin_tool_name(t[i]) && f[j] == builtin_tool_name(t[j]));
        law_builtin_tool_names(t[i], t[j]);
    }
    assert forall|i: int| 0 <= i < 6 implies file_tools()[i] != wildcard() by {
        assert(f[i] == builtin_tool_name(t[i]));
        law_builtin_tool_names(t[i], t[i]);
        reveal_strlit("*");
        assert(wildcard()[0] == '*');
        assert('A' <= f[i][0] <= 'Z' || f[i][0] == '_');
    }
}

/// Law: with workspaces configured, a file tool call whose path lies outside
/// every allowed directory is denied by the workspace scoping policy, whatever
/// policies were configured after it and whatever their callbacks answer: the
/// scoping policies are consulted first.
pub proof fn law_workspace_scope_comes_first<P>(
    policies: Seq<Policy<P>>,
    allowed: Seq<String>,
    call: ToolCall,
    t: int,
    cond: spec_fn(int) -> CallbackOutcome,
    ask: spec_fn(int) -> CallbackOutcome,
)
    requires
        policies.len() >= 6,
        forall|i: int| 0 <= i < 6 ==> is_scope_policy(#[trigger] policies[i], i, allowed),
        0 <= t < 6,
        call.name@ == file_tools()[t],
        outside_workspaces(allowed, call.canonical_path),
    ensures
        evaluate(prioritized(policies), call, 0, cond, ask) == Verdict::Denied(denied_message("workspace_only"@)),
{
    lemma_file_tools_distinct();
    let order = prioritized(policies);
    assert forall|i: int| 0 <= i < 6 implies level(#[trigger] policies[i]) == 0 by {
        assert(policies[i].tool@ == file_tools()[i]);
    }
    lemma_first_group_starts_with(policies, 6);
    lemma_prioritized_layout(policies);
    assert forall|i: int| 0 <= i < 6 implies #[trigger] order[i] == policies[i] by {
        assert(group_start(policies, 0) == 0);
        assert(order[group_start(policies, 0) + i] == at_level(policies, 0)[i]);
    }
    assert forall|k: int| 0 <= k < t implies !stops_at(#[trigger] order[k], call) by {
        assert(order[k] == policies[k]);
        assert(policies[k].tool@ == file_tools()[k]);
    }
    lemma_skip(order, call, 0, t);
    assert(order[t] == policies[t]);
    assert(stops_at(order[t], call));
    assert(next_stop(order, call, t) == t);
    reveal_strlit("workspace_only");
    assert(label_of(order[t]) == "workspace_only"@);
}

/// When the first `n` policies are all in group 0, the group starts with them.
proof fn lemma_first_group_starts_with<P>(s: Seq<Policy<P>>, n: int)
    requires
        0 <= n <= s.len(),
        forall|i: int| 0 <= i < n ==> level(#[trigger] s[i]) == 0,
    ensures
        at_level(s, 0).len() >= n,
        forall|i: int| 0 <= i < n ==> #[trigger] at_level(s, 0)[i] == s[i],
{
    lemma_level_zero_prefix(s, n);
    lemma_at_level_prefix(s, n, s.len() as int, 0);
    assert(s.take(s.len() as int) =~= s);
}

/// The group 0 of the first `n` policies, all in group 0, is those policies.
proof fn lemma_level_zero_prefix<P>(s: Seq<Policy<P>>, n: int)
    requires
        0 <= n <= s.len(),
        forall|i: int| 0 <= i < n ==> level(#[trigger] s[i]) == 0,
    ensures
        at_level(s.take(n), 0) == s.take(n),
    decreases n,
{
    if n > 0 {
        lemma_level_zero_prefix(s, n - 1);
        assert(s.take(n).drop_last() =~= s.take(n - 1));
        assert(s.take(n).last() == s[n - 1]);
        assert(s.take(n - 1).push(s[n - 1]) =~= s.take(n));
    } else {
        assert(s.take(0) =~= Seq::<Policy<P>>::empty());
    }
}

}
