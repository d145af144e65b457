//! The tool-call safety policy engine.
//!
//! A [`Policy`] names a tool (or `*` for every tool), a [`Decision`], an
//! optional condition and, for `AskUser`, a handler. A [`PolicyEnforcer`]
//! orders its policies by precedence: specific tools before the wildcard, and
//! within each, `Deny` before `AskUser` before `Approve`; policies of equal
//! precedence keep the order they were given in. The first policy that matches
//! a call and whose condition holds decides it; when none does, the call is
//! allowed.
//!
//! Conditions and handlers supplied by the user are values of the type
//! parameter `P`: the enforcer never runs them itself. It is a state machine
//! that says which callback to run next ([`EvaluationStep`]) and takes back
//! what the callback answered ([`CallbackOutcome`]).

use vstd::prelude::*;
use crate::path::{is_absolute, is_absolute_path, path_within, within};
use crate::types::{BuiltinTools, HookResult, ToolCall, builtin_tool_name};

verus! {

/// What a policy does with a call it decides.
#[derive(Debug, Clone, Copy, PartialEq, Eq, Structural)]
pub enum Decision {
    /// Let the tool run.
    Approve,
    /// Block the tool.
    Deny,
    /// Ask the user (through the policy's handler) whether the tool may run.
    AskUser,
}

/// When a policy applies to a call that names its tool.
#[derive(Clone)]
pub enum Condition<P> {
    /// The call works on a path that lies in none of these workspaces (or on a
    /// relative path). A call without a path never meets it.
    OutsideWorkspaces(Vec<String>),
    /// A user predicate over the call; it is run outside the enforcer.
    Custom(P),
}

/// One safety rule for tool calls.
#[derive(Clone)]
pub struct Policy<P> {
    /// The exact tool name, or `*` for every tool.
    pub tool: String,
    /// What happens to a call that this policy decides.
    pub decision: Decision,
    /// An optional condition; without one the policy applies to every call of its tool.
    pub when: Option<Condition<P>>,
    /// The handler that answers for the user, for `AskUser` policies.
    pub ask_user: Option<P>,
    /// A descriptive name, used in messages.
    pub name: String,
}

/// The tool name that stands for every tool.
pub open spec fn wildcard() -> Seq<char> {
    "*"@
}

/// The precedence group of a policy: 0 to 2 for a specific tool (deny, ask,
/// approve), 3 to 5 for the wildcard (deny, ask, approve).
pub open spec fn level<P>(p: Policy<P>) -> int {
    let base: int = if p.tool@ == wildcard() { 3 } else { 0 };
    base + match p.decision {
        Decision::Deny => 0int,
        Decision::AskUser => 1int,
        Decision::Approve => 2int,
    }
}

/// The policies of `s` in precedence group `l`, in their order in `s`.
pub open spec fn at_level<P>(s: Seq<Policy<P>>, l: int) -> Seq<Policy<P>>
    decreases s.len(),
{
    if s.len() == 0 {
        seq![]
    } else if level(s.last()) == l {
        at_level(s.drop_last(), l).push(s.last())
    } else {
        at_level(s.drop_last(), l)
    }
}

/// The order in which an enforcer consults the policies `s`: group by group,
/// and within a group in the order of `s`.
pub open spec fn prioritized<P>(s: Seq<Policy<P>>) -> Seq<Policy<P>> {
    at_level(s, 0) + at_level(s, 1) + at_level(s, 2) + at_level(s, 3) + at_level(s, 4) + at_level(s, 5)
}

/// The name by which messages refer to a policy: its name, or its tool when it has none.
pub open spec fn label_of<P>(p: Policy<P>) -> Seq<char> {
    if p.name@.len() == 0 {
        p.tool@
    } else {
        p.name@
    }
}

/// A policy is about the tool `name` when it names it or is a wildcard.
pub open spec fn matches_tool<P>(p: Policy<P>, name: Seq<char>) -> bool {
    p.tool@ == wildcard() || p.tool@ == name
}

/// The path a call works on, or the empty text when it has none.
pub open spec fn call_path(path: Option<String>) -> Seq<char> {
    match path {
        Some(s) => s@,
        None => seq![],
    }
}

/// The condition of the workspace policies: the call has a path, and the path
/// is relative or lies in none of the absolute workspaces.
pub open spec fn outside_workspaces(workspaces: Seq<String>, path: Option<String>) -> bool {
    let p = call_path(path);
    if p.len() == 0 {
        false
    } else if !is_absolute_path(p) {
        true
    } else {
        !exists|i: int| 0 <= i < workspaces.len() && path_within(p, #[trigger] workspaces[i]@)
    }
}

/// The enforcer stops at a policy when it is about the called tool and its
/// workspace condition, if it has one, holds. (A user condition is decided by
/// running it.)
pub open spec fn stops_at<P>(p: Policy<P>, call: ToolCall) -> bool {
    &&& matches_tool(p, call.name@)
    &&& match p.when {
        Some(Condition::OutsideWorkspaces(ws)) => outside_workspaces(ws@, call.canonical_path),
        _ => true,
    }
}

/// The first position at or after `from` where the enforcer stops, or the
/// number of policies when there is none.
pub open spec fn next_stop<P>(order: Seq<Policy<P>>, call: ToolCall, from: int) -> int
    decreases order.len() - from,
{
    if from >= order.len() || from < 0 {
        order.len() as int
    } else if stops_at(order[from], call) {
        from
    } else {
        next_stop(order, call, from + 1)
    }
}

/// The text of a denial by `label`.
pub open spec fn denied_message(label: Seq<char>) -> Seq<char> {
    "Denied by policy '"@ + label + "'."@
}

/// The text of a denial because the user refused `tool` when asked by `label`.
pub open spec fn user_denied_message(tool: Seq<char>, label: Seq<char>) -> Seq<char> {
    "User denied tool '"@ + tool + "' (policy '"@ + label + "')."@
}

/// The text of a denial because the condition of `label` panicked.
pub open spec fn predicate_panicked_message(label: Seq<char>) -> Seq<char> {
    "Policy evaluation failed for policy '"@ + label + "': predicate panicked."@
}

/// The text of a denial because the handler of `label` panicked.
pub open spec fn handler_panicked_message(label: Seq<char>) -> Seq<char> {
    "Policy evaluation failed for policy '"@ + label + "': handler panicked."@
}

/// The error text when evaluation reaches an `AskUser` policy without handler.
pub open spec fn missing_handler_message(label: Seq<char>) -> Seq<char> {
    "ASK_USER policy '"@ + label + "' is missing an ask_user handler."@
}

/// The error text when a policy list holds an `AskUser` policy without handler.
pub open spec fn rejected_policy_message(label: Seq<char>) -> Seq<char> {
    "ASK_USER policy '"@ + label
        + "' is missing an ask_user handler. Provide one via policy.ask_user(tool, handler)."@
}

/// Why a policy list cannot be enforced, or a call cannot be decided.
#[derive(Debug, Clone)]
pub enum PolicyError {
    /// The list given to [`enforce`] holds an `AskUser` policy (named by `label`) without handler.
    AskUserWithoutHandler { label: String },
    /// Evaluation reached an `AskUser` policy (named by `label`) without handler.
    MissingHandler { label: String },
}

impl PolicyError {
    /// The error as text.
    pub fn message(&self) -> (r: String)
        ensures
            r@ == match self {
                PolicyError::AskUserWithoutHandler { label } => rejected_policy_message(label@),
                PolicyError::MissingHandler { label } => missing_handler_message(label@),
            },
    {
        match self {
            PolicyError::AskUserWithoutHandler { label } => {
                let mut m = "ASK_USER policy '".to_owned();
                m.append(label.as_str());
                m.append("' is missing an ask_user handler. Provide one via policy.ask_user(tool, handler).");
                m
            },
            PolicyError::MissingHandler { label } => {
                let mut m = "ASK_USER policy '".to_owned();
                m.append(label.as_str());
                m.append("' is missing an ask_user handler.");
                m
            },
        }
    }
}

impl<P> Policy<P> {
    /// A policy with the given parts.
    pub fn new(tool: String, decision: Decision, when: Option<Condition<P>>, ask_user: Option<P>, name: String) -> (r: Self)
        ensures
            r == (Policy { tool, decision, when, ask_user, name }),
    {
        Policy { tool, decision, when, ask_user, name }
    }

    /// The same policy, applying only to calls for which `predicate` holds.
    pub fn when(self, predicate: P) -> (r: Self)
        ensures
            r == (Policy { when: Some(Condition::Custom(predicate)), ..self }),
    {
        Policy { when: Some(Condition::Custom(predicate)), ..self }
    }

    /// The same policy under another name.
    pub fn with_name(self, name: &str) -> (r: Self)
        ensures
            r.name@ == name@,
            r == (Policy { name: r.name, ..self }),
    {
        Policy { name: name.to_owned(), ..self }
    }
}

/// A policy that approves every call of `tool`.
pub fn allow<P>(tool: &str) -> (r: Policy<P>)
    ensures
        r.tool@ == tool@,
        r.decision == Decision::Approve,
        r.when is None,
        r.ask_user is None,
        r.name@.len() == 0,
{
    Policy::new(tool.to_owned(), Decision::Approve, None, None, String::new())
}

/// A policy that denies every call of `tool`.
pub fn deny<P>(tool: &str) -> (r: Policy<P>)
    ensures
        r.tool@ == tool@,
        r.decision == Decision::Deny,
        r.when is None,
        r.ask_user is None,
        r.name@.len() == 0,
{
    Policy::new(tool.to_owned(), Decision::Deny, None, None, String::new())
}

/// A policy that asks `handler` whether a call of `tool` may run.
pub fn ask_user<P>(tool: &str, handler: P) -> (r: Policy<P>)
    ensures
        r.tool@ == tool@,
        r.decision == Decision::AskUser,
        r.when is None,
        r.ask_user == Some(handler),
        r.name@.len() == 0,
{
    Policy::new(tool.to_owned(), Decision::AskUser, None, Some(handler), String::new())
}

/// A wildcard policy, named `allow_all`, that approves every call.
pub fn allow_all<P>() -> (r: Policy<P>)
    ensures
        r.tool@ == wildcard(),
        r.decision == Decision::Approve,
        r.when is None,
        r.ask_user is None,
        r.name@ == "allow_all"@,
{
    Policy::new("*".to_owned(), Decision::Approve, None, None, "allow_all".to_owned())
}

/// A wildcard policy, named `deny_all`, that denies every call.
pub fn deny_all<P>() -> (r: Policy<P>)
    ensures
        r.tool@ == wildcard(),
        r.decision == Decision::Deny,
        r.when is None,
        r.ask_user is None,
        r.name@ == "deny_all"@,
{
    Policy::new("*".to_owned(), Decision::Deny, None, None, "deny_all".to_owned())
}

/// The standard command policies: `RUN_COMMAND` is asked of `handler` when
/// there is one and denied otherwise; every other call is approved.
pub fn confirm_run_command<P>(handler: Option<P>) -> (r: Vec<Policy<P>>)
    ensures
        r@.len() == 2,
        r@[0].tool@ == "RUN_COMMAND"@,
        r@[0].when is None,
        r@[0].name@ == "confirm_run_command"@,
        r@[0].decision == (if handler is Some { Decision::AskUser } else { Decision::Deny }),
        r@[0].ask_user == handler,
        r@[1].tool@ == wildcard(),
        r@[1].decision == Decision::Approve,
        r@[1].when is None,
        r@[1].ask_user is None,
        r@[1].name@ == "allow_all"@,
{
    let decision = if handler.is_some() { Decision::AskUser } else { Decision::Deny };
    let first = Policy::new("RUN_COMMAND".to_owned(), decision, None, handler, "confirm_run_command".to_owned());
    let mut r = Vec::new();
    r.push(first);
    r.push(allow_all());
    r
}

/// Every built-in tool that reads or writes the file system, `FIND_FILE`
/// included: the tools that [`workspace_only`] scopes.
pub open spec fn file_tools() -> Seq<Seq<char>> {
    seq![
        builtin_tool_name(BuiltinTools::CreateFile),
        builtin_tool_name(BuiltinTools::EditFile),
        builtin_tool_name(BuiltinTools::ViewFile),
        builtin_tool_name(BuiltinTools::ListDir),
        builtin_tool_name(BuiltinTools::SearchDir),
        builtin_tool_name(BuiltinTools::FindFile),
    ]
}

/// A copy of a list of texts.
pub fn copy_strings(v: &Vec<String>) -> (r: Vec<String>)
    ensures
        r@ == v@,
{
    let mut r: Vec<String> = Vec::new();
    let mut i: usize = 0;
    while i < v.len()
        invariant
            i <= v@.len(),
            r@ == v@.take(i as int),
        decreases v.len() - i,
    {
        r.push(v[i].clone());
        assert(v@.take(i + 1) =~= v@.take(i as int).push(v@[i as int]));
        i = i + 1;
    }
    assert(v@.take(v@.len() as int) =~= v@);
    r
}

/// A policy, named `workspace_only`, that denies `tool` outside `workspaces`.
fn scoped_deny<P>(tool: &str, workspaces: &Vec<String>) -> (r: Policy<P>)
    ensures
        r.tool@ == tool@,
        r.decision == Decision::Deny,
        r.when matches Some(Condition::OutsideWorkspaces(ws)) && ws@ == workspaces@,
        r.ask_user is None,
        r.name@ == "workspace_only"@,
{
    Policy::new(
        tool.to_owned(),
        Decision::Deny,
        Some(Condition::OutsideWorkspaces(copy_strings(workspaces))),
        None,
        "workspace_only".to_owned(),
    )
}

/// Policies that keep the file system tools inside `workspaces`: one deny
/// policy per file tool, in the order of [`file_tools`], each applying to calls
/// whose path lies outside every workspace.
pub fn workspace_only<P>(workspaces: Vec<String>) -> (r: Vec<Policy<P>>)
    ensures
        r@.len() == 6,
        forall|i: int| 0 <= i < 6 ==> {
            &&& (#[trigger] r@[i]).tool@ == file_tools()[i]
            &&& r@[i].decision == Decision::Deny
            &&& r@[i].when matches Some(Condition::OutsideWorkspaces(ws)) && ws@ == workspaces@
            &&& r@[i].ask_user is None
            &&& r@[i].name@ == "workspace_only"@
        },
{
    let mut r = Vec::new();
    r.push(scoped_deny(BuiltinTools::CreateFile.as_str(), &workspaces));
    r.push(scoped_deny(BuiltinTools::EditFile.as_str(), &workspaces));
    r.push(scoped_deny(BuiltinTools::ViewFile.as_str(), &workspaces));
    r.push(scoped_deny(BuiltinTools::ListDir.as_str(), &workspaces));
    r.push(scoped_deny(BuiltinTools::SearchDir.as_str(), &workspaces));
    r.push(scoped_deny(BuiltinTools::FindFile.as_str(), &workspaces));
    r
}


/// The result of running a user condition or handler.
#[derive(Debug, Clone, Copy, PartialEq, Eq, Structural)]
pub enum CallbackOutcome {
    /// The callback returned this answer.
    Returned(bool),
    /// The callback panicked.
    Panicked,
}

/// The verdict on a call, as a mathematical value.
pub enum Verdict {
    /// The call may run.
    Allowed,
    /// The call is blocked, with this message.
    Denied(Seq<char>),
    /// Evaluation reached the `AskUser` policy with this label, which has no handler.
    MissingHandler(Seq<char>),
}

/// What the enforcer does next, as a mathematical value.
pub enum Plan {
    /// Run the user condition of the policy at this position.
    CheckCondition(int),
    /// Run the handler of the `AskUser` policy at this position.
    AskUser(int),
    /// The call is decided.
    Finished(Verdict),
}

/// What the enforcer asks of its caller next.
#[derive(Debug)]
pub enum EvaluationStep {
    /// Run the user condition of the policy at this position and report its outcome.
    CheckCondition(usize),
    /// Run the handler of the `AskUser` policy at this position and report its outcome.
    AskUser(usize),
    /// The call is decided: the hook result, or an error.
    Finished(Result<HookResult, PolicyError>),
}

/// `r` is the hook result that stands for the verdict `v` (which is not a missing handler).
pub open spec fn result_is(r: HookResult, v: Verdict) -> bool {
    match v {
        Verdict::Allowed => r.allow && r.message@.len() == 0,
        Verdict::Denied(m) => !r.allow && r.message@ == m,
        Verdict::MissingHandler(_) => false,
    }
}

/// `r` is the result (hook result or error) that stands for the verdict `v`.
pub open spec fn outcome_is(r: Result<HookResult, PolicyError>, v: Verdict) -> bool {
    match r {
        Ok(h) => result_is(h, v),
        Err(e) => v matches Verdict::MissingHandler(label) && e matches PolicyError::MissingHandler { label: l } && l@ == label,
    }
}

/// The step `s` stands for the plan `p`.
pub open spec fn step_is(s: EvaluationStep, p: Plan) -> bool {
    match s {
        EvaluationStep::CheckCondition(i) => p == Plan::CheckCondition(i as int),
        EvaluationStep::AskUser(i) => p == Plan::AskUser(i as int),
        EvaluationStep::Finished(r) => p matches Plan::Finished(v) && outcome_is(r, v),
    }
}

/// What the enforcer does once it has chosen the policy `p`, at position `j`,
/// to decide the call.
pub open spec fn decision_plan<P>(p: Policy<P>, j: int) -> Plan {
    match p.decision {
        Decision::Deny => Plan::Finished(Verdict::Denied(denied_message(label_of(p)))),
        Decision::Approve => Plan::Finished(Verdict::Allowed),
        Decision::AskUser => if p.ask_user is Some {
            Plan::AskUser(j)
        } else {
            Plan::Finished(Verdict::MissingHandler(label_of(p)))
        },
    }
}

/// What the enforcer does when it stops at position `j` (past the end: allow).
pub open spec fn plan_at<P>(order: Seq<Policy<P>>, j: int) -> Plan {
    if j < 0 || j >= order.len() {
        Plan::Finished(Verdict::Allowed)
    } else if order[j].when matches Some(Condition::Custom(_)) {
        Plan::CheckCondition(j)
    } else {
        decision_plan(order[j], j)
    }
}

/// The verdict once the handler of the `AskUser` policy `p` has given `outcome`.
pub open spec fn handler_verdict<P>(p: Policy<P>, call: ToolCall, outcome: CallbackOutcome) -> Verdict {
    match outcome {
        CallbackOutcome::Returned(true) => Verdict::Allowed,
        CallbackOutcome::Returned(false) => Verdict::Denied(user_denied_message(call.name@, label_of(p))),
        CallbackOutcome::Panicked => Verdict::Denied(handler_panicked_message(label_of(p))),
    }
}

/// The verdict once the policy at position `k` has been chosen, its handler (if
/// any is run) answering `ask(k)`.
pub open spec fn chosen_verdict<P>(order: Seq<Policy<P>>, call: ToolCall, k: int, ask: spec_fn(int) -> CallbackOutcome) -> Verdict {
    match decision_plan(order[k], k) {
        Plan::Finished(v) => v,
        _ => handler_verdict(order[k], call, ask(k)),
    }
}

/// What the enforcer asks next once the user condition of the policy at
/// position `k` gave `outcome`.
pub open spec fn condition_plan<P>(order: Seq<Policy<P>>, call: ToolCall, k: int, outcome: CallbackOutcome) -> Plan {
    match outcome {
        CallbackOutcome::Returned(true) => decision_plan(order[k], k),
        CallbackOutcome::Returned(false) => plan_at(order, next_stop(order, call, k + 1)),
        CallbackOutcome::Panicked => Plan::Finished(Verdict::Denied(predicate_panicked_message(label_of(order[k])))),
    }
}

/// The plan that follows `p` when the user condition at position `k` answers
/// `cond(k)` and the handler at position `k` answers `ask(k)`: what
/// `after_condition` and `after_handler` give.
pub open spec fn next_plan<P>(
    order: Seq<Policy<P>>,
    call: ToolCall,
    p: Plan,
    cond: spec_fn(int) -> CallbackOutcome,
    ask: spec_fn(int) -> CallbackOutcome,
) -> Plan {
    match p {
        Plan::CheckCondition(k) => condition_plan(order, call, k, cond(k)),
        Plan::AskUser(k) => Plan::Finished(handler_verdict(order[k], call, ask(k))),
        Plan::Finished(v) => Plan::Finished(v),
    }
}

/// The plan reached from `p` after `n` reports of callback outcomes.
pub open spec fn plan_after<P>(
    order: Seq<Policy<P>>,
    call: ToolCall,
    p: Plan,
    cond: spec_fn(int) -> CallbackOutcome,
    ask: spec_fn(int) -> CallbackOutcome,
    n: nat,
) -> Plan
    decreases n,
{
    if n == 0 {
        p
    } else {
        next_plan(order, call, plan_after(order, call, p, cond, ask, (n - 1) as nat), cond, ask)
    }
}

/// The plan that `begin` gives for `call`.
pub open spec fn first_plan<P>(order: Seq<Policy<P>>, call: ToolCall) -> Plan {
    plan_at(order, next_stop(order, call, 0))
}

/// The verdict on `call` of the policies `order`, consulted from position
/// `from`, when the user condition at position `k` answers `cond(k)` and the
/// handler at position `k` answers `ask(k)`.
pub open spec fn evaluate<P>(
    order: Seq<Policy<P>>,
    call: ToolCall,
    from: int,
    cond: spec_fn(int) -> CallbackOutcome,
    ask: spec_fn(int) -> CallbackOutcome,
) -> Verdict
    decreases order.len() - from,
{
    if from < 0 || from >= order.len() {
        Verdict::Allowed
    } else {
        let j = next_stop(order, call, from);
        proof {
            lemma_next_stop_bounds(order, call, from);
        }
        match plan_at(order, j) {
            Plan::Finished(v) => v,
            Plan::AskUser(k) => handler_verdict(order[k], call, ask(k)),
            Plan::CheckCondition(k) => match cond(k) {
                CallbackOutcome::Returned(true) => chosen_verdict(order, call, k, ask),
                CallbackOutcome::Returned(false) => evaluate(order, call, k + 1, cond, ask),
                CallbackOutcome::Panicked => Verdict::Denied(predicate_panicked_message(label_of(order[k]))),
            },
        }
    }
}

/// The next stop lies between `from` and the end.
pub proof fn lemma_next_stop_bounds<P>(order: Seq<Policy<P>>, call: ToolCall, from: int)
    requires
        0 <= from <= order.len(),
    ensures
        from <= next_stop(order, call, from) <= order.len(),
        next_stop(order, call, from) < order.len() ==> stops_at(order[next_stop(order, call, from)], call),
    decreases order.len() - from,
{
    if from < order.len() && !stops_at(order[from], call) {
        lemma_next_stop_bounds(order, call, from + 1);
    }
}

/// Whether an `AskUser` policy list entry lacks its handler.
pub open spec fn lacks_handler<P>(p: Policy<P>) -> bool {
    p.decision == Decision::AskUser && p.ask_user is None
}

/// Safety policy middleware: the policies in the order they are consulted.
pub struct PolicyEnforcer<P> {
    ordered: Vec<Policy<P>>,
}

/// Whether `t` is the wildcard tool name.
fn is_wildcard(t: &String) -> (r: bool)
    ensures
        r == (t@ == wildcard()),
{
    let star = "*".to_owned();
    *t == star
}

/// The precedence group of `p`.
fn level_of<P>(p: &Policy<P>) -> (r: usize)
    ensures
        r == level(*p),
        r < 6,
{
    let base: usize = if is_wildcard(&p.tool) { 3 } else { 0 };
    match p.decision {
        Decision::Deny => base,
        Decision::AskUser => base + 1,
        Decision::Approve => base + 2,
    }
}

/// The name by which messages refer to `p`: its name, or its tool when it has none.
pub fn label<P>(p: &Policy<P>) -> (r: &String)
    ensures
        r@ == label_of(*p),
{
    if p.name.as_str().is_empty() {
        &p.tool
    } else {
        &p.name
    }
}

/// `at_level` grows by one policy at a time.
proof fn lemma_at_level_step<P>(s: Seq<Policy<P>>, i: int, l: int)
    requires
        0 <= i < s.len(),
    ensures
        at_level(s.take(i + 1), l) == if level(s[i]) == l {
            at_level(s.take(i), l).push(s[i])
        } else {
            at_level(s.take(i), l)
        },
{
    assert(s.take(i + 1).drop_last() =~= s.take(i));
    assert(s.take(i + 1).last() == s[i]);
}

impl<P> PolicyEnforcer<P> {
    /// The policies in the order in which they are consulted.
    pub closed spec fn order(&self) -> Seq<Policy<P>> {
        self.ordered@
    }

    /// Orders `policies` by precedence; see the module documentation.
    pub fn new(policies: Vec<Policy<P>>) -> (r: Self)
        ensures
            r.order() == prioritized(policies@),
    {
        let ghost orig = policies@;
        let mut rest = policies;
        let mut b0: Vec<Policy<P>> = Vec::new();
        let mut b1: Vec<Policy<P>> = Vec::new();
        let mut b2: Vec<Policy<P>> = Vec::new();
        let mut b3: Vec<Policy<P>> = Vec::new();
        let mut b4: Vec<Policy<P>> = Vec::new();
        let mut b5: Vec<Policy<P>> = Vec::new();
        let ghost mut i: int = 0;
        assert(orig.take(0) =~= Seq::<Policy<P>>::empty());
        assert(orig.skip(0) =~= orig);
        while rest.len() > 0
            invariant
                0 <= i <= orig.len(),
                rest@ == orig.skip(i),
                b0@ == at_level(orig.take(i), 0),
                b1@ == at_level(orig.take(i), 1),
                b2@ == at_level(orig.take(i), 2),
                b3@ == at_level(orig.take(i), 3),
                b4@ == at_level(orig.take(i), 4),
                b5@ == at_level(orig.take(i), 5),
            decreases rest.len(),
        {
            let p = rest.remove(0);
            proof {
                assert(p == orig[i]);
                assert(rest@ =~= orig.skip(i + 1));
                lemma_at_level_step(orig, i, 0);
                lemma_at_level_step(orig, i, 1);
                lemma_at_level_step(orig, i, 2);
                lemma_at_level_step(orig, i, 3);
                lemma_at_level_step(orig, i, 4);
                lemma_at_level_step(orig, i, 5);
            }
            let l = level_of(&p);
            if l == 0 {
                b0.push(p);
            } else if l == 1 {
                b1.push(p);
            } else if l == 2 {
                b2.push(p);
            } else if l == 3 {
                b3.push(p);
            } else if l == 4 {
                b4.push(p);
            } else {
                b5.push(p);
            }
            proof {
                i = i + 1;
            }
        }
        assert(orig.take(i) =~= orig);
        b0.append(&mut b1);
        b0.append(&mut b2);
        b0.append(&mut b3);
        b0.append(&mut b4);
        b0.append(&mut b5);
        PolicyEnforcer { ordered: b0 }
    }

    /// The number of policies.
    pub fn len(&self) -> (r: usize)
        ensures
            r == self.order().len(),
    {
        self.ordered.len()
    }

    /// The policy consulted at `position`.
    pub fn policy_at(&self, position: usize) -> (r: &Policy<P>)
        requires
            position < self.order().len(),
        ensures
            *r == self.order()[position as int],
    {
        &self.ordered[position]
    }

    /// What to do for the policy at `position`, chosen to decide the call.
    fn decide_at(&self, position: usize) -> (r: EvaluationStep)
        requires
            position < self.order().len(),
        ensures
            step_is(r, decision_plan(self.order()[position as int], position as int)),
    {
        let p = &self.ordered[position];
        match p.decision {
            Decision::Deny => {
                let mut m = "Denied by policy '".to_owned();
                m.append(label(p).as_str());
                m.append("'.");
                EvaluationStep::Finished(Ok(HookResult::denied(m)))
            },
            Decision::Approve => EvaluationStep::Finished(Ok(HookResult::allowed())),
            Decision::AskUser => {
                if p.ask_user.is_some() {
                    EvaluationStep::AskUser(position)
                } else {
                    EvaluationStep::Finished(Err(PolicyError::MissingHandler { label: label(p).clone() }))
                }
            },
        }
    }

    /// Whether the enforcer stops at the policy at `position` for `call`.
    fn stops(&self, call: &ToolCall, position: usize) -> (r: bool)
        requires
            position < self.order().len(),
        ensures
            r == stops_at(self.order()[position as int], *call),
    {
        let p = &self.ordered[position];
        if !(is_wildcard(&p.tool) || p.tool == call.name) {
            return false;
        }
        match &p.when {
            Some(Condition::OutsideWorkspaces(ws)) => is_outside_workspaces(ws, &call.canonical_path),
            _ => true,
        }
    }

    /// Consults the policies from `from` on.
    fn resume(&self, call: &ToolCall, from: usize) -> (r: EvaluationStep)
        requires
            from <= self.order().len(),
        ensures
            step_is(r, plan_at(self.order(), next_stop(self.order(), *call, from as int))),
    {
        let mut i = from;
        while i < self.ordered.len()
            invariant
                from <= i <= self.order().len(),
                next_stop(self.order(), *call, from as int) == next_stop(self.order(), *call, i as int),
            decreases self.ordered.len() - i,
        {
            if self.stops(call, i) {
                let p = &self.ordered[i];
                if let Some(Condition::Custom(_)) = &p.when {
                    return EvaluationStep::CheckCondition(i);
                }
                return self.decide_at(i);
            }
            i = i + 1;
        }
        EvaluationStep::Finished(Ok(HookResult::allowed()))
    }

    /// Starts deciding `call`: the first policy that is about the called tool
    /// and whose workspace condition (if any) holds is chosen; a user condition
    /// is handed to the caller to run.
    pub fn begin(&self, call: &ToolCall) -> (r: EvaluationStep)
        ensures
            step_is(r, first_plan(self.order(), *call)),
    {
        self.resume(call, 0)
    }

    /// Goes on after the user condition of the policy at `position` gave
    /// `outcome`: `true` chooses the policy, `false` goes on with the next
    /// policies, a panic denies the call.
    pub fn after_condition(&self, call: &ToolCall, position: usize, outcome: CallbackOutcome) -> (r: EvaluationStep)
        requires
            position < self.order().len(),
        ensures
            step_is(r, condition_plan(self.order(), *call, position as int, outcome)),
    {
        match outcome {
            CallbackOutcome::Returned(true) => self.decide_at(position),
            CallbackOutcome::Returned(false) => {
                let n = self.ordered.len();
                assert(position < n);
                self.resume(call, position + 1)
            },
            CallbackOutcome::Panicked => {
                let mut m = "Policy evaluation failed for policy '".to_owned();
                m.append(label(&self.ordered[position]).as_str());
                m.append("': predicate panicked.");
                EvaluationStep::Finished(Ok(HookResult::denied(m)))
            },
        }
    }

    /// The result once the handler of the policy at `position` gave `outcome`:
    /// `true` allows the call, `false` or a panic denies it.
    pub fn after_handler(&self, call: &ToolCall, position: usize, outcome: CallbackOutcome) -> (r: HookResult)
        requires
            position < self.order().len(),
        ensures
            result_is(r, handler_verdict(self.order()[position as int], *call, outcome)),
    {
        let p = &self.ordered[position];
        match outcome {
            CallbackOutcome::Returned(true) => HookResult::allowed(),
            CallbackOutcome::Returned(false) => {
                let mut m = "User denied tool '".to_owned();
                m.append(call.name.as_str());
                m.append("' (policy '");
                m.append(label(p).as_str());
                m.append("').");
                HookResult::denied(m)
            },
            CallbackOutcome::Panicked => {
                let mut m = "Policy evaluation failed for policy '".to_owned();
                m.append(label(p).as_str());
                m.append("': handler panicked.");
                HookResult::denied(m)
            },
        }
    }
}

/// Whether a call with path `path` is outside every workspace in `workspaces`.
pub fn is_outside_workspaces(workspaces: &Vec<String>, path: &Option<String>) -> (r: bool)
    ensures
        r == outside_workspaces(workspaces@, *path),
{
    proof {
        reveal_strlit("");
    }
    let p: &str = match path {
        Some(s) => s.as_str(),
        None => "",
    };
    if p.is_empty() {
        return false;
    }
    if !is_absolute(p) {
        return true;
    }
    let mut i: usize = 0;
    while i < workspaces.len()
        invariant
            i <= workspaces@.len(),
            p@ == call_path(*path),
            forall|k: int| 0 <= k < i ==> !path_within(p@, #[trigger] workspaces@[k]@),
        decreases workspaces.len() - i,
    {
        if within(p, workspaces[i].as_str()) {
            return false;
        }
        i = i + 1;
    }
    true
}

/// Checks `policies` and builds their enforcer. Fails, naming the first
/// offending policy, when an `AskUser` policy has no handler.
pub fn enforce<P>(policies: Vec<Policy<P>>) -> (r: Result<PolicyEnforcer<P>, PolicyError>)
    ensures
        r is Ok <==> forall|i: int| 0 <= i < policies@.len() ==> !lacks_handler(#[trigger] policies@[i]),
        r matches Ok(e) ==> e.order() == prioritized(policies@),
        r matches Err(e) ==> exists|i: int| 0 <= i < policies@.len() && {
            &&& lacks_handler(#[trigger] policies@[i])
            &&& forall|k: int| 0 <= k < i ==> !lacks_handler(#[trigger] policies@[k])
            &&& e matches PolicyError::AskUserWithoutHandler { label } && label@ == label_of(policies@[i])
        },
{
    let mut i: usize = 0;
    while i < policies.len()
        invariant
            i <= policies@.len(),
            forall|k: int| 0 <= k < i ==> !lacks_handler(#[trigger] policies@[k]),
        decreases policies.len() - i,
    {
        let p = &policies[i];
        if p.decision == Decision::AskUser && p.ask_user.is_none() {
            let e = PolicyError::AskUserWithoutHandler { label: label(p).clone() };
            assert(lacks_handler(policies@[i as int]));
            return Err(e);
        }
        i = i + 1;
    }
    Ok(PolicyEnforcer::new(policies))
}


/// Every policy in group `l` of `s` has level `l` and comes from `s`; every
/// policy of `s` with level `l` is in the group.
pub proof fn lemma_at_level_members<P>(s: Seq<Policy<P>>, l: int)
    ensures
        forall|k: int| 0 <= k < at_level(s, l).len() ==> level(#[trigger] at_level(s, l)[k]) == l && s.contains(at_level(s, l)[k]),
        forall|i: int| 0 <= i < s.len() && level(#[trigger] s[i]) == l ==> at_level(s, l).contains(s[i]),
    decreases s.len(),
{
    if s.len() > 0 {
        let t = s.drop_last();
        lemma_at_level_members(t, l);
        assert forall|k: int| 0 <= k < at_level(s, l).len() implies level(#[trigger] at_level(s, l)[k]) == l && s.contains(at_level(s, l)[k]) by {
            if k < at_level(t, l).len() {
                assert(at_level(s, l)[k] == at_level(t, l)[k]);
                let j = choose|j: int| 0 <= j < t.len() && t[j] == at_level(t, l)[k];
                assert(s[j] == t[j]);
            } else {
                assert(at_level(s, l)[k] == s.last());
                assert(s[s.len() - 1] == s.last());
            }
        }
        assert forall|i: int| 0 <= i < s.len() && level(#[trigger] s[i]) == l implies at_level(s, l).contains(s[i]) by {
            if i < s.len() - 1 {
                assert(t[i] == s[i]);
                let j = choose|j: int| 0 <= j < at_level(t, l).len() && at_level(t, l)[j] == t[i];
                assert(at_level(s, l)[j] == at_level(t, l)[j]);
            } else {
                assert(at_level(s, l)[at_level(s, l).len() - 1] == s.last());
            }
        }
    }
}

/// Where group `l` starts in the consulting order of `s`.
pub open spec fn group_start<P>(s: Seq<Policy<P>>, l: int) -> int
    decreases l,
{
    if l <= 0 {
        0
    } else {
        group_start(s, l - 1) + at_level(s, l - 1).len()
    }
}

/// Group `l` of `s` sits in the consulting order from `group_start(s, l)` on,
/// and the order has no other policies.
pub proof fn lemma_prioritized_layout<P>(s: Seq<Policy<P>>)
    ensures
        prioritized(s).len() == group_start(s, 6),
        forall|l: int, k: int| 0 <= l < 6 && 0 <= k < at_level(s, l).len() ==>
            #[trigger] prioritized(s)[group_start(s, l) + k] == #[trigger] at_level(s, l)[k],
        forall|l: int| 0 <= l < 6 ==> group_start(s, l) + at_level(s, l).len() == #[trigger] group_start(s, l + 1),
        forall|l: int| 0 <= l <= 6 ==> 0 <= #[trigger] group_start(s, l) <= group_start(s, 6),
{
    let a0 = at_level(s, 0);
    let a1 = at_level(s, 1);
    let a2 = at_level(s, 2);
    let a3 = at_level(s, 3);
    let a4 = at_level(s, 4);
    let a5 = at_level(s, 5);
    assert(group_start(s, 0) == 0);
    assert(group_start(s, 1) == a0.len());
    assert(group_start(s, 2) == a0.len() + a1.len());
    assert(group_start(s, 3) == a0.len() + a1.len() + a2.len());
    assert(group_start(s, 4) == a0.len() + a1.len() + a2.len() + a3.len());
    assert(group_start(s, 5) == a0.len() + a1.len() + a2.len() + a3.len() + a4.len());
    assert(group_start(s, 6) == a0.len() + a1.len() + a2.len() + a3.len() + a4.len() + a5.len());
}

/// Every policy of the consulting order comes from `s`, and the policy at a
/// position of group `l` has level `l`.
pub proof fn lemma_prioritized_levels<P>(s: Seq<Policy<P>>)
    ensures
        forall|j: int| 0 <= j < prioritized(s).len() ==> s.contains(#[trigger] prioritized(s)[j]),
        forall|l: int, j: int|
            #![trigger prioritized(s)[j], group_start(s, l)]
            0 <= l < 6 && group_start(s, l) <= j < group_start(s, l + 1) ==> level(prioritized(s)[j]) == l,
{
    lemma_prioritized_layout(s);
    assert forall|l: int, j: int|
        #![trigger prioritized(s)[j], group_start(s, l)]
        0 <= l < 6 && group_start(s, l) <= j < group_start(s, l + 1) implies
        level(prioritized(s)[j]) == l && s.contains(prioritized(s)[j]) by {
        lemma_at_level_members(s, l);
        let k = j - group_start(s, l);
        assert(prioritized(s)[group_start(s, l) + k] == at_level(s, l)[k]);
    }
    assert forall|j: int| 0 <= j < prioritized(s).len() implies s.contains(#[trigger] prioritized(s)[j]) by {
        let l = lemma_group_of_position(s, j);
        assert(group_start(s, l) == group_start(s, l));
    }
}

/// Every position of the consulting order lies in some group.
pub proof fn lemma_group_of_position<P>(s: Seq<Policy<P>>, k: int) -> (l: int)
    requires
        0 <= k < prioritized(s).len(),
    ensures
        0 <= l < 6,
        group_start(s, l) <= k < group_start(s, l + 1),
{
    lemma_prioritized_layout(s);
    if k < group_start(s, 1) {
        0
    } else if k < group_start(s, 2) {
        1
    } else if k < group_start(s, 3) {
        2
    } else if k < group_start(s, 4) {
        3
    } else if k < group_start(s, 5) {
        4
    } else {
        5
    }
}

/// Positions where the enforcer does not stop can be skipped.
pub proof fn lemma_skip<P>(order: Seq<Policy<P>>, call: ToolCall, from: int, to: int)
    requires
        0 <= from <= to <= order.len(),
        forall|k: int| from <= k < to ==> !stops_at(#[trigger] order[k], call),
    ensures
        next_stop(order, call, from) == next_stop(order, call, to),
    decreases to - from,
{
    if from < to {
        lemma_skip(order, call, from + 1, to);
    }
}

/// Evaluation depends on where it starts only through the next stop.
pub proof fn lemma_evaluate_same_stop<P>(
    order: Seq<Policy<P>>,
    call: ToolCall,
    a: int,
    b: int,
    cond: spec_fn(int) -> CallbackOutcome,
    ask: spec_fn(int) -> CallbackOutcome,
)
    requires
        0 <= a < order.len(),
        0 <= b < order.len(),
        next_stop(order, call, a) == next_stop(order, call, b),
    ensures
        evaluate(order, call, a, cond, ask) == evaluate(order, call, b, cond, ask),
{
}

/// A run of deny policies ending in one that stops unconditionally denies.
proof fn lemma_deny_run<P>(
    order: Seq<Policy<P>>,
    call: ToolCall,
    from: int,
    target: int,
    cond: spec_fn(int) -> CallbackOutcome,
    ask: spec_fn(int) -> CallbackOutcome,
)
    requires
        0 <= from <= target < order.len(),
        stops_at(order[target], call),
        order[target].when is None,
        forall|k: int| from <= k <= target ==> (#[trigger] order[k]).decision == Decision::Deny,
    ensures
        evaluate(order, call, from, cond, ask) is Denied,
    decreases target - from,
{
    lemma_next_stop_bounds(order, call, from);
    let j = next_stop(order, call, from);
    if j > target {
        lemma_skip_until(order, call, from, target);
    }
    assert(j <= target);
    if order[j].when matches Some(Condition::Custom(_)) {
        assert(j < target);
        if cond(j) == CallbackOutcome::Returned(false) {
            lemma_deny_run(order, call, j + 1, target, cond, ask);
        }
    }
}

/// The next stop is no later than a position where the enforcer stops.
proof fn lemma_skip_until<P>(order: Seq<Policy<P>>, call: ToolCall, from: int, target: int)
    requires
        0 <= from <= target < order.len(),
        stops_at(order[target], call),
    ensures
        next_stop(order, call, from) <= target,
    decreases target - from,
{
    if from < target && !stops_at(order[from], call) {
        lemma_skip_until(order, call, from + 1, target);
    }
}

/// Law: when no policy is about the called tool (none names it and none is a
/// wildcard), the call is allowed, whatever the callbacks would answer.
pub proof fn law_no_matching_policy_allows<P>(
    policies: Seq<Policy<P>>,
    call: ToolCall,
    cond: spec_fn(int) -> CallbackOutcome,
    ask: spec_fn(int) -> CallbackOutcome,
)
    requires
        forall|i: int| 0 <= i < policies.len() ==> !matches_tool(#[trigger] policies[i], call.name@),
    ensures
        evaluate(prioritized(policies), call, 0, cond, ask) == Verdict::Allowed,
{
    let order = prioritized(policies);
    lemma_prioritized_layout(policies);
    lemma_prioritized_levels(policies);
    if order.len() > 0 {
        assert forall|k: int| 0 <= k < order.len() implies !stops_at(#[trigger] order[k], call) by {
            let m = lemma_group_of_position(policies, k);
            assert(policies.contains(order[k]));
        }
        lemma_skip(order, call, 0, order.len() as int);
    }
}


/// Later groups start no earlier.
pub proof fn lemma_group_start_monotone<P>(s: Seq<Policy<P>>, a: int, b: int)
    requires
        0 <= a <= b,
    ensures
        group_start(s, a) <= group_start(s, b),
    decreases b - a,
{
    if a < b {
        lemma_group_start_monotone(s, a, b - 1);
    }
}

/// When no policy of a group below `l` is about the called tool, the
/// enforcer's first stop is in group `l` or later.
proof fn lemma_lower_groups_skipped<P>(policies: Seq<Policy<P>>, call: ToolCall, l: int)
    requires
        0 <= l < 6,
        forall|q: int| 0 <= q < policies.len() && level(#[trigger] policies[q]) < l ==> !matches_tool(policies[q], call.name@),
    ensures
        group_start(policies, l) <= prioritized(policies).len(),
        next_stop(prioritized(policies), call, 0) == next_stop(prioritized(policies), call, group_start(policies, l)),
{
    let order = prioritized(policies);
    lemma_prioritized_layout(policies);
    lemma_prioritized_levels(policies);
    assert forall|k: int| 0 <= k < group_start(policies, l) implies !stops_at(#[trigger] order[k], call) by {
        let m = lemma_group_of_position(policies, k);
        if m >= l {
            lemma_group_start_monotone(policies, l, m);
        }
        assert(level(order[k]) == m);
        assert(policies.contains(order[k]));
        let q = choose|q: int| 0 <= q < policies.len() && policies[q] == order[k];
        assert(level(policies[q]) < l);
    }
    lemma_skip(order, call, 0, group_start(policies, l));
}

/// The position in the consulting order of the policy `policies[i]`, found in its group.
proof fn lemma_position_of<P>(policies: Seq<Policy<P>>, i: int) -> (t: int)
    requires
        0 <= i < policies.len(),
    ensures
        group_start(policies, level(policies[i])) <= t < group_start(policies, level(policies[i]) + 1),
        prioritized(policies)[t] == policies[i],
        0 <= level(policies[i]) < 6,
{
    let l = level(policies[i]);
    lemma_prioritized_layout(policies);
    lemma_at_level_members(policies, l);
    let k = choose|k: int| 0 <= k < at_level(policies, l).len() && at_level(policies, l)[k] == policies[i];
    assert(prioritized(policies)[group_start(policies, l) + k] == at_level(policies, l)[k]);
    group_start(policies, l) + k
}

/// Law: an unconditional deny policy for the called tool (or an unconditional
/// `deny_all`, when no specific policy is about the tool) denies the call,
/// whatever else is configured and whatever the callbacks answer. Specific
/// denials thus override every approval, and a wildcard denial blocks every
/// tool that no specific policy mentions.
pub proof fn law_unconditional_deny_decides<P>(
    policies: Seq<Policy<P>>,
    i: int,
    call: ToolCall,
    cond: spec_fn(int) -> CallbackOutcome,
    ask: spec_fn(int) -> CallbackOutcome,
)
    requires
        0 <= i < policies.len(),
        policies[i].decision == Decision::Deny,
        policies[i].when is None,
        matches_tool(policies[i], call.name@),
        forall|q: int| 0 <= q < policies.len() && level(#[trigger] policies[q]) < level(policies[i]) ==> !matches_tool(policies[q], call.name@),
    ensures
        evaluate(prioritized(policies), call, 0, cond, ask) is Denied,
{
    let order = prioritized(policies);
    let l = level(policies[i]);
    let t = lemma_position_of(policies, i);
    lemma_lower_groups_skipped(policies, call, l);
    lemma_prioritized_layout(policies);
    lemma_prioritized_levels(policies);
    let g = group_start(policies, l);
    assert forall|k: int| g <= k <= t implies (#[trigger] order[k]).decision == Decision::Deny by {
        assert(level(order[k]) == l);
    }
    lemma_deny_run(order, call, g, t, cond, ask);
    lemma_evaluate_same_stop(order, call, 0, g, cond, ask);
}

/// Law: an unconditional approve policy for the called tool (or an
/// unconditional `allow_all`, when no specific policy is about the tool)
/// allows the call, when no policy of a stronger group is about the tool and
/// no policy of its own group about the tool has a user condition. Specific
/// approvals thus override a wildcard denial.
pub proof fn law_unconditional_approve_decides<P>(
    policies: Seq<Policy<P>>,
    i: int,
    call: ToolCall,
    cond: spec_fn(int) -> CallbackOutcome,
    ask: spec_fn(int) -> CallbackOutcome,
)
    requires
        0 <= i < policies.len(),
        policies[i].decision == Decision::Approve,
        policies[i].when is None,
        matches_tool(policies[i], call.name@),
        forall|q: int| 0 <= q < policies.len() && level(#[trigger] policies[q]) < level(policies[i]) ==> !matches_tool(policies[q], call.name@),
        forall|q: int| 0 <= q < policies.len() && level(#[trigger] policies[q]) == level(policies[i]) && matches_tool(policies[q], call.name@)
            ==> !(policies[q].when matches Some(Condition::Custom(_))),
    ensures
        evaluate(prioritized(policies), call, 0, cond, ask) == Verdict::Allowed,
{
    let order = prioritized(policies);
    let l = level(policies[i]);
    let t = lemma_position_of(policies, i);
    lemma_lower_groups_skipped(policies, call, l);
    lemma_prioritized_layout(policies);
    lemma_prioritized_levels(policies);
    let g = group_start(policies, l);
    lemma_skip_until(order, call, g, t);
    lemma_next_stop_bounds(order, call, g);
    let j = next_stop(order, call, g);
    assert(level(order[j]) == l);
    assert(policies.contains(order[j]));
    let q = choose|q: int| 0 <= q < policies.len() && policies[q] == order[j];
    assert(matches_tool(policies[q], call.name@));
    lemma_evaluate_same_stop(order, call, 0, g, cond, ask);
}

/// Law: an unconditional `AskUser` policy for the called tool lets the call
/// through when every handler consulted says yes, when no policy of a
/// stronger group is about the tool and every policy of its group about the
/// tool is unconditional and has a handler. A specific question thus
/// overrides a wildcard denial.
pub proof fn law_unconditional_ask_decides<P>(
    policies: Seq<Policy<P>>,
    i: int,
    call: ToolCall,
    cond: spec_fn(int) -> CallbackOutcome,
    ask: spec_fn(int) -> CallbackOutcome,
)
    requires
        0 <= i < policies.len(),
        policies[i].decision == Decision::AskUser,
        policies[i].when is None,
        matches_tool(policies[i], call.name@),
        forall|q: int| 0 <= q < policies.len() && level(#[trigger] policies[q]) < level(policies[i]) ==> !matches_tool(policies[q], call.name@),
        forall|q: int| 0 <= q < policies.len() && level(#[trigger] policies[q]) == level(policies[i]) && matches_tool(policies[q], call.name@)
            ==> policies[q].when is None && policies[q].ask_user is Some,
        forall|k: int| #[trigger] ask(k) == CallbackOutcome::Returned(true),
    ensures
        evaluate(prioritized(policies), call, 0, cond, ask) == Verdict::Allowed,
{
    let order = prioritized(policies);
    let l = level(policies[i]);
    let t = lemma_position_of(policies, i);
    lemma_lower_groups_skipped(policies, call, l);
    lemma_prioritized_layout(policies);
    lemma_prioritized_levels(policies);
    let g = group_start(policies, l);
    lemma_skip_until(order, call, g, t);
    lemma_next_stop_bounds(order, call, g);
    let j = next_stop(order, call, g);
    assert(level(order[j]) == l);
    assert(policies.contains(order[j]));
    let q = choose|q: int| 0 <= q < policies.len() && policies[q] == order[j];
    assert(matches_tool(policies[q], call.name@));
    assert(ask(j) == CallbackOutcome::Returned(true));
    lemma_evaluate_same_stop(order, call, 0, g, cond, ask);
}


/// The group of a prefix of `s` is a prefix of the group of a longer prefix.
pub proof fn lemma_at_level_prefix<P>(s: Seq<Policy<P>>, m: int, n: int, l: int)
    requires
        0 <= m <= n <= s.len(),
    ensures
        at_level(s.take(m), l).is_prefix_of(at_level(s.take(n), l)),
    decreases n - m,
{
    if m < n {
        lemma_at_level_prefix(s, m, n - 1, l);
        lemma_at_level_step(s, n - 1, l);
    }
}

/// Law: within a precedence group the enforcer consults policies in the order
/// they were given, so that the first of them that decides a call wins: for
/// two policies of one group, the earlier one comes first in the consulting
/// order.
pub proof fn law_order_kept_within_group<P>(s: Seq<Policy<P>>, i: int, k: int)
    requires
        0 <= i < k < s.len(),
        level(s[i]) == level(s[k]),
    ensures
        exists|a: int, b: int|
            0 <= a < b < prioritized(s).len() && #[trigger] prioritized(s)[a] == s[i] && #[trigger] prioritized(s)[b] == s[k],
{
    let l = level(s[i]);
    assert(0 <= l < 6);
    assert(s.take(s.len() as int) =~= s);
    lemma_at_level_step(s, i, l);
    lemma_at_level_step(s, k, l);
    lemma_at_level_prefix(s, i + 1, k, l);
    lemma_at_level_prefix(s, k + 1, s.len() as int, l);
    lemma_at_level_prefix(s, i + 1, s.len() as int, l);
    let ai = at_level(s.take(i), l).len() as int;
    let ak = at_level(s.take(k), l).len() as int;
    let whole = at_level(s, l);
    assert(at_level(s.take(i + 1), l)[ai] == s[i]);
    assert(whole[ai] == s[i]);
    assert(at_level(s.take(k + 1), l)[ak] == s[k]);
    assert(whole[ak] == s[k]);
    assert(ai < ak);
    lemma_prioritized_layout(s);
    let a = group_start(s, l) + ai;
    let b = group_start(s, l) + ak;
    assert(ak < whole.len());
    assert(group_start(s, l) + whole.len() == group_start(s, l + 1));
    assert(group_start(s, l + 1) <= group_start(s, 6));
    assert(b < prioritized(s).len());
    assert(prioritized(s)[a] == s[i]);
    assert(prioritized(s)[b] == s[k]);
}


/// One more report after `n` is one report fewer from the plan that follows `p`.
proof fn lemma_plan_after_first<P>(
    order: Seq<Policy<P>>,
    call: ToolCall,
    p: Plan,
    cond: spec_fn(int) -> CallbackOutcome,
    ask: spec_fn(int) -> CallbackOutcome,
    n: nat,
)
    ensures
        plan_after(order, call, p, cond, ask, n + 1) == plan_after(order, call, next_plan(order, call, p, cond, ask), cond, ask, n),
    decreases n,
{
    if n > 0 {
        let m = (n - 1) as nat;
        lemma_plan_after_first(order, call, p, cond, ask, m);
        let q = next_plan(order, call, p, cond, ask);
        assert(plan_after(order, call, p, cond, ask, n + 1) == next_plan(order, call, plan_after(order, call, p, cond, ask, n), cond, ask));
        assert(plan_after(order, call, q, cond, ask, n) == next_plan(order, call, plan_after(order, call, q, cond, ask, m), cond, ask));
    }
}

/// A decided call stays decided.
proof fn lemma_plan_after_finished<P>(
    order: Seq<Policy<P>>,
    call: ToolCall,
    v: Verdict,
    cond: spec_fn(int) -> CallbackOutcome,
    ask: spec_fn(int) -> CallbackOutcome,
    n: nat,
)
    ensures
        plan_after(order, call, Plan::Finished(v), cond, ask, n) == Plan::Finished(v),
    decreases n,
{
    if n > 0 {
        lemma_plan_after_finished(order, call, v, cond, ask, (n - 1) as nat);
    }
}

/// Driving the enforcer from its stop at or after `from` reaches the verdict
/// of `evaluate` from `from`.
proof fn lemma_drive_from<P>(
    order: Seq<Policy<P>>,
    call: ToolCall,
    from: int,
    cond: spec_fn(int) -> CallbackOutcome,
    ask: spec_fn(int) -> CallbackOutcome,
    n: nat,
)
    requires
        0 <= from <= order.len(),
        n >= order.len() - from + 2,
    ensures
        plan_after(order, call, plan_at(order, next_stop(order, call, from)), cond, ask, n)
            == Plan::Finished(evaluate(order, call, from, cond, ask)),
    decreases order.len() - from,
{
    lemma_next_stop_bounds(order, call, from);
    let j = next_stop(order, call, from);
    let p = plan_at(order, j);
    let m = (n - 1) as nat;
    lemma_plan_after_first(order, call, p, cond, ask, m);
    match p {
        Plan::Finished(v) => {
            lemma_plan_after_finished(order, call, v, cond, ask, n);
        },
        Plan::AskUser(k) => {
            lemma_plan_after_finished(order, call, handler_verdict(order[k], call, ask(k)), cond, ask, m);
        },
        Plan::CheckCondition(k) => {
            assert(k == j);
            let q = next_plan(order, call, p, cond, ask);
            match cond(k) {
                CallbackOutcome::Returned(true) => {
                    let m2 = (m - 1) as nat;
                    lemma_plan_after_first(order, call, q, cond, ask, m2);
                    match q {
                        Plan::AskUser(k2) => {
                            lemma_plan_after_finished(order, call, handler_verdict(order[k2], call, ask(k2)), cond, ask, m2);
                        },
                        Plan::Finished(v) => {
                            lemma_plan_after_finished(order, call, v, cond, ask, m2);
                        },
                        Plan::CheckCondition(_) => {},
                    }
                },
                CallbackOutcome::Returned(false) => {
                    lemma_drive_from(order, call, k + 1, cond, ask, m);
                },
                CallbackOutcome::Panicked => {
                    lemma_plan_after_finished(order, call, Verdict::Denied(predicate_panicked_message(label_of(order[k]))), cond, ask, m);
                },
            }
        },
    }
}

/// Law: deciding a call by driving the enforcer — `begin`, then reporting
/// each user condition's outcome to `after_condition` and the handler's
/// outcome to `after_handler` — reaches, within as many reports as there are
/// policies and two more, the verdict of `evaluate` from the start. Conditions
/// are handed out at increasing positions, each after the one before answered
/// no, and only for policies about the called tool with a user condition; once
/// a condition answers yes or panics, or a handler is asked, no further
/// condition is handed out: nothing after the deciding policy is run.
pub proof fn law_driving_the_enforcer_evaluates<P>(
    order: Seq<Policy<P>>,
    call: ToolCall,
    cond: spec_fn(int) -> CallbackOutcome,
    ask: spec_fn(int) -> CallbackOutcome,
    n: nat,
)
    ensures
        n >= order.len() + 2 ==> plan_after(order, call, first_plan(order, call), cond, ask, n)
            == Plan::Finished(evaluate(order, call, 0, cond, ask)),
        plan_after(order, call, first_plan(order, call), cond, ask, n + 1) matches Plan::CheckCondition(b)
            ==> plan_after(order, call, first_plan(order, call), cond, ask, n) matches Plan::CheckCondition(a)
                && a < b && cond(a) == CallbackOutcome::Returned(false),
        plan_after(order, call, first_plan(order, call), cond, ask, n) matches Plan::CheckCondition(k)
            ==> 0 <= k < order.len() && stops_at(order[k], call) && order[k].when matches Some(Condition::Custom(_)),
        plan_after(order, call, first_plan(order, call), cond, ask, n) matches Plan::AskUser(k)
            ==> 0 <= k < order.len() && stops_at(order[k], call) && order[k].decision == Decision::AskUser
                && order[k].ask_user is Some,
    decreases n,
{
    let first = first_plan(order, call);
    if n >= order.len() + 2 {
        lemma_drive_from(order, call, 0, cond, ask, n);
    }
    lemma_next_stop_bounds(order, call, 0);
    if n > 0 {
        let m = (n - 1) as nat;
        law_driving_the_enforcer_evaluates(order, call, cond, ask, m);
        let prev = plan_after(order, call, first, cond, ask, m);
        assert(plan_after(order, call, first, cond, ask, n) == next_plan(order, call, prev, cond, ask));
        if let Plan::CheckCondition(a) = prev {
            lemma_next_stop_bounds(order, call, a + 1);
        }
    }
    let cur = plan_after(order, call, first, cond, ask, n);
    assert(plan_after(order, call, first, cond, ask, n + 1) == next_plan(order, call, cur, cond, ask));
    if let Plan::CheckCondition(a) = cur {
        lemma_next_stop_bounds(order, call, a + 1);
    }
}


/// Law: the consulting order, and so every verdict, depends only on which
/// policies each precedence group holds and in what order. Two lists whose
/// groups agree — such as a list and any reordering of it that keeps the
/// relative order of every two policies of one group (same wildcard-or-not,
/// same decision) — are consulted in the same order, and decide every call
/// alike, whatever the callbacks answer.
pub proof fn law_same_groups_same_order<P>(
    s: Seq<Policy<P>>,
    t: Seq<Policy<P>>,
    call: ToolCall,
    cond: spec_fn(int) -> CallbackOutcome,
    ask: spec_fn(int) -> CallbackOutcome,
)
    requires
        forall|l: int| 0 <= l < 6 ==> #[trigger] at_level(s, l) == at_level(t, l),
    ensures
        prioritized(s) == prioritized(t),
        evaluate(prioritized(s), call, 0, cond, ask) == evaluate(prioritized(t), call, 0, cond, ask),
        first_plan(prioritized(s), call) == first_plan(prioritized(t), call),
{
    assert(at_level(s, 0) == at_level(t, 0));
    assert(at_level(s, 1) == at_level(t, 1));
    assert(at_level(s, 2) == at_level(t, 2));
    assert(at_level(s, 3) == at_level(t, 3));
    assert(at_level(s, 4) == at_level(t, 4));
    assert(at_level(s, 5) == at_level(t, 5));
}


/// Evaluation passes over the stops whose user condition answers no.
proof fn lemma_refusals_passed<P>(
    order: Seq<Policy<P>>,
    call: ToolCall,
    from: int,
    m: int,
    cond: spec_fn(int) -> CallbackOutcome,
    ask: spec_fn(int) -> CallbackOutcome,
)
    requires
        0 <= from <= m <= order.len(),
        forall|j: int| from <= j < m && stops_at(#[trigger] order[j], call) ==>
            (order[j].when matches Some(Condition::Custom(_)) && cond(j) == CallbackOutcome::Returned(false)),
    ensures
        evaluate(order, call, from, cond, ask) == evaluate(order, call, m, cond, ask),
    decreases m - from,
{
    if from < m {
        lemma_next_stop_bounds(order, call, from);
        let j = next_stop(order, call, from);
        if j < m {
            lemma_refusals_passed(order, call, j + 1, m, cond, ask);
        } else {
            assert forall|k: int| from <= k < m implies !stops_at(#[trigger] order[k], call) by {
                if stops_at(order[k], call) {
                    lemma_skip_until(order, call, from, k);
                }
            }
            lemma_skip(order, call, from, m);
            if m < order.len() {
                lemma_evaluate_same_stop(order, call, from, m, cond, ask);
            }
        }
    }
}

/// Law: the first policy, in the consulting order, that stops for the call
/// (it is about the called tool and its workspace condition, if any, holds)
/// and whose user condition, if any, does not answer no decides the call: a
/// condition that panics denies it, and otherwise the policy's decision does
/// (an approval allows, a denial denies naming the policy, a question asks its
/// handler, or fails when it has none). When every stop's condition answers
/// no, the call is allowed. Nothing after that policy is consulted.
pub proof fn law_first_accepting_policy_decides<P>(
    order: Seq<Policy<P>>,
    call: ToolCall,
    cond: spec_fn(int) -> CallbackOutcome,
    ask: spec_fn(int) -> CallbackOutcome,
    m: int,
)
    requires
        0 <= m <= order.len(),
        forall|j: int| 0 <= j < m && stops_at(#[trigger] order[j], call) ==>
            (order[j].when matches Some(Condition::Custom(_)) && cond(j) == CallbackOutcome::Returned(false)),
        m < order.len() ==> (stops_at(order[m], call)
            && !(order[m].when matches Some(Condition::Custom(_)) && cond(m) == CallbackOutcome::Returned(false))),
    ensures
        evaluate(order, call, 0, cond, ask) == if m == order.len() {
            Verdict::Allowed
        } else if (order[m].when matches Some(Condition::Custom(_)) && cond(m) == CallbackOutcome::Panicked) {
            Verdict::Denied(predicate_panicked_message(label_of(order[m])))
        } else {
            chosen_verdict(order, call, m, ask)
        },
{
    lemma_refusals_passed(order, call, 0, m, cond, ask);
}


/// Law: the precedence of the consulting order, stated on what the policies
/// say. A policy for a named tool is consulted before a wildcard policy; among
/// policies both for named tools, or both wildcards, a `Deny` is consulted
/// before an `AskUser` or `Approve`, and an `AskUser` before an `Approve`.
pub proof fn law_precedence_order<P>(s: Seq<Policy<P>>, i: int, k: int)
    requires
        0 <= i < s.len(),
        0 <= k < s.len(),
        ({
            let wi = s[i].tool@ == "*"@;
            let wk = s[k].tool@ == "*"@;
            ||| !wi && wk
            ||| wi == wk && s[i].decision == Decision::Deny && s[k].decision != Decision::Deny
            ||| wi == wk && s[i].decision == Decision::AskUser && s[k].decision == Decision::Approve
        }),
    ensures
        exists|a: int, b: int|
            0 <= a < b < prioritized(s).len() && #[trigger] prioritized(s)[a] == s[i] && #[trigger] prioritized(s)[b] == s[k],
{
    let ti = lemma_position_of(s, i);
    let tk = lemma_position_of(s, k);
    let li = level(s[i]);
    let lk = level(s[k]);
    assert(li < lk);
    lemma_group_start_monotone(s, li + 1, lk);
    assert(ti < tk);
    assert(prioritized(s)[ti] == s[i] && prioritized(s)[tk] == s[k]);
    lemma_prioritized_layout(s);
    lemma_group_start_monotone(s, lk + 1, 6);
}


/// The groups of `s` hold its policies between them, each once.
proof fn lemma_groups_count<P>(s: Seq<Policy<P>>)
    ensures
        at_level(s, 0).len() + at_level(s, 1).len() + at_level(s, 2).len() + at_level(s, 3).len()
            + at_level(s, 4).len() + at_level(s, 5).len() == s.len(),
    decreases s.len(),
{
    if s.len() > 0 {
        lemma_groups_count(s.drop_last());
        assert(0 <= level(s.last()) < 6);
    }
}

/// Law: the enforcer consults every given policy and nothing else: the
/// consulting order is as long as the list given, holds each of its policies,
/// and holds nothing that was not given.
pub proof fn law_order_holds_every_policy<P>(s: Seq<Policy<P>>)
    ensures
        prioritized(s).len() == s.len(),
        forall|i: int| 0 <= i < s.len() ==> prioritized(s).contains(#[trigger] s[i]),
        forall|k: int| 0 <= k < prioritized(s).len() ==> s.contains(#[trigger] prioritized(s)[k]),
{
    lemma_groups_count(s);
    assert forall|i: int| 0 <= i < s.len() implies prioritized(s).contains(#[trigger] s[i]) by {
        let t = lemma_position_of(s, i);
        lemma_prioritized_layout(s);
        lemma_group_start_monotone(s, level(s[i]) + 1, 6);
        assert(prioritized(s)[t] == s[i]);
    }
    lemma_prioritized_layout(s);
    lemma_prioritized_levels(s);
    assert forall|k: int| 0 <= k < prioritized(s).len() implies s.contains(#[trigger] prioritized(s)[k]) by {
        let m = lemma_group_of_position(s, k);
    }
}

}
