//! Tool registration and the results of tool calls.

use vstd::prelude::*;
use crate::types::{ToolCall, ToolResult};

verus! {

/// Registered tools of type `T`, at most one per name; registering a name
/// again replaces its tool.
#[derive(Debug)]
pub struct ToolRegistry<T> {
    names: Vec<String>,
    tools: Vec<T>,
}

impl<T> ToolRegistry<T> {
    /// The names in order of first registration.
    pub closed spec fn names(&self) -> Seq<Seq<char>> {
        self.names@.map_values(|s: String| s@)
    }

    /// The registered tools, by name.
    pub closed spec fn entries(&self) -> Map<Seq<char>, T> {
        Map::new(
            |n: Seq<char>| self.names().contains(n),
            |n: Seq<char>| self.tools@[self.names().index_of(n)],
        )
    }

    /// Names are unique and each has its tool: kept by every operation.
    #[verifier::type_invariant]
    spec fn well_formed(&self) -> bool {
        &&& self.names@.len() == self.tools@.len()
        &&& self.names().no_duplicates()
    }

    /// A registry without tools.
    pub fn new() -> (r: Self)
        ensures
            r.entries() == Map::<Seq<char>, T>::empty(),
    {
        let r = ToolRegistry { names: Vec::new(), tools: Vec::new() };
        assert(r.entries() =~= Map::<Seq<char>, T>::empty());
        r
    }

    /// The number of registered tools.
    pub fn len(&self) -> (r: usize)
        ensures
            r == self.entries().len(),
    {
        proof {
            use_type_invariant(self);
            self.lemma_entries_len();
        }
        self.names.len()
    }

    /// The domain of the entries is the set of names.
    proof fn lemma_entries_len(&self)
        requires
            self.well_formed(),
        ensures
            self.entries().dom() == self.names().to_set(),
            self.entries().len() == self.names@.len(),
    {
        assert(self.entries().dom() =~= self.names().to_set());
        self.names().unique_seq_to_set();
    }

    /// The position of `name` among the names, if registered.
    fn position(&self, name: &String) -> (r: Option<usize>)
        ensures
            match r {
                Some(i) => i < self.names@.len() && self.names()[i as int] == name@,
                None => !self.names().contains(name@),
            },
    {
        let mut i: usize = 0;
        while i < self.names.len()
            invariant
                i <= self.names@.len(),
                forall|k: int| 0 <= k < i ==> self.names()[k] != name@,
            decreases self.names.len() - i,
        {
            if self.names[i] == *name {
                return Some(i);
            }
            i = i + 1;
        }
        None
    }

    /// Registers `tool` under `name`, replacing a tool registered under that name.
    pub fn register(&mut self, name: String, tool: T)
        ensures
            final(self).entries() == old(self).entries().insert(name@, tool),
    {
        proof {
            use_type_invariant(&*self);
        }
        let ghost old_names = self.names();
        let ghost old_tools = self.tools@;
        let found = self.position(&name);
        let mut current = ToolRegistry { names: Vec::new(), tools: Vec::new() };
        std::mem::swap(&mut current, self);
        let ToolRegistry { names, tools } = current;
        let mut names = names;
        let mut tools = tools;
        match found {
            Some(i) => {
                tools.set(i, tool);
                *self = ToolRegistry { names, tools };
                assert(self.names() == old_names);
                assert forall|n: Seq<char>| #[trigger] self.entries().contains_key(n) implies
                    self.entries()[n] == old(self).entries().insert(name@, tool)[n] by {
                    let j = choose|j: int| 0 <= j < old_names.len() && old_names[j] == n;
                    lemma_index_unique(old_names, j);
                    lemma_index_unique(old_names, i as int);
                }
                assert(self.entries() =~= old(self).entries().insert(name@, tool));
            },
            None => {
                names.push(name);
                tools.push(tool);
                let ghost new_names = names@.map_values(|s: String| s@);
                assert(new_names =~= old_names.push(name@));
                assert(new_names.no_duplicates()) by {
                    assert forall|a: int, b: int| 0 <= a < b < new_names.len() implies new_names[a] != new_names[b] by {
                        if b == new_names.len() - 1 {
                            assert(old_names.contains(new_names[a]));
                        } else {
                            assert(new_names[a] == old_names[a] && new_names[b] == old_names[b]);
                        }
                    }
                }
                *self = ToolRegistry { names, tools };
                assert(self.names() == new_names);
                assert forall|n: Seq<char>| #[trigger] self.entries().contains_key(n) implies
                    self.entries()[n] == old(self).entries().insert(name@, tool)[n] by {
                    let j = choose|j: int| 0 <= j < new_names.len() && new_names[j] == n;
                    lemma_index_unique(new_names, j);
                    if j < old_names.len() {
                        assert(old_names[j] == n);
                        lemma_index_unique(old_names, j);
                    }
                }
                assert forall|n: Seq<char>| old(self).entries().insert(name@, tool).contains_key(n) implies
                    #[trigger] self.entries().contains_key(n) by {
                    if n == name@ {
                        assert(new_names[new_names.len() - 1] == n);
                    } else {
                        let j = choose|j: int| 0 <= j < old_names.len() && old_names[j] == n;
                        assert(new_names[j] == n);
                    }
                }
                assert(self.entries() =~= old(self).entries().insert(name@, tool));
            },
        }
    }

    /// The tool registered under `name`, if any.
    pub fn get(&self, name: &String) -> (r: Option<&T>)
        ensures
            match r {
                Some(t) => self.entries().contains_key(name@) && *t == self.entries()[name@],
                None => !self.entries().contains_key(name@),
            },
    {
        proof {
            use_type_invariant(self);
        }
        match self.position(name) {
            Some(i) => {
                proof {
                    lemma_index_unique(self.names(), i as int);
                }
                Some(&self.tools[i])
            },
            None => None,
        }
    }
}

/// Law: a registered tool is found under its name afterwards, and every other
/// name finds what it found before.
pub proof fn law_lookup_after_register<T>(before: Map<Seq<char>, T>, after: Map<Seq<char>, T>, name: Seq<char>, tool: T)
    requires
        after == before.insert(name, tool),
    ensures
        after.contains_key(name),
        after[name] == tool,
        forall|other: Seq<char>| other != name ==> (after.contains_key(other) == before.contains_key(other)
            && (before.contains_key(other) ==> #[trigger] after[other] == before[other])),
{
}

/// In a list without repeats, an element's index is where it stands.
proof fn lemma_index_unique(s: Seq<Seq<char>>, j: int)
    requires
        s.no_duplicates(),
        0 <= j < s.len(),
    ensures
        s.index_of(s[j]) == j,
{
    assert(s.contains(s[j]));
}

/// What running a tool gave.
#[derive(Debug)]
pub enum ToolOutcome {
    /// The tool returned this value.
    Returned(serde_json::Value),
    /// The tool failed with this error text.
    Failed(String),
    /// No tool is registered under the called name.
    NotFound,
}

/// The text of the error for a call of an unregistered tool.
pub open spec fn not_found_message(name: Seq<char>) -> Seq<char> {
    "Tool "@ + name + " not found"@
}

/// `r` is the result reported for `call` once its tool gave `outcome`: the
/// call's id and name, with the value or the error text.
pub open spec fn reports(r: ToolResult, call: ToolCall, outcome: ToolOutcome) -> bool {
    &&& r.id == Some(call.id)
    &&& r.name == call.name
    &&& match outcome {
        ToolOutcome::Returned(v) => r.result == Some(v) && r.error is None,
        ToolOutcome::Failed(e) => r.result is None && r.error == Some(e),
        ToolOutcome::NotFound => r.result is None && (r.error matches Some(e) && e@ == not_found_message(call.name@)),
    }
}

/// The result reported for `call` once its tool gave `outcome`: the call's id
/// and name, with the value or the error text.
pub fn tool_result(call: ToolCall, outcome: ToolOutcome) -> (r: ToolResult)
    ensures
        reports(r, call, outcome),
        (r.result is Some) != (r.error is Some),
{
    match outcome {
        ToolOutcome::Returned(v) => ToolResult { id: Some(call.id), name: call.name, result: Some(v), error: None },
        ToolOutcome::Failed(e) => ToolResult { id: Some(call.id), name: call.name, result: None, error: Some(e) },
        ToolOutcome::NotFound => {
            let mut m = "Tool ".to_owned();
            m.append(call.name.as_str());
            m.append(" not found");
            ToolResult { id: Some(call.id), name: call.name, result: None, error: Some(m) }
        },
    }
}


/// The results reported for `calls`, the call at each position having given
/// the outcome at the same position: one result per call, in the order of the
/// calls (a call made twice is reported twice), each with the call's id and
/// name and exactly one of a value and an error.
pub fn tool_results(calls: Vec<ToolCall>, outcomes: Vec<ToolOutcome>) -> (r: Vec<ToolResult>)
    requires
        calls@.len() == outcomes@.len(),
    ensures
        r@.len() == calls@.len(),
        forall|i: int| 0 <= i < r@.len() ==> reports(#[trigger] r@[i], calls@[i], outcomes@[i]),
        forall|i: int| 0 <= i < r@.len() ==> ((#[trigger] r@[i]).result is Some) != (r@[i].error is Some),
{
    let ghost all_calls = calls@;
    let ghost all_outcomes = outcomes@;
    let mut calls = calls;
    let mut outcomes = outcomes;
    let mut r: Vec<ToolResult> = Vec::new();
    while calls.len() > 0
        invariant
            calls@.len() == outcomes@.len(),
            r@.len() + calls@.len() == all_calls.len(),
            all_calls.len() == all_outcomes.len(),
            calls@ == all_calls.skip(r@.len() as int),
            outcomes@ == all_outcomes.skip(r@.len() as int),
            forall|i: int| 0 <= i < r@.len() ==> reports(#[trigger] r@[i], all_calls[i], all_outcomes[i]),
            forall|i: int| 0 <= i < r@.len() ==> ((#[trigger] r@[i]).result is Some) != (r@[i].error is Some),
        decreases calls.len(),
    {
        let ghost done = r@.len() as int;
        let call = calls.remove(0);
        let outcome = outcomes.remove(0);
        assert(call == all_calls[done]);
        assert(outcome == all_outcomes[done]);
        assert(calls@ =~= all_calls.skip(done + 1));
        assert(outcomes@ =~= all_outcomes.skip(done + 1));
        r.push(tool_result(call, outcome));
    }
    r
}

}
