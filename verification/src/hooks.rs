//! The decisions of hook dispatch. Hooks are consulted one after the other;
//! each dispatcher here takes their answers as they come, says when to stop
//! consulting, and gives the overall answer.

use vstd::prelude::*;
use crate::types::{HookResult, QuestionHookResult};

verus! {

/// The first answer in `results` that stops the action, if any.
pub open spec fn first_denial(results: Seq<HookResult>) -> Option<HookResult>
    decreases results.len(),
{
    if results.len() == 0 {
        None
    } else if !results[0].allow {
        Some(results[0])
    } else {
        first_denial(results.drop_first())
    }
}

/// Dispatch of a gate (before a turn, before a tool call): the first hook that
/// does not allow decides; when every hook allows, the action goes on.
pub struct GateDispatch {
    decided: Option<HookResult>,
    offered: Ghost<Seq<HookResult>>,
}

impl GateDispatch {
    /// The answers taken so far.
    pub closed spec fn answers(&self) -> Seq<HookResult> {
        self.offered@
    }

    /// The answer that decided the dispatch, if one did.
    pub closed spec fn decision(&self) -> Option<HookResult> {
        self.decided
    }

    /// The dispatch is decided exactly by the first denial among the answers.
    pub closed spec fn consistent(&self) -> bool {
        self.decided == first_denial(self.offered@)
    }

    /// A dispatch that has taken no answer.
    pub fn new() -> (r: Self)
        ensures
            r.answers().len() == 0,
            r.decision() is None,
            r.consistent(),
    {
        GateDispatch { decided: None, offered: Ghost(Seq::empty()) }
    }

    /// Whether the dispatch is decided, so that no further hook is consulted.
    pub fn is_decided(&self) -> (r: bool)
        ensures
            r == self.decision() is Some,
    {
        self.decided.is_some()
    }

    /// Takes the answer of the next hook.
    pub fn offer(&mut self, result: HookResult)
        requires
            old(self).decision() is None,
            old(self).consistent(),
        ensures
            final(self).answers() == old(self).answers().push(result),
            final(self).decision() == (if result.allow { None } else { Some(result) }),
            final(self).consistent(),
    {
        proof {
            lemma_first_denial_push(self.offered@, result);
        }
        if !result.allow {
            self.decided = Some(result);
        }
        self.offered = Ghost(self.offered@.push(result));
    }

    /// The overall answer: the deciding denial, or an allowance with an empty message.
    pub fn outcome(self) -> (r: HookResult)
        ensures
            match self.decision() {
                Some(d) => r == d,
                None => r.allow && r.message@.len() == 0,
            },
    {
        match self.decided {
            Some(d) => d,
            None => HookResult::allowed(),
        }
    }
}

/// Appending an answer after allowances only: the first denial is unchanged
/// if there was one, else it is the new answer when it denies.
pub proof fn lemma_first_denial_push(results: Seq<HookResult>, r: HookResult)
    ensures
        first_denial(results.push(r)) == match first_denial(results) {
            Some(d) => Some(d),
            None => if r.allow { None } else { Some(r) },
        },
    decreases results.len(),
{
    if results.len() > 0 {
        assert(results.push(r).drop_first() =~= results.drop_first().push(r));
        assert(results.push(r)[0] == results[0]);
        lemma_first_denial_push(results.drop_first(), r);
    } else {
        assert(results.push(r).drop_first() =~= Seq::<HookResult>::empty());
        assert(results.push(r)[0] == r);
        assert(first_denial(Seq::<HookResult>::empty()) is None);
    }
}

/// Law: a gate dispatch that stopped at a denial gives that denial, and it is
/// the first denial among all the answers; one that took only allowances
/// allows.
pub proof fn law_gate_gives_first_denial(d: GateDispatch)
    requires
        d.consistent(),
    ensures
        d.decision() == first_denial(d.answers()),
        d.decision() is None ==> forall|i: int| 0 <= i < d.answers().len() ==> (#[trigger] d.answers()[i]).allow,
{
    lemma_first_denial_none(d.answers());
}

/// Law: the first denial is the earliest answer that does not allow, every
/// answer before it allowing; there is none only when every answer allows.
pub proof fn law_first_denial_is_earliest(results: Seq<HookResult>)
    ensures
        first_denial(results) matches Some(r) ==> exists|i: int| 0 <= i < results.len() && {
            &&& #[trigger] results[i] == r
            &&& !r.allow
            &&& forall|j: int| 0 <= j < i ==> (#[trigger] results[j]).allow
        },
        first_denial(results) is None <==> forall|i: int| 0 <= i < results.len() ==> (#[trigger] results[i]).allow,
    decreases results.len(),
{
    lemma_first_denial_none(results);
    if results.len() > 0 {
        let t = results.drop_first();
        law_first_denial_is_earliest(t);
        if results[0].allow {
            if let Some(r) = first_denial(t) {
                let i = choose|i: int| 0 <= i < t.len() && {
                    &&& #[trigger] t[i] == r
                    &&& !r.allow
                    &&& forall|j: int| 0 <= j < i ==> (#[trigger] t[j]).allow
                };
                assert(results[i + 1] == r);
                assert forall|j: int| 0 <= j < i + 1 implies (#[trigger] results[j]).allow by {
                    if j > 0 {
                        assert(results[j] == t[j - 1]);
                    }
                }
            }
            if first_denial(t) is None {
                assert forall|i: int| 0 <= i < results.len() implies (#[trigger] results[i]).allow by {
                    if i > 0 {
                        assert(results[i] == t[i - 1]);
                    }
                }
            }
        } else {
            assert(results[0] == results[0]);
        }
    }
}

/// When no answer denies, every answer allows.
pub proof fn lemma_first_denial_none(results: Seq<HookResult>)
    ensures
        first_denial(results) is None ==> forall|i: int| 0 <= i < results.len() ==> (#[trigger] results[i]).allow,
    decreases results.len(),
{
    if results.len() > 0 {
        lemma_first_denial_none(results.drop_first());
        if first_denial(results) is None {
            assert forall|i: int| 0 <= i < results.len() implies (#[trigger] results[i]).allow by {
                if i > 0 {
                    assert(results[i] == results.drop_first()[i - 1]);
                }
            }
        }
    }
}

/// Dispatch after a tool failed: the first hook that recovers (answers with
/// `allow`) decides, with the value it gives; when none does, the failure
/// stands with the error's text.
#[derive(Debug)]
pub struct RecoveryDispatch {
    recovered: Option<(HookResult, Option<serde_json::Value>)>,
}

impl RecoveryDispatch {
    /// The recovery that decided the dispatch, if any.
    pub closed spec fn recovery(&self) -> Option<(HookResult, Option<serde_json::Value>)> {
        self.recovered
    }

    /// A dispatch that has taken no answer.
    pub fn new() -> (r: Self)
        ensures
            r.recovery() is None,
    {
        RecoveryDispatch { recovered: None }
    }

    /// Whether a hook has recovered, so that no further hook is consulted.
    pub fn is_decided(&self) -> (r: bool)
        ensures
            r == self.recovery() is Some,
    {
        self.recovered.is_some()
    }

    /// Takes the answer of the next hook.
    pub fn offer(&mut self, result: HookResult, value: Option<serde_json::Value>)
        requires
            old(self).recovery() is None,
        ensures
            final(self).recovery() == (if result.allow { Some((result, value)) } else { None }),
    {
        if result.allow {
            self.recovered = Some((result, value));
        }
    }

    /// The overall answer: the recovery, or a denial carrying `error_text` and no value.
    pub fn outcome(self, error_text: String) -> (r: (HookResult, Option<serde_json::Value>))
        ensures
            match self.recovery() {
                Some(x) => r == x,
                None => !r.0.allow && r.0.message == error_text && r.1 is None,
            },
    {
        match self.recovered {
            Some(x) => x,
            None => (HookResult::denied(error_text), None),
        }
    }
}

/// What a hook answers by default when a tool failed: no recovery, the error's text.
pub fn unrecovered(error_text: String) -> (r: (HookResult, Option<serde_json::Value>))
    ensures
        !r.0.allow,
        r.0.message == error_text,
        r.1 is None,
{
    (HookResult::denied(error_text), None)
}

/// Dispatch of a question to the user: the first hook that answers decides.
#[derive(Debug)]
pub struct InteractionDispatch {
    answer: Option<QuestionHookResult>,
}

impl InteractionDispatch {
    /// The answer that decided the dispatch, if any.
    pub closed spec fn decision(&self) -> Option<QuestionHookResult> {
        self.answer
    }

    /// A dispatch that has taken no answer.
    pub fn new() -> (r: Self)
        ensures
            r.decision() is None,
    {
        InteractionDispatch { answer: None }
    }

    /// Whether a hook has answered, so that no further hook is consulted.
    pub fn is_decided(&self) -> (r: bool)
        ensures
            r == self.decision() is Some,
    {
        self.answer.is_some()
    }

    /// Takes the answer of the next hook (`None`: it leaves the question to others).
    pub fn offer(&mut self, answer: Option<QuestionHookResult>)
        requires
            old(self).decision() is None,
        ensures
            final(self).decision() == answer,
    {
        self.answer = answer;
    }

    /// The overall answer, if some hook gave one.
    pub fn outcome(self) -> (r: Option<QuestionHookResult>)
        ensures
            r == self.decision(),
    {
        self.answer
    }
}

}
