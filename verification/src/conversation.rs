//! Conversation bookkeeping: the step history with its turn and compaction
//! marks, token usage, the history size limit, and the routing of steps into
//! streamed chunks.

use vstd::prelude::*;
use crate::types::{StepSource, StepTarget, StepType, Step, StreamChunk, ToolCall, UsageMetadata, zero_usage, ChatResponse};

verus! {

/// How many steps a conversation keeps when no limit is given.
pub const DEFAULT_MAX_HISTORY_SIZE: usize = 10000;

/// The history limit of a conversation: the one given, or the default.
/// Zero means that the history is never trimmed.
pub fn history_limit(requested: Option<usize>) -> (r: usize)
    ensures
        r == match requested {
            Some(n) => n,
            None => DEFAULT_MAX_HISTORY_SIZE,
        },
{
    match requested {
        Some(n) => n,
        None => DEFAULT_MAX_HISTORY_SIZE,
    }
}

/// Adding `b` to `a` overflows none of the counts.
pub open spec fn usage_sum_fits(a: UsageMetadata, b: UsageMetadata) -> bool {
    &&& i32::MIN <= a.prompt_token_count + b.prompt_token_count <= i32::MAX
    &&& i32::MIN <= a.candidates_token_count + b.candidates_token_count <= i32::MAX
    &&& i32::MIN <= a.total_token_count + b.total_token_count <= i32::MAX
    &&& i32::MIN <= a.cached_content_token_count + b.cached_content_token_count <= i32::MAX
    &&& i32::MIN <= a.thoughts_token_count + b.thoughts_token_count <= i32::MAX
}

/// The count-by-count sum of two usages.
pub open spec fn add_usage(a: UsageMetadata, b: UsageMetadata) -> UsageMetadata {
    UsageMetadata {
        prompt_token_count: (a.prompt_token_count + b.prompt_token_count) as i32,
        candidates_token_count: (a.candidates_token_count + b.candidates_token_count) as i32,
        total_token_count: (a.total_token_count + b.total_token_count) as i32,
        cached_content_token_count: (a.cached_content_token_count + b.cached_content_token_count) as i32,
        thoughts_token_count: (a.thoughts_token_count + b.thoughts_token_count) as i32,
    }
}

/// Whether `b` can be added to `a` without overflow.
pub fn usage_fits(a: &UsageMetadata, b: &UsageMetadata) -> (r: bool)
    ensures
        r == usage_sum_fits(*a, *b),
{
    let lo = i32::MIN as i64;
    let hi = i32::MAX as i64;
    let p = a.prompt_token_count as i64 + b.prompt_token_count as i64;
    let c = a.candidates_token_count as i64 + b.candidates_token_count as i64;
    let t = a.total_token_count as i64 + b.total_token_count as i64;
    let k = a.cached_content_token_count as i64 + b.cached_content_token_count as i64;
    let h = a.thoughts_token_count as i64 + b.thoughts_token_count as i64;
    lo <= p && p <= hi && lo <= c && c <= hi && lo <= t && t <= hi && lo <= k && k <= hi && lo <= h && h <= hi
}

/// The sum of two usages.
pub fn sum_usage(a: &UsageMetadata, b: &UsageMetadata) -> (r: UsageMetadata)
    requires
        usage_sum_fits(*a, *b),
    ensures
        r == add_usage(*a, *b),
{
    UsageMetadata {
        prompt_token_count: a.prompt_token_count + b.prompt_token_count,
        candidates_token_count: a.candidates_token_count + b.candidates_token_count,
        total_token_count: a.total_token_count + b.total_token_count,
        cached_content_token_count: a.cached_content_token_count + b.cached_content_token_count,
        thoughts_token_count: a.thoughts_token_count + b.thoughts_token_count,
    }
}

/// The indices of `s` that are at least `k`, each lowered by `k`, in order:
/// where step marks land once the first `k` steps are dropped.
pub open spec fn shift_indices(s: Seq<usize>, k: int) -> Seq<usize>
    decreases s.len(),
{
    if s.len() == 0 {
        seq![]
    } else if s.last() >= k {
        shift_indices(s.drop_last(), k).push((s.last() - k) as usize)
    } else {
        shift_indices(s.drop_last(), k)
    }
}

/// How many of `len` steps are dropped to keep at most `max` (zero: keep all).
pub open spec fn overflow_of(len: int, max: int) -> int {
    if max > 0 && len > max {
        len - max
    } else {
        0
    }
}

/// The position of the last step that completes a response, or -1.
pub open spec fn last_complete_index(steps: Seq<Step>) -> int
    decreases steps.len(),
{
    if steps.len() == 0 {
        -1
    } else if steps.last().is_complete_response == Some(true) {
        steps.len() - 1
    } else {
        last_complete_index(steps.drop_last())
    }
}

/// `b` is a copy of the step `a`.
pub open spec fn same_step(a: Step, b: Step) -> bool {
    b.tool_calls@ == a.tool_calls@ && b == (Step { tool_calls: b.tool_calls, ..a })
}

/// Turn starts are in order and at most the history length; compaction marks
/// are strictly increasing and are exactly the positions of the compaction
/// steps.
pub open spec fn marks_valid(turns: Seq<usize>, marks: Seq<usize>, steps: Seq<Step>) -> bool {
    &&& forall|i: int| 0 <= i < turns.len() ==> #[trigger] turns[i] <= steps.len()
    &&& forall|i: int, j: int| 0 <= i < j < turns.len() ==> turns[i] <= turns[j]
    &&& forall|i: int| 0 <= i < marks.len() ==> {
        &&& #[trigger] marks[i] < steps.len()
        &&& steps[marks[i] as int].step_type == StepType::Compaction
    }
    &&& forall|i: int, j: int| 0 <= i < j < marks.len() ==> marks[i] < marks[j]
    &&& forall|i: int| 0 <= i < steps.len() && (#[trigger] steps[i]).step_type == StepType::Compaction
        ==> is_marked(marks, i)
}

/// The position `i` is among `marks`.
pub open spec fn is_marked(marks: Seq<usize>, i: int) -> bool {
    exists|j: int| 0 <= j < marks.len() && marks[j] == i
}

/// The total of the usages in `log` (steps without usage count nothing).
pub open spec fn usage_total(log: Seq<Option<UsageMetadata>>) -> UsageMetadata
    decreases log.len(),
{
    if log.len() == 0 {
        zero_usage()
    } else {
        match log.last() {
            Some(u) => add_usage(usage_total(log.drop_last()), u),
            None => usage_total(log.drop_last()),
        }
    }
}

/// The total of the usages in `log`, or nothing when no entry has usage.
pub open spec fn usage_reported(log: Seq<Option<UsageMetadata>>) -> Option<UsageMetadata>
    decreases log.len(),
{
    if log.len() == 0 {
        None
    } else {
        match log.last() {
            Some(u) => Some(add_usage(
                match usage_reported(log.drop_last()) {
                    Some(t) => t,
                    None => zero_usage(),
                },
                u,
            )),
            None => usage_reported(log.drop_last()),
        }
    }
}

/// The steps of a conversation with the marks that index into them.
pub struct ConversationState {
    /// The recorded steps, oldest first.
    pub steps: Vec<Step>,
    /// For each turn still in the history, the position of its first step.
    pub turn_start_indices: Vec<usize>,
    /// The positions of the compaction steps still in the history.
    pub compaction_indices: Vec<usize>,
    /// The usage of every step recorded since the last clear.
    pub cumulative_usage: UsageMetadata,
    /// The usage of the steps of the current turn, once one reported usage.
    pub turn_usage: Option<UsageMetadata>,
    /// The usage reported by each step recorded since the last clear.
    pub recorded: Ghost<Seq<Option<UsageMetadata>>>,
    /// The usage reported by each step recorded in the current turn.
    pub recorded_in_turn: Ghost<Seq<Option<UsageMetadata>>>,
    /// How many turns began since the last clear.
    pub begun: Ghost<nat>,
}

impl ConversationState {
    /// The usage reported by each step recorded since the last clear, trimmed or not.
    pub open spec fn usage_log(&self) -> Seq<Option<UsageMetadata>> {
        self.recorded@
    }

    /// The usage reported by each step recorded since the current turn began.
    pub open spec fn turn_usage_log(&self) -> Seq<Option<UsageMetadata>> {
        self.recorded_in_turn@
    }

    /// The totals are the sums of the usages recorded.
    pub open spec fn usage_consistent(&self) -> bool {
        &&& self.cumulative_usage == usage_total(self.usage_log())
        &&& self.turn_usage == usage_reported(self.turn_usage_log())
    }

    /// How many turns began since the last clear.
    pub open spec fn turns_begun(&self) -> nat {
        self.begun@
    }

    /// The marks index into the history: turn starts are in order and at most
    /// the history length, compaction marks are strictly increasing and are
    /// exactly the positions of the compaction steps; no more turns are marked
    /// than began since the last clear.
    pub open spec fn well_formed(&self) -> bool {
        &&& marks_valid(self.turn_start_indices@, self.compaction_indices@, self.steps@)
        &&& self.turn_start_indices@.len() <= self.turns_begun()
    }

    /// The usage of a step can be added to both totals without overflow.
    pub open spec fn can_record(&self, step: Step) -> bool {
        match step.usage_metadata {
            Some(u) => usage_sum_fits(self.cumulative_usage, u) && usage_sum_fits(
                match self.turn_usage {
                    Some(t) => t,
                    None => zero_usage(),
                },
                u,
            ),
            None => true,
        }
    }

    /// An empty conversation.
    pub fn new() -> (r: Self)
        ensures
            r.steps@.len() == 0,
            r.turn_start_indices@.len() == 0,
            r.compaction_indices@.len() == 0,
            r.cumulative_usage == zero_usage(),
            r.turn_usage is None,
            r.well_formed(),
            r.usage_log().len() == 0,
            r.usage_consistent(),
            r.turns_begun() == 0,
    {
        ConversationState {
            steps: Vec::new(),
            turn_start_indices: Vec::new(),
            compaction_indices: Vec::new(),
            cumulative_usage: UsageMetadata::default(),
            turn_usage: None,
            recorded: Ghost(Seq::empty()),
            recorded_in_turn: Ghost(Seq::empty()),
            begun: Ghost(0),
        }
    }

    /// The number of turns still in the history.
    pub fn turn_count(&self) -> (r: usize)
        ensures
            r == self.turn_start_indices@.len(),
    {
        self.turn_start_indices.len()
    }

    /// Marks the start of a turn: the next recorded step begins it, and the
    /// turn's usage starts anew.
    pub fn begin_turn(&mut self)
        ensures
            final(self).steps@ == old(self).steps@,
            final(self).turn_start_indices@ == old(self).turn_start_indices@.push(old(self).steps@.len() as usize),
            final(self).compaction_indices@ == old(self).compaction_indices@,
            final(self).cumulative_usage == old(self).cumulative_usage,
            final(self).turn_usage is None,
            old(self).well_formed() ==> final(self).well_formed(),
            final(self).usage_log() == old(self).usage_log(),
            final(self).turn_usage_log().len() == 0,
            old(self).usage_consistent() ==> final(self).usage_consistent(),
            final(self).turns_begun() == old(self).turns_begun() + 1,
    {
        let n = self.steps.len();
        self.turn_start_indices.push(n);
        self.turn_usage = None;
        self.recorded_in_turn = Ghost(Seq::empty());
        self.begun = Ghost(self.begun@ + 1);
    }

    /// Forgets everything: steps, marks and usage.
    pub fn clear(&mut self)
        ensures
            final(self).steps@.len() == 0,
            final(self).turn_start_indices@.len() == 0,
            final(self).compaction_indices@.len() == 0,
            final(self).cumulative_usage == zero_usage(),
            final(self).turn_usage is None,
            final(self).well_formed(),
            final(self).usage_log().len() == 0,
            final(self).usage_consistent(),
            final(self).turns_begun() == 0,
    {
        self.steps.clear();
        self.turn_start_indices.clear();
        self.compaction_indices.clear();
        self.cumulative_usage = UsageMetadata::default();
        self.turn_usage = None;
        self.recorded = Ghost(Seq::empty());
        self.recorded_in_turn = Ghost(Seq::empty());
        self.begun = Ghost(0);
    }

    /// Whether the usage of `step` can be recorded without overflow.
    pub fn fits(&self, step: &Step) -> (r: bool)
        ensures
            r == self.can_record(*step),
    {
        match &step.usage_metadata {
            Some(u) => {
                let turn = match &self.turn_usage {
                    Some(t) => *t,
                    None => UsageMetadata::default(),
                };
                usage_fits(&self.cumulative_usage, u) && usage_fits(&turn, u)
            },
            None => true,
        }
    }

    /// The text of the last step that completes a response, or the empty text.
    pub fn last_response(&self) -> (r: String)
        ensures
            last_complete_index(self.steps@) >= 0 ==> r@ == self.steps@[last_complete_index(self.steps@)].content@,
            last_complete_index(self.steps@) < 0 ==> r@.len() == 0,
    {
        let mut i = self.steps.len();
        assert(self.steps@.take(i as int) =~= self.steps@);
        while i > 0
            invariant
                i <= self.steps@.len(),
                last_complete_index(self.steps@) == last_complete_index(self.steps@.take(i as int)),
            decreases i,
        {
            assert(self.steps@.take(i as int).drop_last() =~= self.steps@.take(i - 1));
            assert(self.steps@.take(i as int).last() == self.steps@[i - 1]);
            if self.steps[i - 1].is_complete_response == Some(true) {
                return self.steps[i - 1].content.clone();
            }
            i = i - 1;
        }
        String::new()
    }

    /// A copy of the history.
    pub fn history(&self) -> (r: Vec<Step>)
        ensures
            r@.len() == self.steps@.len(),
            forall|i: int| 0 <= i < r@.len() ==> same_step(self.steps@[i], #[trigger] r@[i]),
    {
        let mut r: Vec<Step> = Vec::new();
        let mut i: usize = 0;
        while i < self.steps.len()
            invariant
                i <= self.steps@.len(),
                r@.len() == i,
                forall|k: int| 0 <= k < i ==> same_step(self.steps@[k], #[trigger] r@[k]),
            decreases self.steps.len() - i,
        {
            r.push(self.steps[i].clone());
            i = i + 1;
        }
        r
    }

    /// Records `step` as the newest step: it joins the history, a compaction
    /// step is marked, its usage is added to the conversation's and the turn's
    /// totals, and when the history holds more than `max_history` steps (zero:
    /// no limit) the oldest are dropped and the marks moved with the steps,
    /// marks of dropped steps being forgotten.
    pub fn record_step(&mut self, step: Step, max_history: usize)
        requires
            old(self).can_record(step),
            old(self).steps@.len() < usize::MAX,
        ensures
            ({
                let pushed = old(self).steps@.push(step);
                let marks = if step.step_type == StepType::Compaction {
                    old(self).compaction_indices@.push(old(self).steps@.len() as usize)
                } else {
                    old(self).compaction_indices@
                };
                let k = overflow_of(pushed.len() as int, max_history as int);
                &&& final(self).steps@ == pushed.skip(k)
                &&& final(self).turn_start_indices@ == shift_indices(old(self).turn_start_indices@, k)
                &&& final(self).compaction_indices@ == shift_indices(marks, k)
            }),
            final(self).cumulative_usage == match step.usage_metadata {
                Some(u) => add_usage(old(self).cumulative_usage, u),
                None => old(self).cumulative_usage,
            },
            final(self).turn_usage == match step.usage_metadata {
                Some(u) => Some(add_usage(
                    match old(self).turn_usage {
                        Some(t) => t,
                        None => zero_usage(),
                    },
                    u,
                )),
                None => old(self).turn_usage,
            },
            final(self).steps@ == history_after(old(self).steps@, seq![step], max_history as int),
            final(self).steps@.last() == step,
            max_history > 0 ==> final(self).steps@.len() <= max_history,
            old(self).well_formed() ==> final(self).well_formed(),
            final(self).usage_log() == old(self).usage_log().push(step.usage_metadata),
            final(self).turn_usage_log() == old(self).turn_usage_log().push(step.usage_metadata),
            old(self).usage_consistent() ==> final(self).usage_consistent(),
            final(self).turns_begun() == old(self).turns_begun(),
    {
        let ghost old_turns = self.turn_start_indices@;
        let ghost old_marks = self.compaction_indices@;
        let ghost old_steps = self.steps@;
        let ghost pushed = self.steps@.push(step);
        proof {
            let one = seq![step];
            assert(one.drop_last() =~= Seq::<Step>::empty());
            assert(one.last() == step);
            assert(history_after(old_steps, one.drop_last(), max_history as int) == old_steps);
            assert(history_after(old_steps, one, max_history as int)
                == pushed.skip(overflow_of(pushed.len() as int, max_history as int)));
        }
        let is_compaction = step.step_type == StepType::Compaction;
        match &step.usage_metadata {
            Some(u) => {
                let turn = match &self.turn_usage {
                    Some(t) => *t,
                    None => UsageMetadata::default(),
                };
                self.cumulative_usage = sum_usage(&self.cumulative_usage, u);
                self.turn_usage = Some(sum_usage(&turn, u));
            },
            None => {},
        }
        let ghost usage = step.usage_metadata;
        self.recorded = Ghost(self.recorded@.push(usage));
        self.recorded_in_turn = Ghost(self.recorded_in_turn@.push(usage));
        proof {
            assert(self.recorded@.drop_last() =~= old(self).recorded@);
            assert(self.recorded_in_turn@.drop_last() =~= old(self).recorded_in_turn@);
        }
        let n = self.steps.len();
        self.steps.push(step);
        if is_compaction {
            self.compaction_indices.push(n);
        }
        let ghost marks = self.compaction_indices@;
        let ghost was_valid = marks_valid(old_turns, old_marks, old_steps);
        proof {
            if was_valid {
                lemma_marks_valid(old_turns, old_marks, marks, old_steps, step);
            }
        }
        let len = self.steps.len();
        if max_history > 0 && len > max_history {
            let overflow = len - max_history;
            let kept = self.steps.split_off(overflow);
            self.steps = kept;
            self.turn_start_indices = shift(&self.turn_start_indices, overflow);
            self.compaction_indices = shift(&self.compaction_indices, overflow);
            proof {
                if was_valid {
                    lemma_shift_valid(old_turns, marks, pushed, overflow as int);
                }
                lemma_shift_members(old_turns, overflow as int);
            }
        } else {
            proof {
                lemma_shift_zero(old_turns);
                lemma_shift_zero(marks);
                assert(pushed.skip(0) =~= pushed);
            }
        }
    }
}

/// Pushing a step keeps the marks valid, a compaction step being marked.
proof fn lemma_marks_valid(turns: Seq<usize>, old_marks: Seq<usize>, marks: Seq<usize>, steps: Seq<Step>, step: Step)
    requires
        steps.len() < usize::MAX,
        marks_valid(turns, old_marks, steps),
        marks == if step.step_type == StepType::Compaction { old_marks.push(steps.len() as usize) } else { old_marks },
    ensures
        marks_valid(turns, marks, steps.push(step)),
{
    let pushed = steps.push(step);
    assert forall|i: int| 0 <= i < marks.len() implies {
        &&& #[trigger] marks[i] < pushed.len()
        &&& pushed[marks[i] as int].step_type == StepType::Compaction
    } by {
        if i < old_marks.len() {
            assert(marks[i] == old_marks[i]);
            assert(pushed[marks[i] as int] == steps[marks[i] as int]);
        } else {
            assert(marks[i] == steps.len());
            assert(pushed[steps.len() as int] == step);
        }
    }
    assert forall|i: int| 0 <= i < turns.len() implies #[trigger] turns[i] <= pushed.len() by {
        assert(turns[i] <= steps.len());
    }
    assert forall|i: int| 0 <= i < pushed.len() && (#[trigger] pushed[i]).step_type == StepType::Compaction
        implies is_marked(marks, i) by {
        if i < steps.len() {
            assert(pushed[i] == steps[i]);
            assert(is_marked(old_marks, i));
            let j = choose|j: int| 0 <= j < old_marks.len() && old_marks[j] == i;
            assert(marks[j] == old_marks[j]);
        } else {
            assert(pushed[i] == step);
            assert(marks[marks.len() - 1] == steps.len());
        }
    }
}

/// Shifting by zero changes nothing.
pub proof fn lemma_shift_zero(s: Seq<usize>)
    ensures
        shift_indices(s, 0) == s,
    decreases s.len(),
{
    if s.len() > 0 {
        lemma_shift_zero(s.drop_last());
        assert(s.drop_last().push(s.last()) =~= s);
    }
}

/// `x` is an index of `s` at least `k`, lowered by `k`.
pub open spec fn lowered_member(s: Seq<usize>, k: int, x: int) -> bool {
    exists|j: int| 0 <= j < s.len() && s[j] >= k && x == s[j] - k
}

/// Every shifted index comes from an index of `s` at least `k`, lowered by `k`.
pub proof fn lemma_shift_members(s: Seq<usize>, k: int)
    requires
        k >= 0,
    ensures
        forall|i: int| 0 <= i < shift_indices(s, k).len() ==> lowered_member(s, k, #[trigger] shift_indices(s, k)[i] as int),
        shift_indices(s, k).len() <= s.len(),
    decreases s.len(),
{
    if s.len() > 0 {
        let t = s.drop_last();
        lemma_shift_members(t, k);
        let r = shift_indices(s, k);
        let rt = shift_indices(t, k);
        assert(r == if s.last() >= k { rt.push((s.last() - k) as usize) } else { rt });
        assert forall|i: int| 0 <= i < r.len() implies lowered_member(s, k, #[trigger] r[i] as int) by {
            if i < rt.len() {
                assert(r[i] == rt[i]);
                assert(lowered_member(t, k, rt[i] as int));
                let j = choose|j: int| 0 <= j < t.len() && t[j] >= k && rt[i] == t[j] - k;
                assert(s[j] == t[j]);
            } else {
                assert(r[i] == s.last() - k);
                assert(s[s.len() - 1] == s.last());
            }
        }
    }
}

/// Shifting keeps nondecreasing order.
pub proof fn lemma_shift_sorted(s: Seq<usize>, k: int, strict: bool)
    requires
        k >= 0,
        forall|i: int, j: int| 0 <= i < j < s.len() ==> if strict { s[i] < s[j] } else { s[i] <= s[j] },
    ensures
        forall|i: int, j: int| 0 <= i < j < shift_indices(s, k).len() ==> if strict {
            shift_indices(s, k)[i] < shift_indices(s, k)[j]
        } else {
            shift_indices(s, k)[i] <= shift_indices(s, k)[j]
        },
    decreases s.len(),
{
    if s.len() > 0 {
        let t = s.drop_last();
        lemma_shift_sorted(t, k, strict);
        lemma_shift_members(t, k);
        let r = shift_indices(s, k);
        let rt = shift_indices(t, k);
        if s.last() >= k {
            assert forall|i: int, j: int| 0 <= i < j < r.len() implies if strict { r[i] < r[j] } else { r[i] <= r[j] } by {
                if j < rt.len() {
                    assert(r[i] == rt[i] && r[j] == rt[j]);
                } else {
                    assert(r[j] == s.last() - k);
                    assert(r[i] == rt[i]);
                    assert(lowered_member(t, k, rt[i] as int));
                    let m = choose|m: int| 0 <= m < t.len() && t[m] >= k && rt[i] == t[m] - k;
                    assert(s[m] == t[m]);
                    assert(s[s.len() - 1] == s.last());
                }
            }
        }
    }
}

/// Dropping the first `k` steps, with the marks shifted, keeps the marks valid.
pub proof fn lemma_shift_valid(turns: Seq<usize>, marks: Seq<usize>, steps: Seq<Step>, k: int)
    requires
        marks_valid(turns, marks, steps),
        0 <= k <= steps.len(),
    ensures
        marks_valid(shift_indices(turns, k), shift_indices(marks, k), steps.skip(k)),
{
    let st = shift_indices(turns, k);
    let sm = shift_indices(marks, k);
    let kept = steps.skip(k);
    lemma_shift_members(turns, k);
    lemma_shift_members(marks, k);
    lemma_shift_sorted(turns, k, false);
    lemma_shift_sorted(marks, k, true);
    assert forall|i: int| 0 <= i < st.len() implies #[trigger] st[i] <= kept.len() by {
        assert(lowered_member(turns, k, st[i] as int));
        let j = choose|j: int| 0 <= j < turns.len() && turns[j] >= k && st[i] == turns[j] - k;
        assert(turns[j] <= steps.len());
    }
    assert forall|i: int| 0 <= i < sm.len() implies {
        &&& #[trigger] sm[i] < kept.len()
        &&& kept[sm[i] as int].step_type == StepType::Compaction
    } by {
        assert(lowered_member(marks, k, sm[i] as int));
        let j = choose|j: int| 0 <= j < marks.len() && marks[j] >= k && sm[i] == marks[j] - k;
        assert(marks[j] < steps.len());
        assert(kept[sm[i] as int] == steps[marks[j] as int]);
    }
    assert forall|i: int| 0 <= i < kept.len() && (#[trigger] kept[i]).step_type == StepType::Compaction
        implies is_marked(sm, i) by {
        assert(kept[i] == steps[i + k]);
        assert(is_marked(marks, i + k));
        lemma_shift_contains(marks, k, i + k);
    }
}

/// A mark at or past `k` lands, lowered by `k`, among the shifted marks.
proof fn lemma_shift_contains(s: Seq<usize>, k: int, x: int)
    requires
        k >= 0,
        x >= k,
        is_marked(s, x),
    ensures
        is_marked(shift_indices(s, k), x - k),
    decreases s.len(),
{
    let t = s.drop_last();
    if s.last() == x {
        assert(shift_indices(s, k) == shift_indices(t, k).push((s.last() - k) as usize));
        assert(shift_indices(s, k)[shift_indices(t, k).len() as int] == x - k);
    } else {
        let j = choose|j: int| 0 <= j < s.len() && s[j] == x;
        assert(j < s.len() - 1 && s[s.len() - 1] == s.last());
        assert(t[j] == s[j]);
        lemma_shift_contains(t, k, x);
        let m = choose|m: int| 0 <= m < shift_indices(t, k).len() && shift_indices(t, k)[m] == x - k;
        if s.last() >= k {
            assert(shift_indices(s, k) == shift_indices(t, k).push((s.last() - k) as usize));
        }
        assert(shift_indices(s, k)[m] == shift_indices(t, k)[m]);
    }
}

/// `s` with the indices below `k` dropped and the others lowered by `k`.
fn shift(s: &Vec<usize>, k: usize) -> (r: Vec<usize>)
    ensures
        r@ == shift_indices(s@, k as int),
{
    let mut r: Vec<usize> = Vec::new();
    let mut i: usize = 0;
    while i < s.len()
        invariant
            i <= s@.len(),
            r@ == shift_indices(s@.take(i as int), k as int),
        decreases s.len() - i,
    {
        assert(s@.take(i + 1).drop_last() =~= s@.take(i as int));
        assert(s@.take(i + 1).last() == s@[i as int]);
        if s[i] >= k {
            r.push(s[i] - k);
        }
        i = i + 1;
    }
    assert(s@.take(s@.len() as int) =~= s@);
    r
}


/// The text chunks of a step: only a step from the model to the user has
/// them, its thinking delta (when not empty) as a thought, then its content
/// delta (when not empty) as text.
pub open spec fn text_chunks(step: Step) -> Seq<StreamChunk> {
    if step.source == StepSource::Model && step.target == StepTarget::User {
        (if step.thinking_delta@.len() > 0 {
            seq![StreamChunk::Thought { step_index: step.step_index, text: step.thinking_delta }]
        } else {
            seq![]
        }) + (if step.content_delta@.len() > 0 {
            seq![StreamChunk::Text { step_index: step.step_index, text: step.content_delta }]
        } else {
            seq![]
        })
    } else {
        seq![]
    }
}

/// Routes tool calls in order: a call with an empty id is always passed on; a
/// call with an id is passed on the first time the id is seen only. Returns the
/// calls passed on and the ids seen afterwards.
pub open spec fn route_calls(seen: Seq<Seq<char>>, calls: Seq<ToolCall>) -> (Seq<ToolCall>, Seq<Seq<char>>)
    decreases calls.len(),
{
    if calls.len() == 0 {
        (seq![], seen)
    } else {
        let (passed, ids) = route_calls(seen, calls.drop_last());
        let c = calls.last();
        if c.id@.len() == 0 {
            (passed.push(c), ids)
        } else if ids.contains(c.id@) {
            (passed, ids)
        } else {
            (passed.push(c), ids.push(c.id@))
        }
    }
}

/// The chunks of each tool call.
pub open spec fn call_chunks(calls: Seq<ToolCall>) -> Seq<StreamChunk> {
    calls.map_values(|c: ToolCall| StreamChunk::ToolCall(c))
}

/// Turns steps into stream chunks, passing each tool call id on once.
#[derive(Debug)]
pub struct ChunkRouter {
    seen_tool_ids: Vec<String>,
}

impl ChunkRouter {
    /// The ids of the tool calls passed on so far.
    pub closed spec fn seen(&self) -> Seq<Seq<char>> {
        self.seen_tool_ids@.map_values(|s: String| s@)
    }

    /// A router that has seen nothing.
    pub fn new() -> (r: Self)
        ensures
            r.seen().len() == 0,
            r.seen().no_duplicates(),
    {
        ChunkRouter { seen_tool_ids: Vec::new() }
    }

    /// Whether the id `id` was passed on before.
    fn has_seen(&self, id: &String) -> (r: bool)
        ensures
            r == self.seen().contains(id@),
    {
        let mut i: usize = 0;
        while i < self.seen_tool_ids.len()
            invariant
                i <= self.seen_tool_ids@.len(),
                forall|k: int| 0 <= k < i ==> self.seen()[k] != id@,
            decreases self.seen_tool_ids.len() - i,
        {
            if self.seen_tool_ids[i] == *id {
                assert(self.seen()[i as int] == id@);
                return true;
            }
            i = i + 1;
        }
        false
    }

    /// The chunks of `step`: its text chunks, then its tool calls, each call
    /// with a non-empty id only the first time that id comes.
    pub fn route(&mut self, step: Step) -> (r: Vec<StreamChunk>)
        ensures
            r@ == text_chunks(step) + call_chunks(route_calls(old(self).seen(), step.tool_calls@).0),
            final(self).seen() == route_calls(old(self).seen(), step.tool_calls@).1,
            old(self).seen().no_duplicates() ==> final(self).seen().no_duplicates(),
    {
        proof {
            if self.seen().no_duplicates() {
                law_router_passes_each_id_once(self.seen(), step.tool_calls@);
            }
        }
        let mut r: Vec<StreamChunk> = Vec::new();
        let to_user = step.source == StepSource::Model && step.target == StepTarget::User;
        let Step { step_index, thinking_delta, content_delta, tool_calls, .. } = step;
        if to_user {
            if !thinking_delta.as_str().is_empty() {
                r.push(StreamChunk::Thought { step_index, text: thinking_delta });
            }
            if !content_delta.as_str().is_empty() {
                r.push(StreamChunk::Text { step_index, text: content_delta });
            }
        }
        assert(r@ =~= text_chunks(step));
        let ghost head = r@;
        let ghost seen0 = self.seen();
        let ghost calls = tool_calls@;
        let mut rest = tool_calls;
        let ghost mut i: int = 0;
        assert(calls.take(0) =~= Seq::<ToolCall>::empty());
        assert(calls.skip(0) =~= calls);
        assert(call_chunks(seq![]) =~= Seq::<StreamChunk>::empty());
        assert(r@ =~= head + call_chunks(route_calls(seen0, calls.take(0)).0));
        while rest.len() > 0
            invariant
                0 <= i <= calls.len(),
                rest@ == calls.skip(i),
                r@ == head + call_chunks(route_calls(seen0, calls.take(i)).0),
                self.seen() == route_calls(seen0, calls.take(i)).1,
            decreases rest.len(),
        {
            let c = rest.remove(0);
            proof {
                assert(c == calls[i]);
                assert(rest@ =~= calls.skip(i + 1));
                assert(calls.take(i + 1).drop_last() =~= calls.take(i));
                assert(calls.take(i + 1).last() == calls[i]);
            }
            let ghost before = route_calls(seen0, calls.take(i));
            if c.id.as_str().is_empty() {
                r.push(StreamChunk::ToolCall(c));
                assert(call_chunks(before.0.push(calls[i])) =~= call_chunks(before.0).push(StreamChunk::ToolCall(calls[i])));
            } else if self.has_seen(&c.id) {
            } else {
                let ghost old_ids = self.seen_tool_ids@;
                self.seen_tool_ids.push(c.id.clone());
                assert(self.seen() =~= before.1.push(calls[i].id@));
                r.push(StreamChunk::ToolCall(c));
                assert(call_chunks(before.0.push(calls[i])) =~= call_chunks(before.0).push(StreamChunk::ToolCall(calls[i])));
            }
            proof {
                i = i + 1;
            }
        }
        assert(calls.take(i) =~= calls);
        r
    }
}

/// The texts of the `Text` chunks of `chunks`, joined in order.
pub open spec fn text_of_chunks(chunks: Seq<StreamChunk>) -> Seq<char>
    decreases chunks.len(),
{
    if chunks.len() == 0 {
        seq![]
    } else {
        text_of_chunks(chunks.drop_last()) + match chunks.last() {
            StreamChunk::Text { text, .. } => text@,
            _ => Seq::<char>::empty(),
        }
    }
}

/// The texts of the `Thought` chunks of `chunks`, joined in order.
pub open spec fn thinking_of_chunks(chunks: Seq<StreamChunk>) -> Seq<char>
    decreases chunks.len(),
{
    if chunks.len() == 0 {
        seq![]
    } else {
        thinking_of_chunks(chunks.drop_last()) + match chunks.last() {
            StreamChunk::Thought { text, .. } => text@,
            _ => Seq::<char>::empty(),
        }
    }
}

/// The text and thinking of a turn, gathered from its chunks.
pub struct TurnText {
    pub text: String,
    pub thinking: String,
    /// The chunks gathered so far, in order.
    pub absorbed: Ghost<Seq<StreamChunk>>,
}

impl TurnText {
    /// The chunks gathered so far, in order.
    pub open spec fn chunks(&self) -> Seq<StreamChunk> {
        self.absorbed@
    }

    /// The text and thinking are those of the chunks gathered.
    pub open spec fn gathered(&self) -> bool {
        &&& self.text@ == text_of_chunks(self.chunks())
        &&& self.thinking@ == thinking_of_chunks(self.chunks())
    }

    /// Nothing gathered yet.
    pub fn new() -> (r: Self)
        ensures
            r.text@.len() == 0,
            r.thinking@.len() == 0,
            r.chunks().len() == 0,
            r.gathered(),
    {
        TurnText { text: String::new(), thinking: String::new(), absorbed: Ghost(Seq::empty()) }
    }

    /// Adds a chunk: text to the text, a thought to the thinking; tool calls add nothing.
    pub fn absorb(&mut self, chunk: &StreamChunk)
        ensures
            match chunk {
                StreamChunk::Text { text, .. } => final(self).text@ == old(self).text@ + text@ && final(self).thinking@ == old(self).thinking@,
                StreamChunk::Thought { text, .. } => final(self).thinking@ == old(self).thinking@ + text@ && final(self).text@ == old(self).text@,
                StreamChunk::ToolCall(_) => final(self).text@ == old(self).text@ && final(self).thinking@ == old(self).thinking@,
            },
            final(self).chunks() == old(self).chunks().push(*chunk),
            old(self).gathered() ==> final(self).gathered(),
    {
        match chunk {
            StreamChunk::Text { text, .. } => self.text.append(text.as_str()),
            StreamChunk::Thought { text, .. } => self.thinking.append(text.as_str()),
            StreamChunk::ToolCall(_) => {},
        }
        let ghost before = self.absorbed@;
        self.absorbed = Ghost(self.absorbed@.push(*chunk));
        assert(self.absorbed@.drop_last() =~= before);
        assert(Seq::<char>::empty() + Seq::<char>::empty() =~= Seq::<char>::empty());
        assert(self.text@ + Seq::<char>::empty() =~= self.text@);
        assert(self.thinking@ + Seq::<char>::empty() =~= self.thinking@);
    }

    /// The response of the turn: the gathered text and thinking, with the
    /// conversation's steps and usage. When every chunk of the turn was
    /// gathered from the start, the text joins the texts of its `Text` chunks
    /// and the thinking those of its `Thought` chunks, in stream order.
    pub fn into_response(self, steps: Vec<Step>, usage_metadata: UsageMetadata) -> (r: ChatResponse)
        ensures
            r.text == self.text,
            r.thinking == self.thinking,
            self.gathered() ==> r.text@ == text_of_chunks(self.chunks()) && r.thinking@ == thinking_of_chunks(self.chunks()),
            r.steps == steps,
            r.usage_metadata == usage_metadata,
    {
        ChatResponse { text: self.text, thinking: self.thinking, steps, usage_metadata }
    }
}


/// The non-empty ids of `calls`, in order.
pub open spec fn named_ids(calls: Seq<ToolCall>) -> Seq<Seq<char>>
    decreases calls.len(),
{
    if calls.len() == 0 {
        seq![]
    } else if calls.last().id@.len() == 0 {
        named_ids(calls.drop_last())
    } else {
        named_ids(calls.drop_last()).push(calls.last().id@)
    }
}

/// Law: the router passes each tool call id on at most once. Routing the
/// calls of a step from the ids `seen` passes on calls whose non-empty ids are
/// all different and none of which was seen before; afterwards the seen ids
/// are the old ones followed by exactly those ids. Calls with an empty id are
/// all passed on.
pub proof fn law_router_passes_each_id_once(seen: Seq<Seq<char>>, calls: Seq<ToolCall>)
    requires
        seen.no_duplicates(),
    ensures
        route_calls(seen, calls).1 == seen + named_ids(route_calls(seen, calls).0),
        route_calls(seen, calls).1.no_duplicates(),
        forall|i: int| 0 <= i < named_ids(route_calls(seen, calls).0).len() ==> !seen.contains(#[trigger] named_ids(route_calls(seen, calls).0)[i]),
        forall|i: int| 0 <= i < calls.len() && (#[trigger] calls[i]).id@.len() == 0 ==> route_calls(seen, calls).0.contains(calls[i]),
    decreases calls.len(),
{
    if calls.len() > 0 {
        let t = calls.drop_last();
        law_router_passes_each_id_once(seen, t);
        let (passed, ids) = route_calls(seen, t);
        let c = calls.last();
        let (passed2, ids2) = route_calls(seen, calls);
        assert(named_ids(passed) == ids.subrange(seen.len() as int, ids.len() as int)) by {
            assert(ids =~= seen + named_ids(passed));
        }
        if c.id@.len() == 0 {
            assert(passed2 == passed.push(c));
            assert(passed.push(c).drop_last() =~= passed);
            assert(named_ids(passed2) == named_ids(passed));
        } else if ids.contains(c.id@) {
        } else {
            assert(passed2 == passed.push(c));
            assert(passed.push(c).drop_last() =~= passed);
            assert(named_ids(passed2) == named_ids(passed).push(c.id@));
            assert(ids2 =~= seen + named_ids(passed2));
            assert forall|i: int| 0 <= i < named_ids(passed2).len() implies !seen.contains(#[trigger] named_ids(passed2)[i]) by {
                if i == named_ids(passed).len() {
                    assert(named_ids(passed2)[i] == c.id@);
                    if seen.contains(c.id@) {
                        let j = choose|j: int| 0 <= j < seen.len() && seen[j] == c.id@;
                        assert(ids[j] == c.id@);
                    }
                } else {
                    assert(named_ids(passed2)[i] == named_ids(passed)[i]);
                }
            }
            assert(ids2.no_duplicates()) by {
                assert forall|a: int, b: int| 0 <= a < b < ids2.len() implies ids2[a] != ids2[b] by {
                    if b == ids2.len() - 1 {
                        assert(ids2[b] == c.id@);
                        assert(ids2[a] == ids[a]);
                        assert(ids.contains(ids[a]));
                    } else {
                        assert(ids2[a] == ids[a] && ids2[b] == ids[b]);
                    }
                }
            }
        }
        assert forall|i: int| 0 <= i < calls.len() && (#[trigger] calls[i]).id@.len() == 0 implies passed2.contains(calls[i]) by {
            if i < calls.len() - 1 {
                assert(calls[i] == t[i]);
                assert(passed.contains(t[i]));
                let j = choose|j: int| 0 <= j < passed.len() && passed[j] == t[i];
                assert(passed2[j] == passed[j]);
            } else {
                assert(calls[i] == c);
                assert(passed2[passed2.len() - 1] == c);
            }
        }
    }
}


/// Law: a history limit of zero never trims: the step is appended and every
/// mark stays where it was.
pub proof fn law_zero_limit_keeps_everything(steps: Seq<Step>, turns: Seq<usize>, marks: Seq<usize>)
    ensures
        overflow_of(steps.len() as int, 0) == 0,
        steps.skip(0) == steps,
        shift_indices(turns, 0) == turns,
        shift_indices(marks, 0) == marks,
{
    lemma_shift_zero(turns);
    lemma_shift_zero(marks);
    assert(steps.skip(0) =~= steps);
}

/// Law: with a positive limit the history keeps exactly the newest steps: once
/// `n` steps are recorded in all, it holds the last `min(n, limit)` of them.
pub proof fn law_limit_keeps_newest(pushed: Seq<Step>, max_history: int)
    requires
        max_history > 0,
    ensures
        pushed.skip(overflow_of(pushed.len() as int, max_history)).len()
            == if pushed.len() < max_history { pushed.len() as int } else { max_history },
        forall|i: int| 0 <= i < pushed.skip(overflow_of(pushed.len() as int, max_history)).len() ==>
            #[trigger] pushed.skip(overflow_of(pushed.len() as int, max_history))[i]
                == pushed[i + overflow_of(pushed.len() as int, max_history)],
{
}


/// Law: the usage totals of a conversation are the sums of the usage reported
/// by the steps recorded: since the last clear for the conversation (trimming
/// the history drops no usage), and since the last turn began for the turn,
/// which has no usage until some step of it reports one.
pub proof fn law_usage_is_sum_of_recorded(state: &ConversationState)
    requires
        state.usage_consistent(),
    ensures
        state.cumulative_usage == usage_total(state.usage_log()),
        state.turn_usage == usage_reported(state.turn_usage_log()),
        (forall|i: int| 0 <= i < state.turn_usage_log().len() ==> #[trigger] state.turn_usage_log()[i] is None) ==> state.turn_usage is None,
{
    lemma_nothing_reported(state.turn_usage_log());
}

/// With no usage in the log, nothing is reported.
proof fn lemma_nothing_reported(log: Seq<Option<UsageMetadata>>)
    ensures
        (forall|i: int| 0 <= i < log.len() ==> #[trigger] log[i] is None) ==> usage_reported(log) is None,
    decreases log.len(),
{
    if log.len() > 0 {
        lemma_nothing_reported(log.drop_last());
        if forall|i: int| 0 <= i < log.len() ==> #[trigger] log[i] is None {
            assert(log[log.len() - 1] is None);
            assert forall|i: int| 0 <= i < log.drop_last().len() implies #[trigger] log.drop_last()[i] is None by {
                assert(log[i] is None);
            }
        }
    }
}


/// Law: `last_complete_index` is the largest position whose step completes a
/// response, or -1 when no step does; `last_response` gives that step's
/// content, or the empty text.
pub proof fn law_last_complete_index(steps: Seq<Step>)
    ensures
        -1 <= last_complete_index(steps) < steps.len(),
        last_complete_index(steps) >= 0 ==> steps[last_complete_index(steps)].is_complete_response == Some(true),
        forall|j: int| last_complete_index(steps) < j < steps.len() ==> (#[trigger] steps[j]).is_complete_response != Some(true),
    decreases steps.len(),
{
    if steps.len() > 0 {
        let t = steps.drop_last();
        law_last_complete_index(t);
        assert(steps[steps.len() - 1] == steps.last());
        assert forall|j: int| last_complete_index(steps) < j < steps.len() implies (#[trigger] steps[j]).is_complete_response != Some(true) by {
            if j < steps.len() - 1 {
                assert(steps[j] == t[j]);
            }
        }
        if last_complete_index(steps) >= 0 && last_complete_index(steps) < steps.len() - 1 {
            assert(steps[last_complete_index(steps)] == t[last_complete_index(steps)]);
        }
    }
}

/// The history after `steps` are recorded one by one, as `record_step` does,
/// onto the history `history` with the limit `max` (zero: no limit).
pub open spec fn history_after(history: Seq<Step>, steps: Seq<Step>, max: int) -> Seq<Step>
    decreases steps.len(),
{
    if steps.len() == 0 {
        history
    } else {
        let pushed = history_after(history, steps.drop_last(), max).push(steps.last());
        pushed.skip(overflow_of(pushed.len() as int, max))
    }
}

/// Law: recording one more step after `steps` is one `record_step` on the
/// history that `steps` left, so that a history recorded step by step from
/// empty is `history_after` of the empty history and the steps.
pub proof fn law_history_grows_step_by_step(history: Seq<Step>, steps: Seq<Step>, step: Step, max: int)
    ensures
        history_after(history, steps.push(step), max) == history_after(history_after(history, steps, max), seq![step], max),
{
    let one = seq![step];
    assert(steps.push(step).drop_last() =~= steps);
    assert(steps.push(step).last() == step);
    assert(one.drop_last() =~= Seq::<Step>::empty());
    assert(one.last() == step);
    let before = history_after(history, steps, max);
    assert(history_after(before, one.drop_last(), max) == before);
}

/// The history after `events`, one by one: `Some(step)` records the step (as
/// `record_step` does with the limit `max`), `None` clears the conversation.
/// Beginning a turn changes no step, so it needs no event.
pub open spec fn history_after_events(history: Seq<Step>, events: Seq<Option<Step>>, max: int) -> Seq<Step>
    decreases events.len(),
{
    if events.len() == 0 {
        history
    } else {
        let before = history_after_events(history, events.drop_last(), max);
        match events.last() {
            Some(step) => history_after(before, seq![step], max),
            None => seq![],
        }
    }
}

/// Law: with a positive limit, a history that starts within the limit stays
/// within it through any sequence of recorded steps and clears.
pub proof fn law_history_stays_within_limit(history: Seq<Step>, events: Seq<Option<Step>>, max: int)
    requires
        max > 0,
        history.len() <= max,
    ensures
        history_after_events(history, events, max).len() <= max,
    decreases events.len(),
{
    if events.len() > 0 {
        law_history_stays_within_limit(history, events.drop_last(), max);
        let before = history_after_events(history, events.drop_last(), max);
        if let Some(step) = events.last() {
            let one = seq![step];
            assert(one.drop_last() =~= Seq::<Step>::empty());
            assert(one.last() == step);
            assert(history_after(before, one.drop_last(), max) == before);
        }
    }
}

/// How many of `n` steps a history with the limit `max` keeps (zero: all).
pub open spec fn kept_count(n: int, max: int) -> int {
    if max > 0 && n > max {
        max
    } else {
        n
    }
}

/// Law: a history is the newest of the steps recorded since it was empty, in
/// the order they came, the oldest trimmed first: after recording `steps` from
/// an empty history it holds their last `k`, with `k` the number of steps when
/// the limit is zero and else the smaller of that number and the limit.
pub proof fn law_history_is_newest_steps(steps: Seq<Step>, max: int)
    requires
        max >= 0,
    ensures
        history_after(seq![], steps, max) == steps.skip(steps.len() - kept_count(steps.len() as int, max)),
        history_after(seq![], steps, max).len() == kept_count(steps.len() as int, max),
        max == 0 || steps.len() <= max ==> history_after(seq![], steps, max) == steps,
        max > 0 && steps.len() >= max ==> history_after(seq![], steps, max) == steps.subrange(steps.len() - max, steps.len() as int),
    decreases steps.len(),
{
    assert(steps.skip(0) =~= steps);
    assert(max > 0 && steps.len() >= max ==> steps.skip(steps.len() - max) =~= steps.subrange(steps.len() - max, steps.len() as int));
    if steps.len() > 0 {
        let t = steps.drop_last();
        law_history_is_newest_steps(t, max);
        let k = kept_count(t.len() as int, max);
        let prev = history_after(seq![], t, max);
        assert(prev.push(steps.last()) =~= steps.skip(t.len() - k));
        let pushed = prev.push(steps.last());
        let o = overflow_of(pushed.len() as int, max);
        assert(pushed.skip(o) =~= steps.skip(steps.len() - kept_count(steps.len() as int, max)));
    } else {
        assert(steps.skip(0) =~= steps);
    }
}


/// Law: a well-formed conversation's compaction marks are, in increasing
/// order, exactly the positions of the compaction steps of its history; it
/// marks no more turns than began since it was made or last cleared; and the
/// turn starts are in order and within the history.
pub proof fn law_marks_match_history(state: &ConversationState)
    requires
        state.well_formed(),
    ensures
        forall|i: int| 0 <= i < state.steps@.len() ==>
            ((#[trigger] state.steps@[i]).step_type == StepType::Compaction <==> is_marked(state.compaction_indices@, i)),
        forall|i: int, j: int| 0 <= i < j < state.compaction_indices@.len() ==>
            state.compaction_indices@[i] < state.compaction_indices@[j],
        state.turn_start_indices@.len() <= state.turns_begun(),
        forall|i: int| 0 <= i < state.turn_start_indices@.len() ==> #[trigger] state.turn_start_indices@[i] <= state.steps@.len(),
{
    let marks = state.compaction_indices@;
    let steps = state.steps@;
    assert forall|i: int| 0 <= i < steps.len() implies
        ((#[trigger] steps[i]).step_type == StepType::Compaction <==> is_marked(marks, i)) by {
        if is_marked(marks, i) {
            let j = choose|j: int| 0 <= j < marks.len() && marks[j] == i;
            assert(steps[marks[j] as int].step_type == StepType::Compaction);
        }
    }
}

/// The call at position `i` of `calls` is passed on by a router that had seen
/// the ids `seen`: its id is empty, or it is neither among `seen` nor the id
/// of an earlier call.
pub open spec fn passes(seen: Seq<Seq<char>>, calls: Seq<ToolCall>, i: int) -> bool {
    ||| calls[i].id@.len() == 0
    ||| !seen.contains(calls[i].id@) && forall|j: int| 0 <= j < i ==> (#[trigger] calls[j]).id@ != calls[i].id@
}

/// The calls at positions `lo` to `hi` (excluded) of `calls` that pass, in order.
pub open spec fn passed_between(seen: Seq<Seq<char>>, calls: Seq<ToolCall>, lo: int, hi: int) -> Seq<ToolCall>
    decreases hi - lo,
{
    if hi <= lo {
        seq![]
    } else {
        passed_between(seen, calls, lo, hi - 1) + if passes(seen, calls, hi - 1) {
            seq![calls[hi - 1]]
        } else {
            Seq::<ToolCall>::empty()
        }
    }
}

/// The tool calls of `steps`, step after step.
pub open spec fn stream_calls(steps: Seq<Step>) -> Seq<ToolCall>
    decreases steps.len(),
{
    if steps.len() == 0 {
        seq![]
    } else {
        stream_calls(steps.drop_last()) + steps.last().tool_calls@
    }
}

/// What a router that had seen the ids `seen` gives for `steps` routed one
/// after the other, as `route` does: the chunks, and the ids seen afterwards.
pub open spec fn route_steps(seen: Seq<Seq<char>>, steps: Seq<Step>) -> (Seq<StreamChunk>, Seq<Seq<char>>)
    decreases steps.len(),
{
    if steps.len() == 0 {
        (seq![], seen)
    } else {
        let (chunks, ids) = route_steps(seen, steps.drop_last());
        let routed = route_calls(ids, steps.last().tool_calls@);
        (chunks + text_chunks(steps.last()) + call_chunks(routed.0), routed.1)
    }
}

/// The chunks of a stream of steps: for each step, its text chunks, then
/// those of its tool calls that pass in the whole stream.
pub open spec fn stream_chunks(seen: Seq<Seq<char>>, steps: Seq<Step>) -> Seq<StreamChunk>
    decreases steps.len(),
{
    if steps.len() == 0 {
        seq![]
    } else {
        stream_chunks(seen, steps.drop_last()) + text_chunks(steps.last()) + call_chunks(
            passed_between(seen, stream_calls(steps), stream_calls(steps.drop_last()).len() as int, stream_calls(steps).len() as int),
        )
    }
}

/// The ids seen after routing `calls` are those seen before and the non-empty
/// ids of the calls.
proof fn lemma_routed_ids(seen: Seq<Seq<char>>, calls: Seq<ToolCall>, x: Seq<char>)
    ensures
        route_calls(seen, calls).1.contains(x) <==> (seen.contains(x)
            || (x.len() > 0 && exists|j: int| 0 <= j < calls.len() && (#[trigger] calls[j]).id@ == x)),
    decreases calls.len(),
{
    if calls.len() > 0 {
        let t = calls.drop_last();
        lemma_routed_ids(seen, t, x);
        let ids = route_calls(seen, t).1;
        let c = calls.last();
        assert(calls[calls.len() - 1] == c);
        if exists|j: int| 0 <= j < t.len() && (#[trigger] t[j]).id@ == x {
            let j = choose|j: int| 0 <= j < t.len() && (#[trigger] t[j]).id@ == x;
            assert(calls[j] == t[j]);
        }
        if exists|j: int| 0 <= j < calls.len() && (#[trigger] calls[j]).id@ == x {
            let j = choose|j: int| 0 <= j < calls.len() && (#[trigger] calls[j]).id@ == x;
            if j < t.len() {
                assert(t[j] == calls[j]);
            }
        }
        if c.id@.len() > 0 && !ids.contains(c.id@) {
            assert(ids.push(c.id@).contains(x) <==> (ids.contains(x) || x == c.id@)) by {
                if ids.push(c.id@).contains(x) {
                    let k = choose|k: int| 0 <= k < ids.push(c.id@).len() && ids.push(c.id@)[k] == x;
                    if k < ids.len() {
                        assert(ids[k] == x);
                    }
                }
                if ids.contains(x) {
                    let k = choose|k: int| 0 <= k < ids.len() && ids[k] == x;
                    assert(ids.push(c.id@)[k] == x);
                }
                assert(ids.push(c.id@)[ids.len() as int] == c.id@);
            }
        }
    }
}

/// Routing `a` and then `b` is routing `a + b`.
proof fn lemma_route_concat(seen: Seq<Seq<char>>, a: Seq<ToolCall>, b: Seq<ToolCall>)
    ensures
        route_calls(route_calls(seen, a).1, b).1 == route_calls(seen, a + b).1,
        route_calls(seen, a).0 + route_calls(route_calls(seen, a).1, b).0 == route_calls(seen, a + b).0,
    decreases b.len(),
{
    if b.len() == 0 {
        assert(a + b =~= a);
        assert(route_calls(seen, a).0 + Seq::<ToolCall>::empty() =~= route_calls(seen, a).0);
    } else {
        let t = b.drop_last();
        lemma_route_concat(seen, a, t);
        assert((a + b).drop_last() =~= a + t);
        assert((a + b).last() == b.last());
        let p = route_calls(seen, a).0;
        let q = route_calls(route_calls(seen, a).1, t).0;
        assert(p + q.push(b.last()) =~= (p + q).push(b.last()));
    }
}

/// Whether a call passes depends only on the calls up to it.
proof fn lemma_passed_prefix(seen: Seq<Seq<char>>, c1: Seq<ToolCall>, c2: Seq<ToolCall>, lo: int, hi: int)
    requires
        0 <= lo,
        hi <= c1.len(),
        hi <= c2.len(),
        forall|j: int| 0 <= j < hi ==> c1[j] == c2[j],
    ensures
        passed_between(seen, c1, lo, hi) == passed_between(seen, c2, lo, hi),
    decreases hi - lo,
{
    if hi > lo {
        lemma_passed_prefix(seen, c1, c2, lo, hi - 1);
        assert(passes(seen, c1, hi - 1) == passes(seen, c2, hi - 1)) by {
            assert(c1[hi - 1] == c2[hi - 1]);
            assert forall|j: int| 0 <= j < hi - 1 implies (#[trigger] c1[j]).id@ == c2[j].id@ by {}
        }
    }
}

/// Routing `b` after `a` passes on exactly the calls of `b` that pass in
/// `a + b`.
proof fn lemma_route_after(seen: Seq<Seq<char>>, a: Seq<ToolCall>, b: Seq<ToolCall>)
    ensures
        route_calls(route_calls(seen, a).1, b).0 == passed_between(seen, a + b, a.len() as int, (a.len() + b.len()) as int),
    decreases b.len(),
{
    if b.len() > 0 {
        let t = b.drop_last();
        let c = b.last();
        let n = (a.len() + t.len()) as int;
        lemma_route_after(seen, a, t);
        lemma_passed_prefix(seen, a + t, a + b, a.len() as int, n);
        lemma_route_concat(seen, a, t);
        let ids = route_calls(route_calls(seen, a).1, t).1;
        lemma_routed_ids(seen, a + t, c.id@);
        assert((a + b)[n] == c);
        assert forall|j: int| 0 <= j < n implies (a + b)[j] == (#[trigger] (a + t)[j]) by {}
        if c.id@.len() > 0 {
            if ids.contains(c.id@) && !seen.contains(c.id@) {
                let j = choose|j: int| 0 <= j < (a + t).len() && (#[trigger] (a + t)[j]).id@ == c.id@;
                assert((a + b)[j] == (a + t)[j]);
                assert(!passes(seen, a + b, n));
            }
            if !ids.contains(c.id@) {
                assert forall|j: int| 0 <= j < n implies (#[trigger] (a + b)[j]).id@ != (a + b)[n].id@ by {
                    assert((a + b)[j] == (a + t)[j]);
                }
                assert(passes(seen, a + b, n));
            }
        }
    }
}

/// Law: routing a stream of steps one by one gives, for each step, its text
/// chunks and then exactly those of its tool calls whose id is empty or that
/// are the first of the stream with their id (and whose id was not seen
/// before the stream); the ids seen afterwards are those of routing all the
/// stream's calls at once.
pub proof fn law_stream_routing(seen: Seq<Seq<char>>, steps: Seq<Step>)
    ensures
        route_steps(seen, steps).0 == stream_chunks(seen, steps),
        route_steps(seen, steps).1 == route_calls(seen, stream_calls(steps)).1,
    decreases steps.len(),
{
    if steps.len() > 0 {
        let t = steps.drop_last();
        law_stream_routing(seen, t);
        let a = stream_calls(t);
        let b = steps.last().tool_calls@;
        lemma_route_after(seen, a, b);
        lemma_route_concat(seen, a, b);
    }
}


/// Law: usages add up count by count. When no count overflows, each count of
/// the sum is the sum of the two counts, and the zero usage adds nothing.
pub proof fn law_usage_adds_each_count(a: UsageMetadata, b: UsageMetadata)
    requires
        usage_sum_fits(a, b),
    ensures
        add_usage(a, b).prompt_token_count == a.prompt_token_count + b.prompt_token_count,
        add_usage(a, b).candidates_token_count == a.candidates_token_count + b.candidates_token_count,
        add_usage(a, b).total_token_count == a.total_token_count + b.total_token_count,
        add_usage(a, b).cached_content_token_count == a.cached_content_token_count + b.cached_content_token_count,
        add_usage(a, b).thoughts_token_count == a.thoughts_token_count + b.thoughts_token_count,
        add_usage(zero_usage(), b) == b,
        add_usage(a, b) == add_usage(b, a),
{
}

/// Law: only what the model says to the user is streamed as text or thought:
/// a step from anyone else, or addressed to anyone else, gives no text chunk.
/// A step from the model to the user gives its thought when its thinking delta
/// is not empty, and its text when its content delta is not empty, each with
/// the step's index, the thought first, and nothing else.
pub proof fn law_text_chunks_are_model_output(step: Step)
    ensures
        !(step.source == StepSource::Model && step.target == StepTarget::User) ==> text_chunks(step).len() == 0,
        step.source == StepSource::Model && step.target == StepTarget::User ==> {
            &&& text_chunks(step).len() == (if step.thinking_delta@.len() > 0 { 1int } else { 0 })
                + (if step.content_delta@.len() > 0 { 1int } else { 0 })
            &&& step.thinking_delta@.len() > 0 ==> text_chunks(step)[0]
                == StreamChunk::Thought { step_index: step.step_index, text: step.thinking_delta }
            &&& step.content_delta@.len() > 0 ==> text_chunks(step)[text_chunks(step).len() - 1]
                == StreamChunk::Text { step_index: step.step_index, text: step.content_delta }
        },
        forall|i: int| 0 <= i < text_chunks(step).len() ==> !(#[trigger] text_chunks(step)[i] is ToolCall),
{
}


/// Law: the text and thinking of chunks add up chunk by chunk: those of two
/// runs of chunks are those of the first followed by those of the second; a
/// text chunk adds its text to the text only, a thought its text to the
/// thinking only, and a tool call adds to neither.
pub proof fn law_chunk_texts_add_up(a: Seq<StreamChunk>, b: Seq<StreamChunk>, c: StreamChunk)
    ensures
        text_of_chunks(a + b) == text_of_chunks(a) + text_of_chunks(b),
        thinking_of_chunks(a + b) == thinking_of_chunks(a) + thinking_of_chunks(b),
        text_of_chunks(seq![c]) == match c {
            StreamChunk::Text { text, .. } => text@,
            _ => Seq::<char>::empty(),
        },
        thinking_of_chunks(seq![c]) == match c {
            StreamChunk::Thought { text, .. } => text@,
            _ => Seq::<char>::empty(),
        },
    decreases b.len(),
{
    let one = seq![c];
    assert(one.drop_last() =~= Seq::<StreamChunk>::empty());
    assert(one.last() == c);
    assert(text_of_chunks(one.drop_last()) == Seq::<char>::empty());
    assert(thinking_of_chunks(one.drop_last()) == Seq::<char>::empty());
    match c {
        StreamChunk::Text { text, .. } => {
            assert(Seq::<char>::empty() + text@ =~= text@);
            assert(Seq::<char>::empty() + Seq::<char>::empty() =~= Seq::<char>::empty());
        },
        StreamChunk::Thought { text, .. } => {
            assert(Seq::<char>::empty() + text@ =~= text@);
            assert(Seq::<char>::empty() + Seq::<char>::empty() =~= Seq::<char>::empty());
        },
        StreamChunk::ToolCall(_) => {
            assert(Seq::<char>::empty() + Seq::<char>::empty() =~= Seq::<char>::empty());
        },
    }
    if b.len() == 0 {
        assert(a + b =~= a);
        assert(text_of_chunks(a) + Seq::<char>::empty() =~= text_of_chunks(a));
        assert(thinking_of_chunks(a) + Seq::<char>::empty() =~= thinking_of_chunks(a));
    } else {
        law_chunk_texts_add_up(a, b.drop_last(), c);
        assert((a + b).drop_last() =~= a + b.drop_last());
        assert((a + b).last() == b.last());
        let ta = text_of_chunks(a);
        let tb = text_of_chunks(b.drop_last());
        let ha = thinking_of_chunks(a);
        let hb = thinking_of_chunks(b.drop_last());
        let x = match b.last() {
            StreamChunk::Text { text, .. } => text@,
            _ => Seq::<char>::empty(),
        };
        let y = match b.last() {
            StreamChunk::Thought { text, .. } => text@,
            _ => Seq::<char>::empty(),
        };
        assert(ta + tb + x =~= ta + (tb + x));
        assert(ha + hb + y =~= ha + (hb + y));
    }
}

}
