//! A round-robin merge scheduler for independent line sources.
//!
//! The scheduler owns a fixed number of source slots. Each slot is polled
//! non-blockingly by a surrounding driver; the driver hands every poll's
//! outcome back to the scheduler, which buffers produced lines and releases
//! one line per completed round, in ascending source order. The scheduler
//! reports end-of-sequence once every source is exhausted and the buffer is
//! drained, and turns a single source failure into a terminal failure.

use vstd::prelude::*;

verus! {

/// The single failure the scheduler can report: some underlying source
/// failed while being polled.
#[derive(Debug)]
pub enum LogMergeError {
    DefaultError,
}

impl LogMergeError {
    /// A human-readable description of the failure.
    pub fn message(&self) -> (r: String)
        ensures
            r@ == "Failed stream."@,
    {
        "Failed stream.".to_string()
    }
}

/// What one non-blocking poll of a source reported.
pub enum PollOutcome {
    /// The source produced its next line.
    Line(String),
    /// The source is permanently exhausted.
    Exhausted,
    /// The source has nothing yet, but is not exhausted.
    NotReady,
    /// The source failed.
    Failed,
}

/// Per-source liveness state.
#[derive(Clone, Copy, Debug, PartialEq, Eq, Structural)]
pub enum SourceState {
    /// The source must be polled on the next cycle.
    NeedsPoll,
    /// The source has a buffered line this round; it is not polled again
    /// until that line is released.
    Delivered,
    /// The source is permanently exhausted and never polled again.
    Finished,
}

/// A buffered line together with the index of the source that produced it.
pub struct LogLine {
    pub source_idx: usize,
    pub line: String,
}

/// What one `advance` call yields when no source has failed.
#[derive(Debug)]
pub enum MergeStep {
    /// The next line of the merged sequence.
    Line(String),
    /// End of the merged sequence; repeated by every later call.
    Done,
    /// No line is available yet; the caller should retry later.
    NotReady,
}

/// The merge scheduler: per-source status, a count of exhausted sources,
/// a terminal failure flag, and the queue of buffered lines.
pub struct LogMerge {
    pub source_state: Vec<SourceState>,
    pub finished: usize,
    pub failed: bool,
    pub buffer: Vec<LogLine>,
}

/// Mathematical model of a scheduler state.
#[verifier::ext_equal]
pub ghost struct SchedView {
    pub states: Seq<SourceState>,
    pub finished: int,
    pub failed: bool,
    pub buffer: Seq<LogLine>,
}

impl View for LogMerge {
    type V = SchedView;

    open spec fn view(&self) -> SchedView {
        SchedView {
            states: self.source_state@,
            finished: self.finished as int,
            failed: self.failed,
            buffer: self.buffer@,
        }
    }
}

/// How many entries of `states` equal `target`.
pub open spec fn count_state(states: Seq<SourceState>, target: SourceState) -> int
    decreases states.len(),
{
    if states.len() == 0 {
        0
    } else {
        count_state(states.drop_last(), target) + if states.last() == target {
            1int
        } else {
            0int
        }
    }
}

/// Number of sources that are not yet exhausted.
pub open spec fn unfinished(v: SchedView) -> int {
    v.states.len() - v.finished
}

/// Well-formedness of a scheduler state: the exhausted counter matches the
/// status vector, every buffered line belongs to exactly one `Delivered`
/// source, and every `Delivered` source has exactly one buffered line.
pub open spec fn wf_view(v: SchedView) -> bool {
    &&& v.states.len() <= usize::MAX
    &&& v.finished == count_state(v.states, SourceState::Finished)
    &&& v.buffer.len() == count_state(v.states, SourceState::Delivered)
    &&& forall|j: int|
        0 <= j < v.buffer.len() ==> {
            let entry = #[trigger] v.buffer[j];
            entry.source_idx < v.states.len() && v.states[entry.source_idx as int]
                is Delivered
        }
    &&& forall|j: int, k: int|
        0 <= j < k < v.buffer.len() ==> v.buffer[j].source_idx != v.buffer[k].source_idx
    &&& forall|i: int|
        0 <= i < v.states.len() && (#[trigger] v.states[i]) is Delivered ==> exists|j: int|
            0 <= j < v.buffer.len() && v.buffer[j].source_idx == i
}

/// The effect on the model of recording one poll outcome for source `s`:
/// a produced line is buffered and the source marked `Delivered`, exhaustion
/// marks it `Finished`, "not ready" changes nothing, and a failure sets the
/// terminal failure flag.
pub open spec fn apply_outcome(v: SchedView, s: int, outcome: PollOutcome) -> SchedView {
    match outcome {
        PollOutcome::Line(l) => SchedView {
            states: v.states.update(s, SourceState::Delivered),
            buffer: v.buffer.push(LogLine { source_idx: s as usize, line: l }),
            ..v
        },
        PollOutcome::Exhausted => SchedView {
            states: v.states.update(s, SourceState::Finished),
            finished: v.finished + 1,
            ..v
        },
        PollOutcome::NotReady => v,
        PollOutcome::Failed => SchedView { failed: true, ..v },
    }
}

/// One polling pass starting at source index `s`: each source in `NeedsPoll`
/// consumes the next outcome, in ascending index order; other sources are
/// skipped. The pass stops as soon as a failure is recorded, and sources for
/// which no outcome is left simply stay in `NeedsPoll`.
pub open spec fn run_pass(v: SchedView, outcomes: Seq<PollOutcome>, s: int) -> SchedView
    decreases v.states.len() - s,
{
    if s < 0 || s >= v.states.len() || v.failed {
        v
    } else if v.states[s] is NeedsPoll && outcomes.len() > 0 {
        run_pass(apply_outcome(v, s, outcomes.first()), outcomes.drop_first(), s + 1)
    } else {
        run_pass(v, outcomes, s + 1)
    }
}

/// All sources are exhausted: the merged sequence has ended.
pub open spec fn round_done(v: SchedView) -> bool {
    unfinished(v) == 0
}

/// Every still-unfinished source has contributed its line for this round.
pub open spec fn round_complete(v: SchedView) -> bool {
    v.buffer.len() == unfinished(v)
}

/// The model after releasing the earliest-buffered line: the line leaves the
/// buffer and its source is polled again in the next round.
pub open spec fn release_view(v: SchedView) -> SchedView {
    SchedView {
        states: v.states.update(v.buffer[0].source_idx as int, SourceState::NeedsPoll),
        buffer: v.buffer.drop_first(),
        ..v
    }
}

/// The scheduler state after one full `advance` call on `v` with the given
/// poll outcomes.
pub open spec fn step_state(v: SchedView, outcomes: Seq<PollOutcome>) -> SchedView {
    let v1 = run_pass(v, outcomes, 0);
    if v1.failed {
        v1
    } else if round_done(v1) {
        v1
    } else if round_complete(v1) {
        release_view(v1)
    } else {
        v1
    }
}

/// Result of one `advance` call, seen abstractly.
pub ghost enum StepView {
    Line(Seq<char>),
    Done,
    NotReady,
    Fail,
}

/// What one full `advance` call on `v` with the given poll outcomes returns.
pub open spec fn step_result(v: SchedView, outcomes: Seq<PollOutcome>) -> StepView {
    let v1 = run_pass(v, outcomes, 0);
    if v1.failed {
        StepView::Fail
    } else if round_done(v1) {
        StepView::Done
    } else if round_complete(v1) {
        StepView::Line(v1.buffer[0].line@)
    } else {
        StepView::NotReady
    }
}

/// The abstraction of an `advance` return value.
pub open spec fn result_view(r: Result<MergeStep, LogMergeError>) -> StepView {
    match r {
        Ok(MergeStep::Line(l)) => StepView::Line(l@),
        Ok(MergeStep::Done) => StepView::Done,
        Ok(MergeStep::NotReady) => StepView::NotReady,
        Err(_) => StepView::Fail,
    }
}

/// `count_state` is bounded by the sequence length.
pub proof fn lemma_count_state_bounds(states: Seq<SourceState>, target: SourceState)
    ensures
        0 <= count_state(states, target) <= states.len(),
    decreases states.len(),
{
    if states.len() > 0 {
        lemma_count_state_bounds(states.drop_last(), target);
    }
}

/// A sequence with no entry equal to `target` counts zero.
pub proof fn lemma_count_state_absent(states: Seq<SourceState>, target: SourceState)
    requires
        forall|j: int| 0 <= j < states.len() ==> states[j] != target,
    ensures
        count_state(states, target) == 0,
    decreases states.len(),
{
    if states.len() > 0 {
        lemma_count_state_absent(states.drop_last(), target);
    }
}

/// A sequence with an entry equal to `target` counts at least one.
pub proof fn lemma_count_state_present(states: Seq<SourceState>, target: SourceState, i: int)
    requires
        0 <= i < states.len(),
        states[i] == target,
    ensures
        count_state(states, target) >= 1,
    decreases states.len(),
{
    if i < states.len() - 1 {
        assert(states.drop_last()[i] == states[i]);
        lemma_count_state_present(states.drop_last(), target, i);
    } else {
        lemma_count_state_bounds(states.drop_last(), target);
    }
}

/// A sequence that counts as many entries as its length is constant.
pub proof fn lemma_count_state_full(states: Seq<SourceState>, target: SourceState)
    requires
        count_state(states, target) == states.len(),
    ensures
        forall|j: int| 0 <= j < states.len() ==> states[j] == target,
    decreases states.len(),
{
    if states.len() > 0 {
        lemma_count_state_bounds(states.drop_last(), target);
        lemma_count_state_full(states.drop_last(), target);
        assert forall|j: int| 0 <= j < states.len() implies states[j] == target by {
            if j < states.len() - 1 {
                assert(states[j] == states.drop_last()[j]);
            }
        }
    }
}

/// How a point update changes the count.
pub proof fn lemma_count_state_update(
    states: Seq<SourceState>,
    i: int,
    x: SourceState,
    target: SourceState,
)
    requires
        0 <= i < states.len(),
    ensures
        count_state(states.update(i, x), target) == count_state(states, target) - (
        if states[i] == target {
            1int
        } else {
            0int
        }) + (
        if x == target {
            1int
        } else {
            0int
        }),
    decreases states.len(),
{
    if i == states.len() - 1 {
        assert(states.update(i, x).drop_last() =~= states.drop_last());
    } else {
        assert(states.update(i, x).drop_last() =~= states.drop_last().update(i, x));
        lemma_count_state_update(states.drop_last(), i, x, target);
    }
}

/// The three states partition the sources.
pub proof fn lemma_count_state_partition(states: Seq<SourceState>)
    ensures
        count_state(states, SourceState::NeedsPoll) + count_state(states, SourceState::Delivered)
            + count_state(states, SourceState::Finished) == states.len(),
    decreases states.len(),
{
    if states.len() > 0 {
        lemma_count_state_partition(states.drop_last());
    }
}

/// Recording one outcome for a source that is due to be polled keeps the
/// state well-formed and touches no other source.
pub proof fn lemma_apply_outcome_wf(v: SchedView, s: int, outcome: PollOutcome)
    requires
        wf_view(v),
        0 <= s < v.states.len(),
        v.states[s] is NeedsPoll,
    ensures
        wf_view(apply_outcome(v, s, outcome)),
        apply_outcome(v, s, outcome).states.len() == v.states.len(),
        apply_outcome(v, s, outcome).buffer.len() >= v.buffer.len(),
        forall|j: int|
            0 <= j < v.buffer.len() ==> apply_outcome(v, s, outcome).buffer[j] == v.buffer[j],
        v.finished < v.states.len(),
{
    lemma_count_state_bounds(v.states, SourceState::Finished);
    lemma_count_state_partition(v.states);
    lemma_count_state_present(v.states, SourceState::NeedsPoll, s);
    lemma_count_state_bounds(v.states, SourceState::Delivered);
    assert(v.finished < v.states.len());
    let v2 = apply_outcome(v, s, outcome);
    // No buffered line belongs to source `s`, since `s` is not `Delivered`.
    assert forall|j: int| 0 <= j < v.buffer.len() implies v.buffer[j].source_idx != s by {
        assert(v.states[v.buffer[j].source_idx as int] is Delivered);
    }
    match outcome {
        PollOutcome::Line(l) => {
            lemma_count_state_update(v.states, s, SourceState::Delivered, SourceState::Finished);
            lemma_count_state_update(v.states, s, SourceState::Delivered, SourceState::Delivered);
            assert forall|j: int|
                0 <= j < v2.buffer.len() implies ({
                    let entry = #[trigger] v2.buffer[j];
                    entry.source_idx < v2.states.len() && v2.states[entry.source_idx as int]
                        is Delivered
                }) by {
                if j < v.buffer.len() {
                    assert(v2.buffer[j] == v.buffer[j]);
                    assert(v.states[v.buffer[j].source_idx as int] is Delivered);
                } else {
                    assert(v2.buffer[j] == LogLine { source_idx: s as usize, line: l });
                    assert(s as usize as int == s);
                    assert(v2.states[s] is Delivered);
                }
            }
            assert forall|i: int|
                0 <= i < v2.states.len() && v2.states[i] is Delivered implies exists|j: int|
                0 <= j < v2.buffer.len() && v2.buffer[j].source_idx == i by {
                if i == s {
                    assert(v2.buffer[v.buffer.len() as int].source_idx == i);
                } else {
                    assert(v.states[i] is Delivered);
                    let j = choose|j: int|
                        0 <= j < v.buffer.len() && v.buffer[j].source_idx == i;
                    assert(v2.buffer[j].source_idx == i);
                }
            }
        },
        PollOutcome::Exhausted => {
            lemma_count_state_update(v.states, s, SourceState::Finished, SourceState::Finished);
            lemma_count_state_update(v.states, s, SourceState::Finished, SourceState::Delivered);
            assert forall|i: int|
                0 <= i < v2.states.len() && v2.states[i] is Delivered implies exists|j: int|
                0 <= j < v2.buffer.len() && v2.buffer[j].source_idx == i by {
                assert(v.states[i] is Delivered);
                let j = choose|j: int| 0 <= j < v.buffer.len() && v.buffer[j].source_idx == i;
                assert(v2.buffer[j].source_idx == i);
            }
        },
        PollOutcome::NotReady => {
        },
        PollOutcome::Failed => {
            assert(v2.states =~= v.states);
        },
    }
}

/// A whole polling pass keeps the state well-formed, keeps the source count,
/// and only appends to the buffer: every line already buffered stays, at its
/// position.
pub proof fn lemma_run_pass_props(v: SchedView, outcomes: Seq<PollOutcome>, s: int)
    requires
        wf_view(v),
    ensures
        wf_view(run_pass(v, outcomes, s)),
        run_pass(v, outcomes, s).states.len() == v.states.len(),
        run_pass(v, outcomes, s).buffer.len() >= v.buffer.len(),
        forall|j: int|
            0 <= j < v.buffer.len() ==> run_pass(v, outcomes, s).buffer[j] == v.buffer[j],
    decreases v.states.len() - s,
{
    if s < 0 || s >= v.states.len() || v.failed {
    } else if v.states[s] is NeedsPoll && outcomes.len() > 0 {
        lemma_apply_outcome_wf(v, s, outcomes.first());
        lemma_run_pass_props(apply_outcome(v, s, outcomes.first()), outcomes.drop_first(), s + 1);
    } else {
        lemma_run_pass_props(v, outcomes, s + 1);
    }
}

/// Releasing the front line of a completed round keeps the state well-formed;
/// in particular the buffer is non-empty, the line's source index is in
/// bounds, and that source was holding exactly this line.
pub proof fn lemma_release_props(v: SchedView)
    requires
        wf_view(v),
        !round_done(v),
        round_complete(v),
    ensures
        wf_view(release_view(v)),
        release_view(v).states.len() == v.states.len(),
        v.buffer.len() > 0,
        v.buffer[0].source_idx < v.states.len(),
        v.states[v.buffer[0].source_idx as int] is Delivered,
{
    lemma_count_state_bounds(v.states, SourceState::Finished);
    assert(v.buffer.len() > 0);
    let idx = v.buffer[0].source_idx as int;
    let v2 = release_view(v);
    lemma_count_state_update(v.states, idx, SourceState::NeedsPoll, SourceState::Finished);
    lemma_count_state_update(v.states, idx, SourceState::NeedsPoll, SourceState::Delivered);
    assert forall|j: int|
        0 <= j < v2.buffer.len() implies ({
            let entry = #[trigger] v2.buffer[j];
            entry.source_idx < v2.states.len() && v2.states[entry.source_idx as int] is Delivered
        }) by {
        assert(v2.buffer[j] == v.buffer[j + 1]);
        assert(v.states[v.buffer[j + 1].source_idx as int] is Delivered);
        assert(v.buffer[j + 1].source_idx != v.buffer[0].source_idx);
    }
    assert forall|j: int, k: int|
        0 <= j < k < v2.buffer.len() implies v2.buffer[j].source_idx != v2.buffer[k].source_idx by {
        assert(v2.buffer[j] == v.buffer[j + 1]);
        assert(v2.buffer[k] == v.buffer[k + 1]);
    }
    assert forall|i: int|
        0 <= i < v2.states.len() && v2.states[i] is Delivered implies exists|j: int|
        0 <= j < v2.buffer.len() && v2.buffer[j].source_idx == i by {
        assert(v.states[i] is Delivered);
        let j = choose|j: int| 0 <= j < v.buffer.len() && v.buffer[j].source_idx == i;
        assert(j != 0);
        assert(v2.buffer[j - 1].source_idx == i);
    }
}

/// One full `advance` step keeps the state well-formed and the source count.
pub proof fn lemma_step_wf(v: SchedView, outcomes: Seq<PollOutcome>)
    requires
        wf_view(v),
    ensures
        wf_view(step_state(v, outcomes)),
        step_state(v, outcomes).states.len() == v.states.len(),
{
    lemma_run_pass_props(v, outcomes, 0);
    let v1 = run_pass(v, outcomes, 0);
    if !v1.failed && !round_done(v1) && round_complete(v1) {
        lemma_release_props(v1);
    }
}

impl LogMerge {
    /// Well-formedness of this scheduler, established by `new` and preserved
    /// by every method.
    pub open spec fn wf(self) -> bool {
        wf_view(self@)
    }

    /// A scheduler over `num_sources` sources, all of which are still to be
    /// polled; nothing is buffered, nothing has finished or failed.
    pub fn new(num_sources: usize) -> (m: LogMerge)
        ensures
            m.wf(),
            m@.states.len() == num_sources,
            forall|i: int| 0 <= i < num_sources ==> m@.states[i] is NeedsPoll,
            m@.finished == 0,
            m@.buffer.len() == 0,
            !m@.failed,
    {
        let mut source_state: Vec<SourceState> = Vec::with_capacity(num_sources);
        for i in 0..num_sources
            invariant
                source_state@.len() == i,
                forall|j: int| 0 <= j < i ==> source_state@[j] is NeedsPoll,
        {
            source_state.push(SourceState::NeedsPoll);
        }
        proof {
            lemma_count_state_absent(source_state@, SourceState::Finished);
            lemma_count_state_absent(source_state@, SourceState::Delivered);
        }
        LogMerge { source_state, finished: 0, failed: false, buffer: Vec::new() }
    }

    /// The number of sources this scheduler was constructed over.
    pub fn num_sources(&self) -> (n: usize)
        ensures
            n == self@.states.len(),
    {
        self.source_state.len()
    }

    /// Whether the next polling pass expects an outcome for this source.
    pub fn needs_poll(&self, source_idx: usize) -> (b: bool)
        requires
            source_idx < self@.states.len(),
        ensures
            b == (self@.states[source_idx as int] is NeedsPoll),
    {
        match self.source_state[source_idx] {
            SourceState::NeedsPoll => true,
            _ => false,
        }
    }

    /// Whether a polled source has already reported a failure.
    pub fn has_failed(&self) -> (b: bool)
        ensures
            b == self@.failed,
    {
        self.failed
    }

    /// The derived round state, reusing the per-source enum: `Finished` when
    /// every source is exhausted, `Delivered` when every still-unfinished
    /// source has a buffered line (a completed round), `NeedsPoll` otherwise.
    fn state(&self) -> (s: SourceState)
        requires
            self.wf(),
        ensures
            (s is Finished) == round_done(self@),
            (s is Delivered) == (!round_done(self@) && round_complete(self@)),
            (s is NeedsPoll) == (!round_done(self@) && !round_complete(self@)),
    {
        proof {
            lemma_count_state_bounds(self@.states, SourceState::Finished);
        }
        let unfinished = self.source_state.len() - self.finished;
        if unfinished == 0 {
            SourceState::Finished
        } else if unfinished == self.buffer.len() {
            SourceState::Delivered
        } else {
            SourceState::NeedsPoll
        }
    }

    /// Remove and return the earliest buffered line.
    fn next_line(&mut self) -> (line: LogLine)
        requires
            old(self)@.buffer.len() > 0,
        ensures
            line == old(self)@.buffer[0],
            final(self)@ == (SchedView { buffer: old(self)@.buffer.drop_first(), ..old(self)@ }),
    {
        proof {
            assert(self@.buffer.remove(0) =~= self@.buffer.drop_first());
        }
        self.buffer.remove(0)
    }

    /// Append a freshly produced line at the back of the pending buffer.
    fn insert_into_buffer(&mut self, line: LogLine)
        ensures
            final(self)@ == (SchedView { buffer: old(self)@.buffer.push(line), ..old(self)@ }),
    {
        self.buffer.push(line);
    }

    /// Record the result of one non-blocking poll of `source_idx`: buffer a
    /// produced line, count an exhausted source, leave a not-ready source to
    /// be polled again, or enter the terminal failed state.
    pub fn poll_source(&mut self, source_idx: usize, outcome: PollOutcome) -> (r: Result<
        (),
        LogMergeError,
    >)
        requires
            old(self).wf(),
            !old(self)@.failed,
            source_idx < old(self)@.states.len(),
            old(self)@.states[source_idx as int] is NeedsPoll,
        ensures
            final(self).wf(),
            final(self)@ == apply_outcome(old(self)@, source_idx as int, outcome),
            (r is Err) == (outcome is Failed),
            r is Err ==> r->Err_0 is DefaultError,
    {
        proof {
            lemma_apply_outcome_wf(self@, source_idx as int, outcome);
        }
        match outcome {
            PollOutcome::Line(line) => {
                let log_line = LogLine { source_idx, line };
                self.insert_into_buffer(log_line);
                self.source_state[source_idx] = SourceState::Delivered;
                Ok(())
            },
            PollOutcome::Exhausted => {
                self.source_state[source_idx] = SourceState::Finished;
                self.finished = self.finished + 1;
                Ok(())
            },
            PollOutcome::NotReady => {
                self.source_state[source_idx] = SourceState::NeedsPoll;
                proof {
                    assert(self@.states =~= old(self)@.states);
                    assert(self@ =~= old(self)@);
                }
                Ok(())
            },
            PollOutcome::Failed => {
                self.failed = true;
                Err(LogMergeError::DefaultError)
            },
        }
    }

    /// The externally driven step. The caller polls, in ascending index
    /// order, each source for which `needs_poll` holds, and hands the
    /// outcomes over in that order (it may stop early after a failure, or
    /// when it cannot poll further sources; an unanswered source simply
    /// stays due for polling). The scheduler records the outcomes, then
    /// either reports the failure, reports end-of-sequence once every source
    /// is exhausted, releases the earliest-buffered line if every
    /// still-unfinished source has answered for this round, or reports that
    /// no line is ready yet.
    pub fn advance(&mut self, outcomes: Vec<PollOutcome>) -> (r: Result<MergeStep, LogMergeError>)
        requires
            old(self).wf(),
        ensures
            final(self).wf(),
            final(self)@ == step_state(old(self)@, outcomes@),
            result_view(r) == step_result(old(self)@, outcomes@),
            r is Err ==> r->Err_0 is DefaultError,
    {
        let ghost v0 = self@;
        let ghost ocs0 = outcomes@;
        let mut outcomes = outcomes;
        let mut s: usize = 0;
        while s < self.source_state.len() && !self.failed
            invariant
                self.wf(),
                s <= self@.states.len(),
                self@.states.len() == v0.states.len(),
                run_pass(v0, ocs0, 0) == run_pass(self@, outcomes@, s as int),
            decreases self@.states.len() - s,
        {
            let ghost ocs_pre = outcomes@;
            match self.source_state[s] {
                SourceState::NeedsPoll => {
                    if outcomes.len() > 0 {
                        let oc = outcomes.remove(0);
                        proof {
                            assert(ocs_pre.remove(0) =~= ocs_pre.drop_first());
                        }
                        let _ = self.poll_source(s, oc);
                    }
                },
                _ => {},
            }
            s = s + 1;
        }
        proof {
            assert(self@ == run_pass(v0, ocs0, 0));
            lemma_run_pass_props(v0, ocs0, 0);
        }
        if self.failed {
            return Err(LogMergeError::DefaultError);
        }
        match self.state() {
            SourceState::Delivered => {
                proof {
                    lemma_release_props(self@);
                }
                let log_line = self.next_line();
                self.source_state[log_line.source_idx] = SourceState::NeedsPoll;
                Ok(MergeStep::Line(log_line.line))
            },
            SourceState::Finished => Ok(MergeStep::Done),
            SourceState::NeedsPoll => Ok(MergeStep::NotReady),
        }
    }
}

/// Law: in every well-formed state the buffered-line count never exceeds the
/// number of unfinished sources; each unfinished source contributes at most
/// one buffered line before that line is released.
pub proof fn lemma_buffer_bounded(v: SchedView)
    requires
        wf_view(v),
    ensures
        v.buffer.len() <= unfinished(v),
{
    lemma_count_state_partition(v.states);
    lemma_count_state_bounds(v.states, SourceState::NeedsPoll);
}

/// How many sources from index `s` on are due to be polled.
pub open spec fn needs_poll_count_from(states: Seq<SourceState>, s: int) -> int
    decreases states.len() - s,
{
    if s < 0 || s >= states.len() {
        0
    } else {
        (if states[s] is NeedsPoll {
            1int
        } else {
            0int
        }) + needs_poll_count_from(states, s + 1)
    }
}

/// A point update below `s` does not change the count from `s` on.
proof fn lemma_needs_from_update(states: Seq<SourceState>, i: int, x: SourceState, s: int)
    requires
        0 <= i < states.len(),
        i < s,
    ensures
        needs_poll_count_from(states.update(i, x), s) == needs_poll_count_from(states, s),
    decreases states.len() - s,
{
    if 0 <= s < states.len() {
        lemma_needs_from_update(states, i, x, s + 1);
    }
}

/// A pass over a state with no source in `NeedsPoll` changes nothing.
proof fn lemma_run_pass_no_needs(v: SchedView, outcomes: Seq<PollOutcome>, s: int)
    requires
        forall|j: int| 0 <= j < v.states.len() ==> !((#[trigger] v.states[j]) is NeedsPoll),
    ensures
        run_pass(v, outcomes, s) == v,
    decreases v.states.len() - s,
{
    if 0 <= s < v.states.len() && !v.failed {
        lemma_run_pass_no_needs(v, outcomes, s + 1);
    }
}

/// The pass that consumes a failure outcome ends in the failed state.
proof fn lemma_pass_failure(v: SchedView, outcomes: Seq<PollOutcome>, s: int, j: int)
    requires
        !v.failed,
        0 <= s,
        0 <= j < outcomes.len(),
        j < needs_poll_count_from(v.states, s),
        outcomes[j] is Failed,
    ensures
        run_pass(v, outcomes, s).failed,
    decreases v.states.len() - s,
{
    assert(s < v.states.len());
    if v.states[s] is NeedsPoll {
        let v2 = apply_outcome(v, s, outcomes.first());
        assert(run_pass(v, outcomes, s) == run_pass(v2, outcomes.drop_first(), s + 1));
        if j == 0 {
            assert(v2.failed);
            assert(run_pass(v2, outcomes.drop_first(), s + 1) == v2);
        } else if v2.failed {
            assert(run_pass(v2, outcomes.drop_first(), s + 1) == v2);
        } else {
            match outcomes.first() {
                PollOutcome::Line(_) => {
                    lemma_needs_from_update(v.states, s, SourceState::Delivered, s + 1);
                },
                PollOutcome::Exhausted => {
                    lemma_needs_from_update(v.states, s, SourceState::Finished, s + 1);
                },
                PollOutcome::NotReady => {
                },
                PollOutcome::Failed => {
                },
            }
            assert(outcomes.drop_first()[j - 1] == outcomes[j]);
            lemma_pass_failure(v2, outcomes.drop_first(), s + 1, j - 1);
        }
    } else {
        assert(run_pass(v, outcomes, s) == run_pass(v, outcomes, s + 1));
        lemma_pass_failure(v, outcomes, s + 1, j);
    }
}

/// Law: a scheduler with no sources reports end-of-sequence at once, on the
/// first call and on every call, never "not ready".
pub proof fn lemma_no_sources_done(v: SchedView, outcomes: Seq<PollOutcome>)
    requires
        wf_view(v),
        !v.failed,
        v.states.len() == 0,
    ensures
        step_result(v, outcomes) is Done,
        step_state(v, outcomes) == v,
{
    assert(run_pass(v, outcomes, 0) == v);
    assert(count_state(v.states, SourceState::Finished) == 0);
}

/// Law: a single source passes through. From the ready state of a scheduler
/// over exactly one source (nothing buffered, nothing exhausted), a produced
/// line is released by that same call, unchanged, and the scheduler returns
/// to the ready state; exhaustion reports end-of-sequence; "not ready"
/// changes nothing. Repeated calls therefore reproduce the source's sequence
/// in order.
pub proof fn lemma_single_source_passthrough(v: SchedView, l: String)
    requires
        wf_view(v),
        !v.failed,
        v.states.len() == 1,
        v.states[0] is NeedsPoll,
    ensures
        step_result(v, seq![PollOutcome::Line(l)]) == StepView::Line(l@),
        step_state(v, seq![PollOutcome::Line(l)]) == v,
        step_result(v, seq![PollOutcome::Exhausted]) is Done,
        step_result(v, seq![PollOutcome::NotReady]) is NotReady,
        step_state(v, seq![PollOutcome::NotReady]) == v,
{
    lemma_count_state_absent(v.states, SourceState::Delivered);
    lemma_count_state_absent(v.states, SourceState::Finished);
    assert(v.buffer.len() == 0);
    let line_ocs = seq![PollOutcome::Line(l)];
    let v2 = apply_outcome(v, 0, line_ocs.first());
    assert(run_pass(v, line_ocs, 0) == run_pass(v2, line_ocs.drop_first(), 1));
    assert(run_pass(v2, line_ocs.drop_first(), 1) == v2);
    assert(round_complete(v2));
    assert(v2.buffer[0] == LogLine { source_idx: 0, line: l });
    assert(release_view(v2).states =~= v.states);
    assert(release_view(v2).buffer =~= v.buffer);
    assert(step_state(v, line_ocs) =~= v);

    let done_ocs = seq![PollOutcome::Exhausted];
    let v3 = apply_outcome(v, 0, done_ocs.first());
    assert(run_pass(v, done_ocs, 0) == run_pass(v3, done_ocs.drop_first(), 1));
    assert(run_pass(v3, done_ocs.drop_first(), 1) == v3);
    assert(round_done(v3));

    let wait_ocs = seq![PollOutcome::NotReady];
    assert(apply_outcome(v, 0, wait_ocs.first()) == v);
    assert(run_pass(v, wait_ocs, 0) == run_pass(v, wait_ocs.drop_first(), 1));
    assert(run_pass(v, wait_ocs.drop_first(), 1) == v);
    assert(!round_done(v) && !round_complete(v));
}

/// Law: an unanswered source blocks the round. If after the polling pass
/// some source still needs polling and no failure occurred, the call reports
/// "not ready", releases nothing, and every line buffered before the call
/// stays buffered, at its position.
pub proof fn lemma_unanswered_source_blocks_release(
    v: SchedView,
    outcomes: Seq<PollOutcome>,
    i: int,
)
    requires
        wf_view(v),
        0 <= i < v.states.len(),
        run_pass(v, outcomes, 0).states[i] is NeedsPoll,
        !run_pass(v, outcomes, 0).failed,
    ensures
        step_result(v, outcomes) is NotReady,
        step_state(v, outcomes) == run_pass(v, outcomes, 0),
        step_state(v, outcomes).buffer.len() >= v.buffer.len(),
        forall|j: int| 0 <= j < v.buffer.len() ==> step_state(v, outcomes).buffer[j] == v.buffer[j],
{
    lemma_run_pass_props(v, outcomes, 0);
    let v1 = run_pass(v, outcomes, 0);
    lemma_count_state_present(v1.states, SourceState::NeedsPoll, i);
    lemma_count_state_partition(v1.states);
    lemma_count_state_bounds(v1.states, SourceState::Finished);
    assert(!round_done(v1));
    assert(!round_complete(v1));
}

/// Law: failure surfaces from the same call. If one of the outcomes that the
/// polling pass consumes reports a failure, that same `advance` call reports
/// the failure.
pub proof fn lemma_failure_surfaces_same_call(v: SchedView, outcomes: Seq<PollOutcome>, j: int)
    requires
        !v.failed,
        0 <= j < outcomes.len(),
        j < needs_poll_count_from(v.states, 0),
        outcomes[j] is Failed,
    ensures
        step_result(v, outcomes) is Fail,
{
    lemma_pass_failure(v, outcomes, 0, j);
}

/// Law: failure is absorbing. Once the scheduler has recorded a failure,
/// every later call reports the failure again, changes nothing, and in
/// particular never produces another line.
pub proof fn lemma_failure_is_absorbing(v: SchedView, outcomes: Seq<PollOutcome>)
    requires
        v.failed,
    ensures
        step_state(v, outcomes) == v,
        step_result(v, outcomes) is Fail,
{
    assert(run_pass(v, outcomes, 0) == v);
}

/// Law: termination is idempotent. A call that reports end-of-sequence
/// leaves the scheduler in a state from which every later call, with any
/// outcomes, reports end-of-sequence again and changes nothing.
pub proof fn lemma_done_is_absorbing(v: SchedView, first: Seq<PollOutcome>, later: Seq<PollOutcome>)
    requires
        wf_view(v),
        step_result(v, first) is Done,
    ensures
        step_state(step_state(v, first), later) == step_state(v, first),
        step_result(step_state(v, first), later) is Done,
{
    lemma_run_pass_props(v, first, 0);
    let v1 = run_pass(v, first, 0);
    lemma_count_state_bounds(v1.states, SourceState::Finished);
    assert(count_state(v1.states, SourceState::Finished) == v1.states.len());
    lemma_count_state_full(v1.states, SourceState::Finished);
    lemma_run_pass_no_needs(v1, later, 0);
}

/// Law: round-robin fairness at each release. A call produces a line only
/// when the round is complete: at that moment every still-unfinished source
/// holds exactly one buffered line (its contribution to the round), the
/// released line is the earliest-buffered one, and its source alone returns
/// to `NeedsPoll`. No source can therefore have a second line released
/// before every other then-unfinished source has contributed one.
pub proof fn lemma_release_only_after_full_round(v: SchedView, outcomes: Seq<PollOutcome>)
    requires
        wf_view(v),
        step_result(v, outcomes) is Line,
    ensures
        ({
            let v1 = run_pass(v, outcomes, 0);
            &&& !v1.failed
            &&& !round_done(v1)
            &&& round_complete(v1)
            &&& v1.buffer.len() > 0
            &&& forall|i: int|
                0 <= i < v1.states.len() && !((#[trigger] v1.states[i]) is Finished)
                    ==> v1.states[i] is Delivered && (exists|j: int|
                    0 <= j < v1.buffer.len() && v1.buffer[j].source_idx == i)
            &&& step_result(v, outcomes) == StepView::Line(v1.buffer[0].line@)
            &&& step_state(v, outcomes) == release_view(v1)
        }),
{
    lemma_run_pass_props(v, outcomes, 0);
    let v1 = run_pass(v, outcomes, 0);
    lemma_count_state_partition(v1.states);
    lemma_count_state_bounds(v1.states, SourceState::Finished);
    assert forall|i: int|
        0 <= i < v1.states.len() && !((#[trigger] v1.states[i]) is Finished) implies v1.states[i]
        is Delivered && (exists|j: int|
        0 <= j < v1.buffer.len() && v1.buffer[j].source_idx == i) by {
        if v1.states[i] is NeedsPoll {
            lemma_count_state_present(v1.states, SourceState::NeedsPoll, i);
            assert(false);
        }
    }
}

/// How many of the released lines in `out` came from source `s`.
pub open spec fn count_from_source(out: Seq<LogLine>, s: int) -> int
    decreases out.len(),
{
    if out.len() == 0 {
        0
    } else {
        count_from_source(out.drop_last(), s) + if out.last().source_idx == s {
            1int
        } else {
            0int
        }
    }
}

/// Releasing one more line adds one to its source's count and nothing else.
proof fn lemma_count_from_source_push(out: Seq<LogLine>, e: LogLine, s: int)
    ensures
        count_from_source(out.push(e), s) == count_from_source(out, s) + (
        if e.source_idx == s {
            1int
        } else {
            0int
        }),
{
    assert(out.push(e).drop_last() =~= out);
}

/// The fairness invariant tying a scheduler state to the lines released so
/// far. Beyond well-formedness it says: no source is ever more than one
/// release ahead of a source that is not exhausted; the buffered lines are
/// ordered by their sources' release counts, oldest round first; a buffered
/// line's source has released no more than any source still awaiting its
/// poll; and all sources awaiting their poll are in the same round.
pub open spec fn fair_inv(v: SchedView, out: Seq<LogLine>) -> bool {
    &&& wf_view(v)
    &&& forall|s: int, t: int|
        #![trigger count_from_source(out, s), v.states[t]]
        0 <= s < v.states.len() && 0 <= t < v.states.len() && !(v.states[t] is Finished)
            ==> count_from_source(out, s) <= count_from_source(out, t) + 1
    &&& forall|j: int, k: int|
        0 <= j < k < v.buffer.len() ==> count_from_source(
            out,
            (#[trigger] v.buffer[j]).source_idx as int,
        ) <= count_from_source(out, (#[trigger] v.buffer[k]).source_idx as int)
    &&& forall|j: int, t: int|
        0 <= j < v.buffer.len() && 0 <= t < v.states.len() && (#[trigger] v.states[t])
            is NeedsPoll ==> count_from_source(out, (#[trigger] v.buffer[j]).source_idx as int)
            <= count_from_source(out, t)
    &&& forall|s: int, t: int|
        0 <= s < v.states.len() && 0 <= t < v.states.len() && (#[trigger] v.states[s]) is NeedsPoll
            && (#[trigger] v.states[t]) is NeedsPoll ==> count_from_source(out, s)
            == count_from_source(out, t)
}

/// Recording one outcome for a source awaiting its poll preserves the
/// fairness invariant; no line is released, so the counts do not move.
proof fn lemma_fair_inv_apply(v: SchedView, out: Seq<LogLine>, s: int, outcome: PollOutcome)
    requires
        fair_inv(v, out),
        0 <= s < v.states.len(),
        v.states[s] is NeedsPoll,
    ensures
        fair_inv(apply_outcome(v, s, outcome), out),
{
    lemma_apply_outcome_wf(v, s, outcome);
    let v2 = apply_outcome(v, s, outcome);
    match outcome {
        PollOutcome::Line(l) => {
            assert forall|j: int, k: int|
                #![trigger v2.buffer[j], v2.buffer[k]]
                0 <= j < k < v2.buffer.len() implies count_from_source(
                out,
                v2.buffer[j].source_idx as int,
            ) <= count_from_source(out, v2.buffer[k].source_idx as int) by {
                if k < v.buffer.len() {
                    assert(v2.buffer[j] == v.buffer[j]);
                    assert(v2.buffer[k] == v.buffer[k]);
                } else {
                    // The new entry belongs to `s`, which was awaiting its
                    // poll: every already-buffered source is at or below it.
                    assert(v2.buffer[j] == v.buffer[j]);
                    assert(v2.buffer[k].source_idx as int == s);
                }
            }
            assert forall|j: int, t: int|
                #![trigger v2.buffer[j], v2.states[t]]
                0 <= j < v2.buffer.len() && 0 <= t < v2.states.len() && v2.states[t]
                    is NeedsPoll implies count_from_source(out, v2.buffer[j].source_idx as int)
                <= count_from_source(out, t) by {
                assert(v.states[t] is NeedsPoll);
                if j < v.buffer.len() {
                    assert(v2.buffer[j] == v.buffer[j]);
                } else {
                    assert(v2.buffer[j].source_idx as int == s);
                    assert(count_from_source(out, s) == count_from_source(out, t));
                }
            }
        },
        PollOutcome::Exhausted => {
            assert forall|j: int, k: int|
                #![trigger v2.buffer[j], v2.buffer[k]]
                0 <= j < k < v2.buffer.len() implies count_from_source(
                out,
                v2.buffer[j].source_idx as int,
            ) <= count_from_source(out, v2.buffer[k].source_idx as int) by {
                assert(v2.buffer[j] == v.buffer[j]);
                assert(v2.buffer[k] == v.buffer[k]);
            }
        },
        PollOutcome::NotReady => {
        },
        PollOutcome::Failed => {
            assert(v2.states =~= v.states);
            assert(v2.buffer =~= v.buffer);
        },
    }
}

/// A whole polling pass preserves the fairness invariant.
proof fn lemma_fair_inv_pass(v: SchedView, out: Seq<LogLine>, outcomes: Seq<PollOutcome>, s: int)
    requires
        fair_inv(v, out),
    ensures
        fair_inv(run_pass(v, outcomes, s), out),
    decreases v.states.len() - s,
{
    if s < 0 || s >= v.states.len() || v.failed {
    } else if v.states[s] is NeedsPoll && outcomes.len() > 0 {
        lemma_fair_inv_apply(v, out, s, outcomes.first());
        lemma_fair_inv_pass(apply_outcome(v, s, outcomes.first()), out, outcomes.drop_first(), s + 1);
    } else {
        lemma_fair_inv_pass(v, out, outcomes, s + 1);
    }
}

/// Releasing the front line of a completed round preserves the fairness
/// invariant with that line appended to the output.
proof fn lemma_fair_inv_release(v: SchedView, out: Seq<LogLine>)
    requires
        fair_inv(v, out),
        !v.failed,
        !round_done(v),
        round_complete(v),
    ensures
        fair_inv(release_view(v), out.push(v.buffer[0])),
{
    lemma_release_props(v);
    lemma_count_state_partition(v.states);
    lemma_count_state_bounds(v.states, SourceState::Finished);
    let u = v.buffer[0].source_idx as int;
    let v2 = release_view(v);
    let out2 = out.push(v.buffer[0]);
    // A completed round has no source left awaiting its poll, and every
    // unfinished source holds a buffered line.
    assert forall|i: int|
        0 <= i < v.states.len() && !((#[trigger] v.states[i]) is Finished) implies v.states[i]
        is Delivered by {
        if v.states[i] is NeedsPoll {
            lemma_count_state_present(v.states, SourceState::NeedsPoll, i);
            assert(false);
        }
    }
    assert forall|s: int| #![trigger count_from_source(out2, s)] true implies count_from_source(
        out2,
        s,
    ) == count_from_source(out, s) + (
    if u == s {
        1int
    } else {
        0int
    }) by {
        lemma_count_from_source_push(out, v.buffer[0], s);
    }
    // The front line's source has released no more than any other source
    // still unfinished: that source also holds a buffered line, further back.
    assert forall|t: int|
        0 <= t < v.states.len() && t != u && !((#[trigger] v.states[t])
            is Finished) implies count_from_source(out, u) <= count_from_source(out, t) by {
        let k = choose|k: int| 0 <= k < v.buffer.len() && v.buffer[k].source_idx == t;
        assert(v.buffer[k].source_idx != v.buffer[0].source_idx);
        assert(k != 0);
        assert(count_from_source(out, v.buffer[0].source_idx as int) <= count_from_source(
            out,
            v.buffer[k].source_idx as int,
        ));
    }
    assert forall|s: int, t: int|
        #![trigger count_from_source(out2, s), v2.states[t]]
        0 <= s < v2.states.len() && 0 <= t < v2.states.len() && !(v2.states[t] is Finished)
            implies count_from_source(out2, s) <= count_from_source(out2, t) + 1 by {
        assert(!(v.states[t] is Finished));
    }
    assert forall|j: int, k: int|
        #![trigger v2.buffer[j], v2.buffer[k]]
        0 <= j < k < v2.buffer.len() implies count_from_source(
        out2,
        v2.buffer[j].source_idx as int,
    ) <= count_from_source(out2, v2.buffer[k].source_idx as int) by {
        assert(v2.buffer[j] == v.buffer[j + 1]);
        assert(v2.buffer[k] == v.buffer[k + 1]);
        assert(v.buffer[j + 1].source_idx != v.buffer[0].source_idx);
        assert(v.buffer[k + 1].source_idx != v.buffer[0].source_idx);
    }
    assert forall|j: int, t: int|
        #![trigger v2.buffer[j], v2.states[t]]
        0 <= j < v2.buffer.len() && 0 <= t < v2.states.len() && v2.states[t]
            is NeedsPoll implies count_from_source(out2, v2.buffer[j].source_idx as int)
        <= count_from_source(out2, t) by {
        // Only the released source is back to awaiting its poll.
        assert(t == u);
        assert(v2.buffer[j] == v.buffer[j + 1]);
        let x = v.buffer[j + 1].source_idx as int;
        assert(v.buffer[j + 1].source_idx != v.buffer[0].source_idx);
        assert(!(v.states[x] is Finished));
        assert(count_from_source(out, x) <= count_from_source(out, u) + 1);
    }
    assert forall|s: int, t: int|
        0 <= s < v2.states.len() && 0 <= t < v2.states.len() && (#[trigger] v2.states[s])
            is NeedsPoll && (#[trigger] v2.states[t]) is NeedsPoll implies count_from_source(
        out2,
        s,
    ) == count_from_source(out2, t) by {
        assert(s == u && t == u);
    }
}

/// The line, if any, that one `advance` call on `v` releases.
pub open spec fn step_output(v: SchedView, outcomes: Seq<PollOutcome>) -> Seq<LogLine> {
    if step_result(v, outcomes) is Line {
        seq![run_pass(v, outcomes, 0).buffer[0]]
    } else {
        Seq::empty()
    }
}

/// One full `advance` call preserves the fairness invariant, with the
/// released line, if any, appended to the output.
proof fn lemma_fair_inv_step(v: SchedView, out: Seq<LogLine>, outcomes: Seq<PollOutcome>)
    requires
        fair_inv(v, out),
    ensures
        fair_inv(step_state(v, outcomes), out + step_output(v, outcomes)),
{
    lemma_fair_inv_pass(v, out, outcomes, 0);
    let v1 = run_pass(v, outcomes, 0);
    if !v1.failed && !round_done(v1) && round_complete(v1) {
        lemma_fair_inv_release(v1, out);
        assert(out + step_output(v, outcomes) =~= out.push(v1.buffer[0]));
    } else {
        assert(out + step_output(v, outcomes) =~= out);
    }
}

/// The scheduler state after a whole run: the calls' outcome vectors are
/// applied in order.
pub open spec fn trace_end(v: SchedView, calls: Seq<Seq<PollOutcome>>) -> SchedView
    decreases calls.len(),
{
    if calls.len() == 0 {
        v
    } else {
        trace_end(step_state(v, calls.first()), calls.drop_first())
    }
}

/// Every line a whole run releases, in release order.
pub open spec fn trace_output(v: SchedView, calls: Seq<Seq<PollOutcome>>) -> Seq<LogLine>
    decreases calls.len(),
{
    if calls.len() == 0 {
        Seq::empty()
    } else {
        step_output(v, calls.first()) + trace_output(step_state(v, calls.first()), calls.drop_first())
    }
}

proof fn lemma_fair_inv_trace(v: SchedView, out: Seq<LogLine>, calls: Seq<Seq<PollOutcome>>)
    requires
        fair_inv(v, out),
    ensures
        fair_inv(trace_end(v, calls), out + trace_output(v, calls)),
    decreases calls.len(),
{
    if calls.len() == 0 {
        assert(out + trace_output(v, calls) =~= out);
    } else {
        lemma_fair_inv_step(v, out, calls.first());
        lemma_fair_inv_trace(
            step_state(v, calls.first()),
            out + step_output(v, calls.first()),
            calls.drop_first(),
        );
        assert((out + step_output(v, calls.first())) + trace_output(
            step_state(v, calls.first()),
            calls.drop_first(),
        ) =~= out + trace_output(v, calls));
    }
}

/// Law: round-robin fairness over whole runs. Starting from a fresh
/// scheduler, however the sources answer over any sequence of `advance`
/// calls, no source ever has more lines in the output than a source that is
/// still unfinished at the end of the run, by more than one: every
/// still-live peer must contribute its line for a round before any source
/// gets a second line into that round's output.
pub proof fn lemma_round_robin_fairness(
    v: SchedView,
    calls: Seq<Seq<PollOutcome>>,
    s: int,
    t: int,
)
    requires
        wf_view(v),
        !v.failed,
        v.buffer.len() == 0,
        forall|i: int| 0 <= i < v.states.len() ==> (#[trigger] v.states[i]) is NeedsPoll,
        0 <= s < v.states.len(),
        0 <= t < v.states.len(),
        !(trace_end(v, calls).states[t] is Finished),
    ensures
        count_from_source(trace_output(v, calls), s) <= count_from_source(trace_output(v, calls), t)
            + 1,
{
    assert forall|i: int| #![trigger count_from_source(Seq::<LogLine>::empty(), i)] true
        implies count_from_source(Seq::<LogLine>::empty(), i) == 0 by {};
    assert(fair_inv(v, Seq::<LogLine>::empty()));
    lemma_trace_end_len(v, calls);
    lemma_fair_inv_trace(v, Seq::<LogLine>::empty(), calls);
    let ve = trace_end(v, calls);
    let out = Seq::<LogLine>::empty() + trace_output(v, calls);
    assert(out =~= trace_output(v, calls));
    assert(!(ve.states[t] is Finished));
    assert(count_from_source(out, s) <= count_from_source(out, t) + 1);
}

/// The lines a lone source hands the scheduler over a whole run, in order:
/// one line whenever the scheduler polls it (it is due for polling, the call
/// brings an outcome, and that outcome is a line).
pub open spec fn single_source_yield(v: SchedView, calls: Seq<Seq<PollOutcome>>) -> Seq<LogLine>
    decreases calls.len(),
{
    if calls.len() == 0 {
        Seq::empty()
    } else {
        let c = calls.first();
        let rest = single_source_yield(step_state(v, c), calls.drop_first());
        if !v.failed && v.states.len() == 1 && v.states[0] is NeedsPoll && c.len() > 0 {
            match c.first() {
                PollOutcome::Line(l) => seq![LogLine { source_idx: 0, line: l }] + rest,
                _ => rest,
            }
        } else {
            rest
        }
    }
}

/// The states a lone-source scheduler can be in at a call boundary: ready to
/// poll its source with nothing buffered, finished, or failed.
spec fn single_source_boundary(v: SchedView) -> bool {
    &&& wf_view(v)
    &&& v.states.len() == 1
    &&& v.failed || (v.buffer.len() == 0 && (v.states[0] is NeedsPoll || v.states[0] is Finished))
}

proof fn lemma_single_trace(v: SchedView, calls: Seq<Seq<PollOutcome>>)
    requires
        single_source_boundary(v),
    ensures
        trace_output(v, calls) == single_source_yield(v, calls),
    decreases calls.len(),
{
    if calls.len() > 0 {
        let c = calls.first();
        let v1 = run_pass(v, c, 0);
        lemma_step_wf(v, c);
        if v.failed {
            lemma_failure_is_absorbing(v, c);
        } else if v.states[0] is Finished {
            lemma_count_state_present(v.states, SourceState::Finished, 0);
            lemma_count_state_bounds(v.states, SourceState::Finished);
            lemma_run_pass_no_needs(v, c, 0);
            assert(round_done(v1));
        } else {
            // The source is due for polling and nothing is buffered.
            lemma_count_state_absent(v.states, SourceState::Delivered);
            lemma_count_state_absent(v.states, SourceState::Finished);
            if c.len() == 0 {
                assert(v1 == run_pass(v, c, 1));
                assert(!round_done(v) && !round_complete(v));
            } else {
                let v2 = apply_outcome(v, 0, c.first());
                assert(run_pass(v, c, 0) == run_pass(v2, c.drop_first(), 1));
                assert(run_pass(v2, c.drop_first(), 1) == v2);
                match c.first() {
                    PollOutcome::Line(l) => {
                        assert(round_complete(v2) && !round_done(v2) && !v2.failed);
                        assert(v2.buffer[0] == LogLine { source_idx: 0, line: l });
                        assert(release_view(v2).states =~= v.states);
                        assert(release_view(v2).buffer =~= v.buffer);
                        assert(step_state(v, c) =~= v);
                        assert(step_output(v, c) =~= seq![LogLine { source_idx: 0, line: l }]);
                    },
                    PollOutcome::Exhausted => {
                        assert(round_done(v2));
                    },
                    PollOutcome::NotReady => {
                        assert(!round_done(v2) && !round_complete(v2));
                    },
                    PollOutcome::Failed => {
                        assert(v2.failed);
                    },
                }
            }
        }
        lemma_single_trace(step_state(v, c), calls.drop_first());
        assert(trace_output(v, calls) =~= single_source_yield(v, calls));
    } else {
        assert(trace_output(v, calls) =~= single_source_yield(v, calls));
    }
}

/// Law: a single source passes through over whole runs. Starting from a
/// fresh scheduler over exactly one source, however that source answers over
/// any sequence of `advance` calls, the merged output is exactly the
/// sequence of lines the source produced, unchanged and in order.
pub proof fn lemma_single_source_trace(v: SchedView, calls: Seq<Seq<PollOutcome>>)
    requires
        wf_view(v),
        !v.failed,
        v.buffer.len() == 0,
        v.states.len() == 1,
        v.states[0] is NeedsPoll,
    ensures
        trace_output(v, calls) == single_source_yield(v, calls),
{
    lemma_single_trace(v, calls);
}

/// A run never changes the number of source slots.
proof fn lemma_trace_end_len(v: SchedView, calls: Seq<Seq<PollOutcome>>)
    requires
        wf_view(v),
    ensures
        trace_end(v, calls).states.len() == v.states.len(),
        wf_view(trace_end(v, calls)),
    decreases calls.len(),
{
    if calls.len() > 0 {
        lemma_step_wf(v, calls.first());
        lemma_trace_end_len(step_state(v, calls.first()), calls.drop_first());
    }
}

} // verus!
