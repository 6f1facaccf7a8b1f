use vstd::prelude::*;

verus! {

/// Why an analysis by the model ended.
#[derive(Clone, Copy, Debug, PartialEq, Eq, Structural)]
pub enum AgentStopReason {
    Completed,
    MaxSteps,
    Cancelled,
    Budget,
    ContextLimit,
    ToolFailureLimit,
}

/// How many consecutive failed tool calls end an analysis.
pub const TOOL_FAILURE_LIMIT: usize = 3;

/// A rough token count for a request of `byte_len` bytes: a quarter, rounded up.
pub fn approximate_tokens(byte_len: usize) -> (res: u64)
    ensures
        res == (byte_len as int + 3) / 4,
{
    let q = byte_len / 4;
    let r = byte_len % 4;
    let tokens = if r == 0 { q } else { q + 1 };
    assert(tokens == (byte_len as int + 3) / 4) by (nonlinear_arith)
        requires
            q == byte_len as int / 4,
            r == byte_len as int % 4,
            tokens == (if r == 0 { q as int } else { q + 1 }),
    ;
    tokens as u64
}

/// Whether an analysis stops before step `step` (counted from 1), and with how many steps
/// taken: it stops when cancelled, or when the conversation so far (`approx_tokens`) exceeds
/// the model's context length.
pub fn step_gate(step: usize, cancelled: bool, approx_tokens: u64, context_length: u64) -> (res: Option<(AgentStopReason, usize)>)
    ensures
        res == (if cancelled {
            Some((AgentStopReason::Cancelled, (if step > 0 { step - 1 } else { 0 }) as usize))
        } else if approx_tokens > context_length {
            Some((AgentStopReason::ContextLimit, (if step > 0 { step - 1 } else { 0 }) as usize))
        } else {
            None
        }),
{
    let taken = step.saturating_sub(1);
    if cancelled {
        Some((AgentStopReason::Cancelled, taken))
    } else if approx_tokens > context_length {
        Some((AgentStopReason::ContextLimit, taken))
    } else {
        None
    }
}

/// The count of consecutive failed tool calls after one more call: one more when it failed
/// (saturating), none when it succeeded.
pub fn next_tool_failures(count: usize, failed: bool) -> (res: usize)
    ensures
        res == (if failed { if count == usize::MAX { count as int } else { count + 1 } } else { 0 }),
{
    if failed {
        count.saturating_add(1)
    } else {
        0
    }
}

/// Whether that many consecutive failed tool calls end the analysis.
pub fn tool_failures_exhausted(count: usize) -> (res: bool)
    ensures
        res == (count >= TOOL_FAILURE_LIMIT),
{
    count >= TOOL_FAILURE_LIMIT
}

/// Consecutive failures at the end of `h` (each entry: whether a tool call failed).
pub open spec fn trailing_failures(h: Seq<bool>) -> nat
    decreases h.len(),
{
    if h.len() == 0 {
        0
    } else if h.last() {
        1 + trailing_failures(h.drop_last())
    } else {
        0
    }
}

/// With at least `n` consecutive failures at the end, the last `n` tool calls all failed.
pub proof fn lemma_trailing_failures(h: Seq<bool>, n: nat)
    requires
        trailing_failures(h) >= n,
    ensures
        h.len() >= n,
        forall|i: int| h.len() - n <= i < h.len() ==> #[trigger] h[i],
    decreases n,
{
    if n > 0 {
        lemma_trailing_failures(h.drop_last(), (n - 1) as nat);
        assert forall|i: int| h.len() - n <= i < h.len() implies #[trigger] h[i] by {
            if i < h.len() - 1 {
                assert(h.drop_last()[i] == h[i]);
            }
        }
    }
}

/// Where the agent's loop stands.
#[derive(Clone, Copy, Debug, PartialEq, Eq, Structural)]
pub enum AgentPhase {
    /// A step is about to start.
    BeforeStep,
    /// The model was asked and its answer is awaited.
    AwaitingResponse,
    /// The answer's tool calls run; `next` of `total` is the one awaited.
    RunningTools { next: usize, total: usize },
    /// The analysis ended.
    Stopped,
}

/// What the loop is told.
#[derive(Clone, Copy, Debug, PartialEq, Eq, Structural)]
pub enum AgentEvent {
    /// A step may start: whether the analysis was cancelled, and the conversation's size.
    StepStart { cancelled: bool, approx_tokens: u64 },
    /// The model answered: whether the budget is now exceeded, how many tool calls the
    /// answer asks for, and whether it holds text.
    Response { budget_exceeded: bool, n_tool_calls: usize, has_content: bool },
    /// The model call was interrupted by a cancellation.
    CallCancelled,
    /// The awaited tool call ended: whether it failed.
    ToolResult { failed: bool },
}

/// What the loop does next.
#[derive(Clone, Copy, Debug, PartialEq, Eq, Structural)]
pub enum AgentAction {
    /// Ask the model.
    CallModel,
    /// Run the tool call with this index in the model's answer.
    ExecuteTool(usize),
    /// Gather what a new step needs and report `StepStart`.
    StartStep,
    /// End with this reason after this many steps.
    Stop(AgentStopReason, usize),
    /// The model's text is the final diagnosis, after this many steps.
    FinishWithContent(usize),
    /// The model answered with neither tool calls nor text.
    EmptyResponse,
}

/// The state of an analysis by the model: its limits, the steps started, the consecutive
/// failed tool calls, and where it stands.
pub struct AgentLoopState {
    max_steps: usize,
    context_length: u64,
    step: usize,
    tool_failures: usize,
    phase: AgentPhase,
    /// Whether each tool call so far failed.
    tool_history: Ghost<Seq<bool>>,
}

impl AgentLoopState {
    pub closed spec fn max_steps(&self) -> nat {
        self.max_steps as nat
    }

    pub closed spec fn context_length(&self) -> nat {
        self.context_length as nat
    }

    /// The steps started so far.
    pub closed spec fn steps(&self) -> nat {
        self.step as nat
    }

    pub closed spec fn phase(&self) -> AgentPhase {
        self.phase
    }

    /// Whether each tool call so far failed, oldest first.
    pub closed spec fn tool_history(&self) -> Seq<bool> {
        self.tool_history@
    }

    /// The state's invariant: never more steps than allowed, the failure count is the
    /// number of failures at the end of the history, and it is below the limit while the
    /// analysis goes on.
    pub closed spec fn wf(&self) -> bool {
        &&& self.step <= self.max_steps
        &&& self.tool_failures as nat == trailing_failures(self.tool_history@)
        &&& !(self.phase is Stopped) ==> self.tool_failures < TOOL_FAILURE_LIMIT
        &&& self.phase matches AgentPhase::RunningTools { next, total } ==> next < total
        &&& !(self.phase is BeforeStep) && !(self.phase is Stopped) ==> self.step >= 1
    }

    /// Whether `event` is what the loop waits for.
    pub open spec fn expects(&self, event: AgentEvent) -> bool {
        match self.phase() {
            AgentPhase::BeforeStep => event is StepStart,
            AgentPhase::AwaitingResponse => event is Response || event is CallCancelled,
            AgentPhase::RunningTools { .. } => event is ToolResult,
            AgentPhase::Stopped => false,
        }
    }

    /// The steps started so far.
    pub fn step_count(&self) -> (res: usize)
        ensures
            res == self.steps(),
    {
        self.step
    }

    /// A new analysis with at most `max_steps` steps and a context of `context_length`
    /// tokens.
    pub fn new(max_steps: usize, context_length: u64) -> (res: Self)
        ensures
            res.wf(),
            res.max_steps() == max_steps,
            res.context_length() == context_length,
            res.steps() == 0,
            res.phase() == AgentPhase::BeforeStep,
            res.tool_history() == Seq::<bool>::empty(),
    {
        AgentLoopState {
            max_steps,
            context_length,
            step: 0,
            tool_failures: 0,
            phase: AgentPhase::BeforeStep,
            tool_history: Ghost(Seq::empty()),
        }
    }
}

/// One decision of the agent's loop: the state after `event`, and what to do next.
/// - A step starts only below the step limit (else `MaxSteps` after all of them), and not
///   when cancelled or when the conversation exceeds the context length.
/// - An answer over the budget stops the analysis before any of its tool calls runs; an
///   answer with tool calls runs them in order; an answer with text only finishes it.
/// - After each tool call, the consecutive failures are counted; the limit stops the
///   analysis; after the last call, the next step starts.
pub fn agent_step(state: AgentLoopState, event: AgentEvent) -> (res: (AgentLoopState, AgentAction))
    requires
        state.wf(),
        state.expects(event),
    ensures
        res.0.wf(),
        res.0.max_steps() == state.max_steps(),
        res.0.context_length() == state.context_length(),
        res.0.steps() <= res.0.max_steps(),
        res.1 is Stop ==> res.0.phase() is Stopped,
        res.1 matches AgentAction::Stop(reason, n) ==> n == res.0.steps(),
        match event {
            AgentEvent::StepStart { cancelled, approx_tokens } => if state.steps() == state.max_steps() {
                &&& res.1 == AgentAction::Stop(AgentStopReason::MaxSteps, state.max_steps() as usize)
                &&& res.0.steps() == state.max_steps()
            } else if cancelled {
                res.1 == AgentAction::Stop(AgentStopReason::Cancelled, state.steps() as usize)
            } else if approx_tokens > state.context_length() {
                res.1 == AgentAction::Stop(AgentStopReason::ContextLimit, state.steps() as usize)
            } else {
                &&& res.1 == AgentAction::CallModel
                &&& res.0.steps() == state.steps() + 1
                &&& res.0.phase() == AgentPhase::AwaitingResponse
                &&& res.0.tool_history() == state.tool_history()
            },
            AgentEvent::CallCancelled => res.1 == AgentAction::Stop(AgentStopReason::Cancelled, state.steps() as usize),
            AgentEvent::Response { budget_exceeded, n_tool_calls, has_content } => {
                &&& res.0.steps() == state.steps()
                &&& res.0.tool_history() == state.tool_history()
                &&& if budget_exceeded {
                    res.1 == AgentAction::Stop(AgentStopReason::Budget, state.steps() as usize)
                } else if n_tool_calls > 0 {
                    res.1 == AgentAction::ExecuteTool(0) && res.0.phase() == (AgentPhase::RunningTools {
                        next: 0,
                        total: n_tool_calls,
                    })
                } else if has_content {
                    res.1 == AgentAction::FinishWithContent(state.steps() as usize) && res.0.phase() is Stopped
                } else {
                    res.1 == AgentAction::EmptyResponse && res.0.phase() is Stopped
                }
            },
            AgentEvent::ToolResult { failed } => {
                &&& res.0.steps() == state.steps()
                &&& res.0.tool_history() == state.tool_history().push(failed)
                &&& state.phase() matches AgentPhase::RunningTools { next, total } && if trailing_failures(
                    res.0.tool_history(),
                ) >= TOOL_FAILURE_LIMIT {
                    res.1 == AgentAction::Stop(AgentStopReason::ToolFailureLimit, state.steps() as usize)
                } else if next + 1 < total {
                    res.1 == AgentAction::ExecuteTool((next + 1) as usize) && res.0.phase() == (
                    AgentPhase::RunningTools { next: (next + 1) as usize, total })
                } else {
                    res.1 == AgentAction::StartStep && res.0.phase() == AgentPhase::BeforeStep
                }
            },
        },
        res.1 == AgentAction::Stop(AgentStopReason::ToolFailureLimit, res.0.steps() as usize) ==> {
            &&& res.0.tool_history().len() >= TOOL_FAILURE_LIMIT
            &&& forall|i: int| res.0.tool_history().len() - TOOL_FAILURE_LIMIT <= i < res.0.tool_history().len()
                ==> #[trigger] res.0.tool_history()[i]
        },
{
    let mut st = state;
    match event {
        AgentEvent::StepStart { cancelled, approx_tokens } => {
            if st.step == st.max_steps {
                st.phase = AgentPhase::Stopped;
                let n = st.max_steps;
                return (st, AgentAction::Stop(AgentStopReason::MaxSteps, n));
            }
            match step_gate(st.step + 1, cancelled, approx_tokens, st.context_length) {
                Some((reason, n)) => {
                    st.phase = AgentPhase::Stopped;
                    (st, AgentAction::Stop(reason, n))
                },
                None => {
                    st.step = st.step + 1;
                    st.phase = AgentPhase::AwaitingResponse;
                    (st, AgentAction::CallModel)
                },
            }
        },
        AgentEvent::CallCancelled => {
            st.phase = AgentPhase::Stopped;
            let n = st.step;
            (st, AgentAction::Stop(AgentStopReason::Cancelled, n))
        },
        AgentEvent::Response { budget_exceeded, n_tool_calls, has_content } => {
            if budget_exceeded {
                st.phase = AgentPhase::Stopped;
                let n = st.step;
                (st, AgentAction::Stop(AgentStopReason::Budget, n))
            } else if n_tool_calls > 0 {
                st.phase = AgentPhase::RunningTools { next: 0, total: n_tool_calls };
                (st, AgentAction::ExecuteTool(0))
            } else if has_content {
                st.phase = AgentPhase::Stopped;
                let n = st.step;
                (st, AgentAction::FinishWithContent(n))
            } else {
                st.phase = AgentPhase::Stopped;
                (st, AgentAction::EmptyResponse)
            }
        },
        AgentEvent::ToolResult { failed } => {
            let (next, total) = match st.phase {
                AgentPhase::RunningTools { next, total } => (next, total),
                _ => {
                    assert(false);
                    (0, 0)
                },
            };
            st.tool_failures = next_tool_failures(st.tool_failures, failed);
            st.tool_history = Ghost(st.tool_history@.push(failed));
            proof {
                assert(st.tool_history@.drop_last() =~= state.tool_history@);
            }
            if tool_failures_exhausted(st.tool_failures) {
                st.phase = AgentPhase::Stopped;
                proof {
                    lemma_trailing_failures(st.tool_history@, TOOL_FAILURE_LIMIT as nat);
                }
                let n = st.step;
                (st, AgentAction::Stop(AgentStopReason::ToolFailureLimit, n))
            } else if next + 1 < total {
                st.phase = AgentPhase::RunningTools { next: next + 1, total };
                (st, AgentAction::ExecuteTool(next + 1))
            } else {
                st.phase = AgentPhase::BeforeStep;
                (st, AgentAction::StartStep)
            }
        },
    }
}

} // verus!
