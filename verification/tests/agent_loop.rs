use fixtrace::agent::control::{agent_step, AgentAction, AgentEvent, AgentLoopState, AgentStopReason};

fn start() -> AgentEvent {
    AgentEvent::StepStart { cancelled: false, approx_tokens: 10 }
}

fn answer(budget_exceeded: bool, n_tool_calls: usize, has_content: bool) -> AgentEvent {
    AgentEvent::Response { budget_exceeded, n_tool_calls, has_content }
}

#[test]
fn tool_calls_run_in_order_then_the_text_finishes() {
    let state = AgentLoopState::new(12, 100);
    let (state, action) = agent_step(state, start());
    assert_eq!(action, AgentAction::CallModel);
    let (state, action) = agent_step(state, answer(false, 2, false));
    assert_eq!(action, AgentAction::ExecuteTool(0));
    let (state, action) = agent_step(state, AgentEvent::ToolResult { failed: false });
    assert_eq!(action, AgentAction::ExecuteTool(1));
    let (state, action) = agent_step(state, AgentEvent::ToolResult { failed: true });
    assert_eq!(action, AgentAction::StartStep);
    let (state, action) = agent_step(state, start());
    assert_eq!(action, AgentAction::CallModel);
    assert_eq!(state.step_count(), 2);
    let (_, action) = agent_step(state, answer(false, 0, true));
    assert_eq!(action, AgentAction::FinishWithContent(2));
}

#[test]
fn budget_stops_before_any_tool_runs() {
    let (state, _) = agent_step(AgentLoopState::new(12, 100), start());
    let (_, action) = agent_step(state, answer(true, 3, true));
    assert_eq!(action, AgentAction::Stop(AgentStopReason::Budget, 1));
}

#[test]
fn three_failed_tools_in_a_row_stop_the_analysis() {
    let (state, _) = agent_step(AgentLoopState::new(12, 100), start());
    let (state, _) = agent_step(state, answer(false, 5, false));
    let (state, _) = agent_step(state, AgentEvent::ToolResult { failed: true });
    let (state, _) = agent_step(state, AgentEvent::ToolResult { failed: true });
    let (_, action) = agent_step(state, AgentEvent::ToolResult { failed: true });
    assert_eq!(action, AgentAction::Stop(AgentStopReason::ToolFailureLimit, 1));
}

#[test]
fn limits_cancellation_and_empty_answers() {
    let (_, action) = agent_step(AgentLoopState::new(0, 100), start());
    assert_eq!(action, AgentAction::Stop(AgentStopReason::MaxSteps, 0));
    let (state, _) = agent_step(AgentLoopState::new(1, 100), start());
    let (state, _) = agent_step(state, answer(false, 1, false));
    let (state, action) = agent_step(state, AgentEvent::ToolResult { failed: false });
    assert_eq!(action, AgentAction::StartStep);
    let (_, action) = agent_step(state, start());
    assert_eq!(action, AgentAction::Stop(AgentStopReason::MaxSteps, 1));
    let (_, action) =
        agent_step(AgentLoopState::new(5, 100), AgentEvent::StepStart { cancelled: true, approx_tokens: 0 });
    assert_eq!(action, AgentAction::Stop(AgentStopReason::Cancelled, 0));
    let (_, action) =
        agent_step(AgentLoopState::new(5, 100), AgentEvent::StepStart { cancelled: false, approx_tokens: 101 });
    assert_eq!(action, AgentAction::Stop(AgentStopReason::ContextLimit, 0));
    let (state, _) = agent_step(AgentLoopState::new(5, 100), start());
    let (_, action) = agent_step(state, AgentEvent::CallCancelled);
    assert_eq!(action, AgentAction::Stop(AgentStopReason::Cancelled, 1));
    let (state, _) = agent_step(AgentLoopState::new(5, 100), start());
    let (_, action) = agent_step(state, answer(false, 0, false));
    assert_eq!(action, AgentAction::EmptyResponse);
}
