//! The decisions of the application's event loop: what to do on each event,
//! given what has been set up so far. Running the actions (windows, the GPU)
//! is the embedding program's part.
use vstd::prelude::*;

verus! {

/// What the event loop has set up so far.
#[derive(Clone, Copy, Debug, PartialEq, Eq, Structural)]
pub struct LoopState {
    pub has_window: bool,
    pub has_gpu_context: bool,
    pub has_user_app: bool,
    pub exit_requested: bool,
}

/// An event the loop is told about.
#[derive(Clone, Copy, Debug, PartialEq, Eq, Structural)]
pub enum LoopEvent {
    /// The application was resumed (and may now create its window).
    Resumed,
    /// The window was asked to close.
    CloseRequested,
    /// The window asked to be redrawn.
    RedrawRequested,
    /// Another window event.
    OtherWindowEvent,
    /// A device event.
    DeviceEvent,
    /// The loop is about to wait for new events.
    AboutToWait,
}

/// What to do in answer to an event.
#[derive(Clone, Copy, Debug, PartialEq, Eq, Structural)]
pub struct LoopActions {
    /// Create the window, the GPU context and the resources, and ask for a
    /// redraw.
    pub create_window: bool,
    /// Set up the user application with the resources.
    pub init_user_app: bool,
    /// Leave the event loop.
    pub exit: bool,
    /// Build and submit a frame.
    pub render_frame: bool,
    /// Ask the window for a redraw.
    pub request_redraw: bool,
}

impl LoopState {
    /// Nothing set up, no exit requested.
    pub fn new() -> (s: Self)
        ensures
            s == (LoopState { has_window: false, has_gpu_context: false, has_user_app: false, exit_requested: false }),
            is_consistent(s),
    {
        LoopState { has_window: false, has_gpu_context: false, has_user_app: false, exit_requested: false }
    }
}

/// The actions that answer `event` in state `state`.
pub open spec fn actions_for(state: LoopState, event: LoopEvent) -> LoopActions {
    let none = LoopActions { create_window: false, init_user_app: false, exit: false, render_frame: false, request_redraw: false };
    match event {
        LoopEvent::Resumed => LoopActions {
            create_window: !state.has_window,
            init_user_app: !state.has_user_app,
            ..none
        },
        LoopEvent::CloseRequested => LoopActions { exit: true, ..none },
        LoopEvent::RedrawRequested => LoopActions {
            render_frame: state.has_gpu_context && state.has_user_app,
            ..none
        },
        LoopEvent::AboutToWait => LoopActions {
            exit: state.exit_requested,
            request_redraw: state.has_window,
            ..none
        },
        LoopEvent::OtherWindowEvent => none,
        LoopEvent::DeviceEvent => none,
    }
}

/// The state once the actions that answer `event` have been carried out.
pub open spec fn next_state(state: LoopState, event: LoopEvent) -> LoopState {
    let actions = actions_for(state, event);
    LoopState {
        has_window: state.has_window || actions.create_window,
        has_gpu_context: state.has_gpu_context || actions.create_window,
        has_user_app: state.has_user_app || actions.init_user_app,
        exit_requested: state.exit_requested,
    }
}

/// What a running loop keeps true: the window and the GPU context exist
/// together, and the user application only once they do.
pub open spec fn is_consistent(state: LoopState) -> bool {
    &&& state.has_window == state.has_gpu_context
    &&& state.has_user_app ==> state.has_window
}

/// Decides what to do on `event`, and records what the actions set up.
pub fn on_event(state: &mut LoopState, event: LoopEvent) -> (actions: LoopActions)
    ensures
        actions == actions_for(*old(state), event),
        *final(state) == next_state(*old(state), event),
        actions.render_frame <==> (event == LoopEvent::RedrawRequested && old(state).has_gpu_context
            && old(state).has_user_app),
{
    let none = LoopActions { create_window: false, init_user_app: false, exit: false, render_frame: false, request_redraw: false };
    match event {
        LoopEvent::Resumed => {
            let actions = LoopActions {
                create_window: !state.has_window,
                init_user_app: !state.has_user_app,
                ..none
            };
            state.has_window = true;
            state.has_gpu_context = state.has_gpu_context || actions.create_window;
            state.has_user_app = true;
            actions
        },
        LoopEvent::CloseRequested => LoopActions { exit: true, ..none },
        LoopEvent::RedrawRequested => LoopActions {
            render_frame: state.has_gpu_context && state.has_user_app,
            ..none
        },
        LoopEvent::AboutToWait => LoopActions {
            exit: state.exit_requested,
            request_redraw: state.has_window,
            ..none
        },
        LoopEvent::OtherWindowEvent => none,
        LoopEvent::DeviceEvent => none,
    }
}

/// The size the window's surface is configured with: the window's inner
/// size, each side raised to at least 1.
pub fn surface_size(width: u32, height: u32) -> (size: (u32, u32))
    ensures
        size.0 == (if width == 0 {
            1
        } else {
            width
        }),
        size.1 == (if height == 0 {
            1
        } else {
            height
        }),
{
    let w = if width == 0 {
        1
    } else {
        width
    };
    let h = if height == 0 {
        1
    } else {
        height
    };
    (w, h)
}

/// A frame is rendered only on a redraw, and then exactly when the GPU
/// context and the user application are both set up.
pub proof fn lemma_renders_only_when_ready(state: LoopState, event: LoopEvent)
    ensures
        actions_for(state, event).render_frame <==> (event == LoopEvent::RedrawRequested && state.has_gpu_context
            && state.has_user_app),
{
}

/// Every event keeps the loop consistent.
pub proof fn lemma_events_keep_consistency(state: LoopState, event: LoopEvent)
    requires
        is_consistent(state),
    ensures
        is_consistent(next_state(state, event)),
{
}

/// Once the loop has been resumed, it renders a frame on every redraw.
pub proof fn lemma_resumed_loop_renders(state: LoopState)
    requires
        is_consistent(state),
    ensures
        next_state(state, LoopEvent::Resumed).has_user_app,
        actions_for(next_state(state, LoopEvent::Resumed), LoopEvent::RedrawRequested).render_frame,
{
}

} // verus!
