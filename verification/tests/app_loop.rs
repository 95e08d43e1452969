use render_graph::app_loop::{on_event, surface_size, LoopActions, LoopEvent, LoopState};

const NONE: LoopActions =
    LoopActions { create_window: false, init_user_app: false, exit: false, render_frame: false, request_redraw: false };

#[test]
fn first_resume_creates_the_window_and_the_user_app_once() {
    let mut s = LoopState::new();
    assert_eq!(on_event(&mut s, LoopEvent::Resumed), LoopActions { create_window: true, init_user_app: true, ..NONE });
    assert!(s.has_window && s.has_gpu_context && s.has_user_app);
    assert_eq!(on_event(&mut s, LoopEvent::Resumed), NONE);
}

#[test]
fn resume_with_a_window_sets_up_a_missing_user_app() {
    let mut s = LoopState::new();
    s.has_window = true;
    s.has_gpu_context = true;
    assert_eq!(on_event(&mut s, LoopEvent::Resumed), LoopActions { init_user_app: true, ..NONE });
    assert!(s.has_user_app);
}

#[test]
fn close_exits_and_idle_requests_redraw() {
    let mut s = LoopState::new();
    assert_eq!(on_event(&mut s, LoopEvent::AboutToWait), NONE);
    on_event(&mut s, LoopEvent::Resumed);
    assert_eq!(on_event(&mut s, LoopEvent::AboutToWait), LoopActions { request_redraw: true, ..NONE });
    assert_eq!(on_event(&mut s, LoopEvent::CloseRequested), LoopActions { exit: true, ..NONE });
    s.exit_requested = true;
    assert_eq!(on_event(&mut s, LoopEvent::AboutToWait), LoopActions { exit: true, request_redraw: true, ..NONE });
}

#[test]
fn redraw_renders_once_resumed() {
    let mut s = LoopState::new();
    assert_eq!(on_event(&mut s, LoopEvent::RedrawRequested), NONE);
    on_event(&mut s, LoopEvent::Resumed);
    assert_eq!(on_event(&mut s, LoopEvent::RedrawRequested), LoopActions { render_frame: true, ..NONE });
    assert_eq!(on_event(&mut s, LoopEvent::DeviceEvent), NONE);
    assert_eq!(on_event(&mut s, LoopEvent::OtherWindowEvent), NONE);
}

#[test]
fn surface_size_is_at_least_one_pixel_each_way() {
    assert_eq!(surface_size(800, 600), (800, 600));
    assert_eq!(surface_size(0, 600), (1, 600));
    assert_eq!(surface_size(800, 0), (800, 1));
    assert_eq!(surface_size(0, 0), (1, 1));
}
