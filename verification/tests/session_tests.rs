use render_core::session::{
    classify_text, exit_result, expected_frames, frame_byte_len, Action, Event, Session,
    SessionState, TextMsg, WaitError,
};

fn streaming_session(frame_size: usize, interval: u64) -> Session {
    let mut s = Session::new(frame_size, Some(10), interval);
    s.start_listening();
    let a = s.on_event(Event::Connected);
    assert_eq!(a, Action::Ignore);
    assert_eq!(s.state, SessionState::Streaming);
    s
}

#[test]
fn frames_then_finish_reach_closed_in_order() {
    let mut s = streaming_session(12, 1);
    for k in 1..=3u64 {
        let a = s.on_event(Event::Frame(12));
        assert_eq!(a, Action::Forward { report: true });
        assert_eq!(s.frames_received, k);
        assert_eq!(s.state, SessionState::Streaming);
    }
    let a = s.on_event(Event::Text(classify_text("finish")));
    assert_eq!(a, Action::FinishUp);
    assert_eq!(s.state, SessionState::Finishing);
    let a = s.on_event(Event::Exited);
    assert_eq!(a, Action::Ignore);
    assert_eq!(s.state, SessionState::Closed);
    assert_eq!(s.frames_received, 3);
}

#[test]
fn pause_reports_the_count_and_changes_nothing() {
    let mut s = streaming_session(4, 1);
    s.on_event(Event::Frame(4));
    s.on_event(Event::Frame(4));
    let a = s.on_event(Event::Text(classify_text("pause")));
    assert_eq!(a, Action::ReplyCount(2));
    assert_eq!(s.pause_reply(), "2");
    assert_eq!(s.frames_received, 2);
    assert_eq!(s.state, SessionState::Streaming);
    // A pause is repeatable and still does not count as a frame.
    let a = s.on_event(Event::Text(TextMsg::Pause));
    assert_eq!(a, Action::ReplyCount(2));
}

#[test]
fn silence_closes_the_session_without_finish() {
    let mut s = streaming_session(4, 1);
    s.on_event(Event::Frame(4));
    let a = s.on_event(Event::Timeout);
    assert_eq!(a, Action::CloseOnTimeout);
    assert_eq!(s.state, SessionState::Finishing);
    let _ = s.on_event(Event::Exited);
    assert_eq!(s.state, SessionState::Closed);
    assert_eq!(s.frames_received, 1);
}

#[test]
fn mismatched_frame_is_rejected_not_forwarded() {
    let mut s = streaming_session(12, 1);
    let a = s.on_event(Event::Frame(11));
    assert_eq!(a, Action::RejectFrame);
    assert_eq!(s.frames_received, 0);
    let a = s.on_event(Event::Frame(12));
    assert_eq!(a, Action::Forward { report: true });
    assert_eq!(s.frames_received, 1);
}

#[test]
fn report_cadence_follows_the_interval() {
    let mut s = streaming_session(4, 2);
    let a1 = s.on_event(Event::Frame(4));
    assert_eq!(a1, Action::Forward { report: false });
    let a2 = s.on_event(Event::Frame(4));
    assert_eq!(a2, Action::Forward { report: true });
    let a3 = s.on_event(Event::Frame(4));
    assert_eq!(a3, Action::Forward { report: false });
    let a4 = s.on_event(Event::Frame(4));
    assert_eq!(a4, Action::Forward { report: true });
}

#[test]
fn zero_report_interval_is_normalized_to_every_frame() {
    let s = Session::new(4, None, 0);
    assert_eq!(s.report_interval, 1);
}

#[test]
fn events_outside_streaming_are_ignored() {
    let mut s = Session::new(4, None, 1);
    assert_eq!(s.on_event(Event::Frame(4)), Action::Ignore);
    assert_eq!(s.frames_received, 0);
    s.start_listening();
    assert_eq!(s.on_event(Event::Text(TextMsg::Finish)), Action::Ignore);
    assert_eq!(s.state, SessionState::Listening);
    let _ = s.on_event(Event::Connected);
    // A second connection attempt is accepted but changes nothing.
    assert_eq!(s.on_event(Event::Connected), Action::Ignore);
    assert_eq!(s.state, SessionState::Streaming);
}

#[test]
fn closed_session_stays_closed() {
    let mut s = streaming_session(4, 1);
    s.on_event(Event::Text(TextMsg::Finish));
    s.on_event(Event::Exited);
    assert_eq!(s.state, SessionState::Closed);
    assert_eq!(s.on_event(Event::Frame(4)), Action::Ignore);
    assert_eq!(s.on_event(Event::Text(TextMsg::Finish)), Action::Ignore);
    assert_eq!(s.state, SessionState::Closed);
    assert_eq!(s.frames_received, 0);
}

#[test]
fn text_classification_matches_the_protocol() {
    assert_eq!(classify_text("finish"), TextMsg::Finish);
    assert_eq!(classify_text("pause"), TextMsg::Pause);
    assert_eq!(classify_text(""), TextMsg::Other);
    assert_eq!(classify_text("Finish"), TextMsg::Other);
    assert_eq!(classify_text("finish "), TextMsg::Other);
    assert_eq!(classify_text("resume"), TextMsg::Other);
}

#[test]
fn exit_results_distinguish_failure_kinds() {
    assert!(exit_result(Some(0)).is_ok());
    match exit_result(Some(1)) {
        Err(WaitError::NonZeroExit(c)) => assert_eq!(c, 1),
        _ => panic!("nonzero exit must be a NonZeroExit"),
    }
    match exit_result(None) {
        Err(WaitError::Crashed) => {},
        _ => panic!("a killed process must be a Crashed"),
    }
}

#[test]
fn expected_frames_round_up() {
    // 2.5 seconds at 60 frames per second: exactly 150.
    assert_eq!(expected_frames(5 * 65536 / 2, 60), 150);
    // A hair over one second at 1 frame per second: 2.
    assert_eq!(expected_frames(65537, 1), 2);
    assert_eq!(expected_frames(0, 60), 0);
}

#[test]
fn frame_sizes_are_three_bytes_per_pixel() {
    assert_eq!(frame_byte_len(1920, 1080), 1920 * 1080 * 3);
    assert_eq!(frame_byte_len(1, 1), 3);
}
