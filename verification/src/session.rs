//! The frame-ingestion session: one rendering job's state machine.
//!
//! The caller owns the socket, the timer and the encoder subprocess; the
//! session decides. Every inbound occurrence — a connection, a binary
//! frame, a control text, silence, the encoder's exit — is an [`Event`];
//! [`Session::on_event`] moves the machine and names the one [`Action`]
//! the caller must carry out. Frames are forwarded strictly in arrival
//! order because the machine is driven by a single reader and holds no
//! queue of its own: each frame's forwarding is decided before the next
//! event is read.

use vstd::prelude::*;

use crate::command::{dec_of, u64_to_dec};
use vstd::string::*;

verus! {

/// Where a session stands in its life.
#[derive(Clone, Copy, PartialEq, Eq, Structural, Debug)]
pub enum SessionState {
    /// Nothing begun.
    Idle,
    /// The listener is bound and the encoder spawned; no producer yet.
    Listening,
    /// One producer is connected and streaming frames.
    Streaming,
    /// End of input signalled; the encoder's exit is awaited.
    Finishing,
    /// The job is over; the session is not reused.
    Closed,
}

/// A control text, already classified.
#[derive(Clone, Copy, PartialEq, Eq, Structural, Debug)]
pub enum TextMsg {
    /// `"finish"`: end the stream and finalize.
    Finish,
    /// `"pause"`: checkpoint query.
    Pause,
    /// Anything else: a no-op.
    Other,
}

/// One inbound occurrence the session reacts to.
#[derive(Clone, Copy, PartialEq, Eq, Structural, Debug)]
pub enum Event {
    /// A producer connected.
    Connected,
    /// A binary message of this many bytes arrived: one raw frame.
    Frame(usize),
    /// A text message arrived.
    Text(TextMsg),
    /// Nothing arrived within the inactivity window.
    Timeout,
    /// The encoder process has been awaited and is gone.
    Exited,
}

/// What the caller must do in reaction to an event.
#[derive(Clone, Copy, PartialEq, Eq, Structural, Debug)]
pub enum Action {
    /// Nothing.
    Ignore,
    /// Write the frame's bytes to the encoder pipe and flush; when
    /// `report` is set, also emit a progress notification.
    Forward { report: bool },
    /// The frame's size does not match the session's: do not forward
    /// it, and surface the mismatch.
    RejectFrame,
    /// Reply to the producer with this frame count, rendered in
    /// decimal.
    ReplyCount(u64),
    /// Close the encoder's input pipe — the sole end-of-stream signal —
    /// await its exit, then ack the producer with `"finished"`.
    FinishUp,
    /// Close the pipe and await exit as above, but without an ack: the
    /// producer went silent.
    CloseOnTimeout,
}

/// One rendering job's session. At most one of these should drive an
/// encoder at a time; the pipe itself stays with the caller.
pub struct Session {
    /// Where the session stands.
    pub state: SessionState,
    /// Frames accepted and forwarded so far.
    pub frames_received: u64,
    /// The one frame size this session accepts: width x height x 3
    /// bytes, fixed at setup.
    pub frame_size: usize,
    /// The total frame count, when the caller knows it.
    pub frames_expected: Option<u64>,
    /// Emit a progress report every this many frames (at least 1).
    pub report_interval: u64,
}

impl Session {
    /// The session's standing well-formedness: the report cadence is
    /// never zero.
    pub open spec fn wf(&self) -> bool {
        self.report_interval >= 1
    }
}

/// The session after one event: connections promote Listening to
/// Streaming (further connection attempts change nothing — one producer
/// is served per session); a well-sized frame while streaming counts;
/// `"finish"` and silence both start finishing; the encoder's exit
/// closes. Everything else leaves the session as it stands.
pub open spec fn step_state(s: Session, ev: Event) -> Session {
    match ev {
        Event::Connected => if s.state is Listening {
            Session { state: SessionState::Streaming, ..s }
        } else {
            s
        },
        Event::Frame(n) => if s.state is Streaming && n == s.frame_size && s.frames_received
            < u64::MAX {
            Session { frames_received: (s.frames_received + 1) as u64, ..s }
        } else {
            s
        },
        Event::Text(m) => if s.state is Streaming && m is Finish {
            Session { state: SessionState::Finishing, ..s }
        } else {
            s
        },
        Event::Timeout => if s.state is Streaming {
            Session { state: SessionState::Finishing, ..s }
        } else {
            s
        },
        Event::Exited => if s.state is Finishing {
            Session { state: SessionState::Closed, ..s }
        } else {
            s
        },
    }
}

/// Whether this event is a frame the session forwards to the encoder.
pub open spec fn step_forwards(s: Session, ev: Event) -> bool {
    s.state is Streaming && (ev matches Event::Frame(n) && n == s.frame_size
        && s.frames_received < u64::MAX)
}

/// The action an event demands of the caller. A forwarded frame asks
/// for a progress report exactly every `report_interval` frames; a
/// pause is answered with the current count and changes nothing; a
/// mismatched frame while streaming is never forwarded silently.
pub open spec fn step_action(s: Session, ev: Event) -> Action
    recommends
        s.wf(),
{
    match ev {
        Event::Connected => Action::Ignore,
        Event::Frame(n) => if s.state is Streaming && s.frames_received < u64::MAX {
            if n == s.frame_size {
                Action::Forward {
                    report: (s.frames_received + 1) as u64 % s.report_interval == 0,
                }
            } else {
                Action::RejectFrame
            }
        } else {
            Action::Ignore
        },
        Event::Text(m) => if s.state is Streaming {
            match m {
                TextMsg::Finish => Action::FinishUp,
                TextMsg::Pause => Action::ReplyCount(s.frames_received),
                TextMsg::Other => Action::Ignore,
            }
        } else {
            Action::Ignore
        },
        Event::Timeout => if s.state is Streaming {
            Action::CloseOnTimeout
        } else {
            Action::Ignore
        },
        Event::Exited => Action::Ignore,
    }
}

impl Session {
    /// A fresh, idle session for one job. A zero report cadence is
    /// normalized to every frame.
    pub fn new(frame_size: usize, frames_expected: Option<u64>, report_interval: u64) -> (s:
        Session)
        ensures
            s.state is Idle,
            s.frames_received == 0,
            s.frame_size == frame_size,
            s.frames_expected == frames_expected,
            s.report_interval == if report_interval >= 1 {
                report_interval
            } else {
                1u64
            },
            s.wf(),
    {
        Session {
            state: SessionState::Idle,
            frames_received: 0,
            frame_size,
            frames_expected,
            report_interval: if report_interval >= 1 {
                report_interval
            } else {
                1
            },
        }
    }

    /// The caller has bound the loopback listener and spawned the
    /// encoder: the session starts listening.
    pub fn start_listening(&mut self)
        requires
            old(self).state is Idle,
        ensures
            *final(self) == (Session { state: SessionState::Listening, ..*old(self) }),
    {
        self.state = SessionState::Listening;
    }

    /// Feeds one event through the machine: the session becomes
    /// exactly [`step_state`] of itself, and the caller is told to do
    /// exactly [`step_action`].
    pub fn on_event(&mut self, ev: Event) -> (a: Action)
        requires
            old(self).wf(),
        ensures
            *final(self) == step_state(*old(self), ev),
            a == step_action(*old(self), ev),
            final(self).wf(),
    {
        match ev {
            Event::Connected => {
                if matches!(self.state, SessionState::Listening) {
                    self.state = SessionState::Streaming;
                }
                Action::Ignore
            },
            Event::Frame(n) => {
                if matches!(self.state, SessionState::Streaming) && self.frames_received
                    < u64::MAX {
                    if n == self.frame_size {
                        self.frames_received = self.frames_received + 1;
                        Action::Forward { report: self.frames_received % self.report_interval == 0 }
                    } else {
                        Action::RejectFrame
                    }
                } else {
                    Action::Ignore
                }
            },
            Event::Text(m) => {
                if matches!(self.state, SessionState::Streaming) {
                    match m {
                        TextMsg::Finish => {
                            self.state = SessionState::Finishing;
                            Action::FinishUp
                        },
                        TextMsg::Pause => Action::ReplyCount(self.frames_received),
                        TextMsg::Other => Action::Ignore,
                    }
                } else {
                    Action::Ignore
                }
            },
            Event::Timeout => {
                if matches!(self.state, SessionState::Streaming) {
                    self.state = SessionState::Finishing;
                    Action::CloseOnTimeout
                } else {
                    Action::Ignore
                }
            },
            Event::Exited => {
                if matches!(self.state, SessionState::Finishing) {
                    self.state = SessionState::Closed;
                }
                Action::Ignore
            },
        }
    }

    /// The text answering a pause: the current frame count in decimal.
    pub fn pause_reply(&self) -> (r: String)
        ensures
            r@ == dec_of(self.frames_received as nat),
    {
        u64_to_dec(self.frames_received)
    }
}

/// Classifies a control text the way the stream handler reads it.
pub open spec fn spec_classify(t: Seq<char>) -> TextMsg {
    if t == "finish"@ {
        TextMsg::Finish
    } else if t == "pause"@ {
        TextMsg::Pause
    } else {
        TextMsg::Other
    }
}

/// Classifies an inbound text message: exactly `"finish"`, exactly
/// `"pause"`, or a no-op.
pub fn classify_text(t: &str) -> (m: TextMsg)
    ensures
        m == spec_classify(t@),
{
    let owned = t.to_owned();
    if owned == String::from_str("finish") {
        TextMsg::Finish
    } else if owned == String::from_str("pause") {
        TextMsg::Pause
    } else {
        TextMsg::Other
    }
}

/// Why awaiting the encoder process is a failure.
#[derive(Clone, Copy, PartialEq, Eq, Structural, Debug)]
pub enum WaitError {
    /// The encoder ran to completion but reported this nonzero code.
    NonZeroExit(i32),
    /// The encoder did not exit on its own (killed or crashed), so
    /// there is no code — a distinct failure from a nonzero exit.
    Crashed,
}

/// The verdict on an awaited encoder process, from its exit code if it
/// had one: success exactly on code zero.
pub fn exit_result(code: Option<i32>) -> (r: Result<(), WaitError>)
    ensures
        match code {
            Some(c) => if c == 0 {
                r is Ok
            } else {
                r matches Err(WaitError::NonZeroExit(rc)) && rc == c
            },
            None => r matches Err(WaitError::Crashed),
        },
{
    match code {
        Some(0) => Ok(()),
        Some(c) => Err(WaitError::NonZeroExit(c)),
        None => Err(WaitError::Crashed),
    }
}

/// The total frame count for a timeline: seconds times framerate,
/// rounded up. Seconds are fixed-point in units of `1/TIME_ONE`.
pub open spec fn spec_expected_frames(duration: nat, framerate: nat) -> nat {
    (((duration * framerate + 65535) as int / 65536) as nat)
}

/// Computes [`spec_expected_frames`] exactly.
pub fn expected_frames(duration: u64, framerate: u32) -> (n: u64)
    requires
        spec_expected_frames(duration as nat, framerate as nat) <= u64::MAX,
    ensures
        n == spec_expected_frames(duration as nat, framerate as nat),
{
    proof {
        assert((duration as int) * (framerate as int) <= (0xffff_ffff_ffff_ffff as int) * (
        0xffff_ffff as int)) by (nonlinear_arith)
            requires
                0 <= duration as int <= 0xffff_ffff_ffff_ffff as int,
                0 <= framerate as int <= 0xffff_ffff as int;
    }
    let wide: u128 = ((duration as u128) * (framerate as u128) + 65535) / 65536;
    wide as u64
}

/// The one frame size a session accepts: three bytes per pixel.
pub fn frame_byte_len(width: u32, height: u32) -> (n: usize)
    requires
        (width as nat) * (height as nat) * 3 <= usize::MAX,
    ensures
        n == (width as nat) * (height as nat) * 3,
{
    proof {
        assert((width as int) * (height as int) <= (0xffff_ffff as int) * (0xffff_ffff as int))
            by (nonlinear_arith)
            requires
                0 <= width as int <= 0xffff_ffff as int,
                0 <= height as int <= 0xffff_ffff as int;
    }
    let wide: u128 = (width as u128) * (height as u128) * 3;
    wide as usize
}

/// The session after a whole run of events, in order.
pub open spec fn run_states(s: Session, evs: Seq<Event>) -> Session
    decreases evs.len(),
{
    if evs.len() == 0 {
        s
    } else {
        run_states(step_state(s, evs[0]), evs.drop_first())
    }
}

/// How many of these events, in order, the session forwards to the
/// encoder.
pub open spec fn forwarded_count(s: Session, evs: Seq<Event>) -> nat
    decreases evs.len(),
{
    if evs.len() == 0 {
        0
    } else {
        (if step_forwards(s, evs[0]) {
            1nat
        } else {
            0nat
        }) + forwarded_count(step_state(s, evs[0]), evs.drop_first())
    }
}

/// Frame ingestion, end to end: from a streaming session, `n`
/// well-sized frames followed by the finish text and the encoder's
/// exit forward exactly `n` frames to the encoder — every single one,
/// in arrival order — and leave the session Closed with all `n`
/// counted.
pub proof fn lemma_frame_ingestion(s: Session, evs: Seq<Event>, n: nat)
    requires
        s.state is Streaming,
        s.frames_received + n <= u64::MAX,
        evs.len() == n + 2,
        forall|i: int| 0 <= i < n ==> evs[i] == Event::Frame(s.frame_size),
        evs[n as int] == Event::Text(TextMsg::Finish),
        evs[n as int + 1] == Event::Exited,
    ensures
        forwarded_count(s, evs) == n,
        forall|i: int| 0 <= i < n ==> step_forwards(run_states(s, evs.take(i)), evs[i]),
        run_states(s, evs).state is Closed,
        run_states(s, evs).frames_received == s.frames_received + n,
    decreases n,
{
    if n == 0 {
        let s1 = step_state(s, evs[0]);
        let rest = evs.drop_first();
        let s2 = step_state(s1, rest[0]);
        let rest2 = rest.drop_first();
        assert(rest.len() == 1);
        assert(rest[0] == evs[1]);
        assert(rest2.len() == 0);
        assert(run_states(s, evs) == run_states(s1, rest));
        assert(run_states(s1, rest) == run_states(s2, rest2));
        assert(run_states(s2, rest2) == s2);
        assert(forwarded_count(s, evs) == forwarded_count(s1, rest));
        assert(forwarded_count(s1, rest) == forwarded_count(s2, rest2));
        assert(forwarded_count(s2, rest2) == 0);
    } else {
        let s1 = step_state(s, evs[0]);
        assert(step_forwards(s, evs[0]));
        assert(s1.state is Streaming && s1.frame_size == s.frame_size);
        assert(s1.frames_received == s.frames_received + 1);
        let rest = evs.drop_first();
        assert(forall|i: int| 0 <= i < n + 1 ==> #[trigger] rest[i] == evs[i + 1]);
        lemma_frame_ingestion(s1, rest, (n - 1) as nat);
        assert(run_states(s, evs) == run_states(s1, rest));
        assert(forwarded_count(s, evs) == 1 + forwarded_count(s1, rest));
        assert forall|i: int| 0 <= i < n implies step_forwards(
            run_states(s, evs.take(i)),
            evs[i],
        ) by {
            if i == 0 {
                assert(evs.take(0) =~= Seq::<Event>::empty());
            } else {
                assert(rest.take(i - 1) =~= evs.take(i).drop_first());
                assert(evs.take(i)[0] == evs[0]);
                assert(run_states(s, evs.take(i)) == run_states(s1, rest.take(i - 1)));
                assert(rest[i - 1] == evs[i]);
            }
        }
    }
}

/// Silence closes the session too: an inactivity timeout followed by
/// the encoder's exit reaches Closed with no finish message, no frame
/// forwarded and the count untouched.
pub proof fn lemma_timeout_closes(s: Session, evs: Seq<Event>)
    requires
        s.state is Streaming,
        evs.len() == 2,
        evs[0] == Event::Timeout,
        evs[1] == Event::Exited,
    ensures
        forwarded_count(s, evs) == 0,
        run_states(s, evs).state is Closed,
        run_states(s, evs).frames_received == s.frames_received,
{
    let s1 = step_state(s, evs[0]);
    let rest = evs.drop_first();
    let s2 = step_state(s1, rest[0]);
    let rest2 = rest.drop_first();
    assert(rest.len() == 1);
    assert(rest[0] == evs[1]);
    assert(rest2.len() == 0);
    assert(run_states(s, evs) == run_states(s1, rest));
    assert(run_states(s1, rest) == run_states(s2, rest2));
    assert(run_states(s2, rest2) == s2);
    assert(forwarded_count(s, evs) == forwarded_count(s1, rest));
    assert(forwarded_count(s1, rest) == forwarded_count(s2, rest2));
    assert(forwarded_count(s2, rest2) == 0);
}

/// A pause is a pure checkpoint: the reply carries exactly the current
/// frame count and neither the state nor the count moves.
pub proof fn lemma_pause_checkpoint(s: Session)
    requires
        s.state is Streaming,
    ensures
        step_state(s, Event::Text(TextMsg::Pause)) == s,
        step_action(s, Event::Text(TextMsg::Pause)) == Action::ReplyCount(s.frames_received),
{
}

} // verus!
