//! Decisions of an agent's WebSocket session: the status recorded when it
//! connects, what each frame the agent sends asks for, and the session's
//! steps from connection to close. The application runs the socket and the
//! store and performs each step's action.

use vstd::prelude::*;
use crate::status::{AgentState, AgentStatusSnapshot};
use crate::text::{owned, str_eq};

verus! {

broadcast use vstd::string::group_string_axioms;

/// What a text frame from an agent asks for, by its `type` field.
#[derive(Debug, Clone, Copy, PartialEq, Eq, Structural)]
pub enum WsInbound {
    /// A heartbeat, answered with an acknowledgement.
    Heartbeat,
    /// A ping, answered with a pong.
    Ping,
    /// Anything else, ignored.
    Other,
}

/// The request of a frame whose `type` field is `frame_type` (`None` when
/// the frame is not a JSON object with a text `type`).
pub fn classify_inbound(frame_type: Option<&str>) -> (r: WsInbound)
    ensures
        r == match frame_type {
            Some(t) => if t@ == "heartbeat"@ {
                WsInbound::Heartbeat
            } else if t@ == "ping"@ {
                WsInbound::Ping
            } else {
                WsInbound::Other
            },
            None => WsInbound::Other,
        },
{
    match frame_type {
        Some(t) => if str_eq(t, "heartbeat") {
            WsInbound::Heartbeat
        } else if str_eq(t, "ping") {
            WsInbound::Ping
        } else {
            WsInbound::Other
        },
        None => WsInbound::Other,
    }
}

/// The status recorded when an agent connects: working, at the
/// `ws_connected` checkpoint, connected via WS.
pub fn connect_status() -> (r: AgentStatusSnapshot)
    ensures
        r.state == AgentState::Working,
        r.task_id is None,
        r.blocked_reason is None,
        r.waiting_on_agent is None,
        r.checkpoint matches Some(c) && c@ == "ws_connected"@,
        r.working_on@ == "connected via WS"@,
{
    AgentStatusSnapshot {
        state: AgentState::Working,
        task_id: None,
        blocked_reason: None,
        waiting_on_agent: None,
        checkpoint: Some(owned("ws_connected")),
        working_on: owned("connected via WS"),
    }
}

/// The status a heartbeat frame records: the one it carries, else the
/// default heartbeat status.
pub fn heartbeat_status(reported: Option<AgentStatusSnapshot>) -> (r: AgentStatusSnapshot)
    ensures
        match reported {
            Some(s) => r == s,
            None => r.state == AgentState::Working && r.task_id is None && r.blocked_reason is None
                && r.waiting_on_agent is None && r.checkpoint is None && r.working_on@ == "heartbeat via WS"@,
        },
{
    match reported {
        Some(s) => s,
        None => AgentStatusSnapshot::default(),
    }
}

/// Where a session stands.
#[derive(Debug, Clone, Copy, PartialEq, Eq, Structural)]
pub enum WsPhase {
    /// Accepted; missed messages and events are being sent.
    Opening,
    /// Forwarding pushes and answering frames.
    Live,
    /// Ended; the agent's channel is released.
    Closed,
}

/// What happened on a session.
#[derive(Debug, Clone, Copy, PartialEq, Eq, Structural)]
pub enum WsEvent {
    /// The connection was accepted and the agent's channel registered.
    Opened,
    /// The catch-up was sent and its events recorded as delivered.
    CaughtUp,
    /// A send on the socket failed.
    SendFailed,
    /// The agent's channel handed over a push.
    Pushed,
    /// The agent's channel overflowed, dropping this many pushes.
    Lagged(u64),
    /// The agent's channel was closed.
    ChannelClosed,
    /// The agent sent a text frame asking for this.
    Frame(WsInbound),
    /// The agent sent a frame that is not text.
    OtherFrame,
    /// The agent closed the socket, or the stream ended.
    SocketClosed,
}

/// What the application does next.
#[derive(Debug, Clone, Copy, PartialEq, Eq, Structural)]
pub enum WsAction {
    /// Send the agent's messages after sequence 0 (at most
    /// `message_limit`, acknowledged ones included), then the undelivered
    /// events of each project it follows (at most `event_limit` each), and
    /// record those events as delivered.
    CatchUp { message_limit: i64, include_acked: bool, event_limit: i64 },
    /// Tell the agent it is connected.
    AnnounceConnected,
    /// Send the push to the agent.
    Forward,
    /// Tell the agent how many pushes were skipped, send it its messages not
    /// yet acknowledged (at most `replay_limit`), and register its channel
    /// again.
    ReportLag { skipped: u64, replay_limit: i64, include_acked: bool },
    /// Record a heartbeat (with the frame's status, else the default one)
    /// and acknowledge it.
    AckHeartbeat,
    /// Answer with a pong.
    Pong,
    /// Nothing to do.
    Nothing,
    /// Release the agent's channel; the session is over.
    Unregister,
}

/// The step a session takes from `phase` on `event`.
pub open spec fn ws_transition(phase: WsPhase, event: WsEvent) -> (WsPhase, WsAction) {
    match phase {
        WsPhase::Closed => (WsPhase::Closed, WsAction::Nothing),
        WsPhase::Opening => match event {
            WsEvent::Opened => (
                WsPhase::Opening,
                WsAction::CatchUp { message_limit: 100, include_acked: true, event_limit: 50 },
            ),
            WsEvent::CaughtUp => (WsPhase::Live, WsAction::AnnounceConnected),
            WsEvent::SendFailed => (WsPhase::Closed, WsAction::Unregister),
            _ => (WsPhase::Opening, WsAction::Nothing),
        },
        WsPhase::Live => match event {
            WsEvent::Pushed => (WsPhase::Live, WsAction::Forward),
            WsEvent::Lagged(n) => (
                WsPhase::Live,
                WsAction::ReportLag { skipped: n, replay_limit: 100, include_acked: false },
            ),
            WsEvent::Frame(WsInbound::Heartbeat) => (WsPhase::Live, WsAction::AckHeartbeat),
            WsEvent::Frame(WsInbound::Ping) => (WsPhase::Live, WsAction::Pong),
            WsEvent::SendFailed => (WsPhase::Closed, WsAction::Unregister),
            WsEvent::ChannelClosed => (WsPhase::Closed, WsAction::Unregister),
            WsEvent::SocketClosed => (WsPhase::Closed, WsAction::Unregister),
            _ => (WsPhase::Live, WsAction::Nothing),
        },
    }
}

/// Takes one step of a session.
pub fn ws_step(phase: WsPhase, event: WsEvent) -> (r: (WsPhase, WsAction))
    ensures
        r == ws_transition(phase, event),
{
    match phase {
        WsPhase::Closed => (WsPhase::Closed, WsAction::Nothing),
        WsPhase::Opening => match event {
            WsEvent::Opened => (
                WsPhase::Opening,
                WsAction::CatchUp { message_limit: 100, include_acked: true, event_limit: 50 },
            ),
            WsEvent::CaughtUp => (WsPhase::Live, WsAction::AnnounceConnected),
            WsEvent::SendFailed => (WsPhase::Closed, WsAction::Unregister),
            _ => (WsPhase::Opening, WsAction::Nothing),
        },
        WsPhase::Live => match event {
            WsEvent::Pushed => (WsPhase::Live, WsAction::Forward),
            WsEvent::Lagged(n) => (
                WsPhase::Live,
                WsAction::ReportLag { skipped: n, replay_limit: 100, include_acked: false },
            ),
            WsEvent::Frame(WsInbound::Heartbeat) => (WsPhase::Live, WsAction::AckHeartbeat),
            WsEvent::Frame(WsInbound::Ping) => (WsPhase::Live, WsAction::Pong),
            WsEvent::SendFailed => (WsPhase::Closed, WsAction::Unregister),
            WsEvent::ChannelClosed => (WsPhase::Closed, WsAction::Unregister),
            WsEvent::SocketClosed => (WsPhase::Closed, WsAction::Unregister),
            _ => (WsPhase::Live, WsAction::Nothing),
        },
    }
}

/// A session releases the agent's channel exactly once: a step unregisters
/// exactly when it moves a session that was not closed into `Closed`, and a
/// closed session stays closed and does nothing.
pub proof fn law_ws_unregisters_once(phase: WsPhase, event: WsEvent)
    ensures
        (ws_transition(phase, event).1 == WsAction::Unregister) <==> (phase != WsPhase::Closed
            && ws_transition(phase, event).0 == WsPhase::Closed),
        phase == WsPhase::Closed ==> ws_transition(phase, event) == (WsPhase::Closed, WsAction::Nothing),
{
}

/// A failed send ends any open session: the session closes and the
/// agent's channel is released, whether it was catching up or live; a live
/// session also ends when its channel or its socket closes.
pub proof fn law_ws_send_failure_ends(phase: WsPhase)
    ensures
        phase != WsPhase::Closed ==> ws_transition(phase, WsEvent::SendFailed) == (WsPhase::Closed, WsAction::Unregister),
        ws_transition(WsPhase::Live, WsEvent::ChannelClosed) == (WsPhase::Closed, WsAction::Unregister),
        ws_transition(WsPhase::Live, WsEvent::SocketClosed) == (WsPhase::Closed, WsAction::Unregister),
{
}

/// Pushes are forwarded only to a live session, after its catch-up.
pub proof fn law_ws_forwards_only_live(phase: WsPhase, event: WsEvent)
    ensures
        ws_transition(phase, event).1 == WsAction::Forward ==> phase == WsPhase::Live,
        ws_transition(phase, event).1 == WsAction::AnnounceConnected ==> phase == WsPhase::Opening
            && event == WsEvent::CaughtUp,
{
}

} // verus!
