//! The reconnect policy of the websocket feed, as a state machine.
//!
//! The feed connects once; when that connection fails or its stream ends it
//! retries up to `max_attempts` times, sleeping before each try, and gives up
//! after that. The owner of the machine performs the actions (connect, read
//! the stream, sleep) and reports what happened; the machine answers with
//! the states to publish and the next action. `closed` is the close flag as
//! read when the event is reported.

use vstd::prelude::*;

use crate::text::{has_prefix, starts_with, chars_of};

verus! {

/// The connection state a feed publishes.
#[derive(Debug, Clone, Copy, PartialEq, Eq, Structural)]
pub enum WsState {
    Connecting,
    Connected,
    Reconnecting { attempt: u32 },
    Disconnected,
}

/// What the owner does next.
#[derive(Debug, Clone, Copy, PartialEq, Eq, Structural)]
pub enum WsAction {
    /// Open a connection and report `Connected` or `ConnectFailed`.
    Connect,
    /// Read quotes until the stream ends, fails or the feed is closed, then
    /// report `StreamEnded`.
    Stream,
    /// Wait the reconnect delay, then report `Slept`.
    Sleep,
    /// Stop the feed.
    Stop,
}

/// What happened since the last action.
#[derive(Debug, Clone, Copy, PartialEq, Eq, Structural)]
pub enum WsEvent {
    Started,
    Connected,
    ConnectFailed,
    StreamEnded,
    Slept,
}

/// Where the machine is.
#[derive(Debug, Clone, Copy, PartialEq, Eq, Structural)]
pub enum WsPhase {
    /// Not started.
    Idle,
    /// On the first connection.
    First,
    /// On reconnect try number `attempt`.
    Retry,
    /// Sleeping before reconnect try number `attempt`.
    Waiting,
    /// Given up or closed.
    Stopped,
}

/// The reconnect state machine of one feed.
#[derive(Debug, Clone, Copy)]
pub struct ReconnectMachine {
    pub phase: WsPhase,
    pub attempt: u32,
    pub max_attempts: u32,
}

/// The tries are counted within their bounds: a reconnect try or the sleep
/// before it is numbered from 1 to `max_attempts`.
pub open spec fn machine_ok(m: ReconnectMachine) -> bool {
    (m.phase == WsPhase::Retry || m.phase == WsPhase::Waiting) ==> 1 <= m.attempt <= m.max_attempts
}

/// The states to publish, the next action and the next machine for `event`.
pub open spec fn step_spec(m: ReconnectMachine, event: WsEvent, closed: bool) -> (Seq<WsState>, WsAction, ReconnectMachine) {
    let stop = ReconnectMachine { phase: WsPhase::Stopped, ..m };
    match (m.phase, event) {
        (WsPhase::Idle, WsEvent::Started) => if closed {
            (seq![WsState::Disconnected], WsAction::Stop, stop)
        } else {
            (seq![WsState::Connecting], WsAction::Connect, ReconnectMachine { phase: WsPhase::First, ..m })
        },
        (WsPhase::First, WsEvent::Connected) => (seq![WsState::Connected], WsAction::Stream, m),
        (WsPhase::Retry, WsEvent::Connected) => (seq![WsState::Connected], WsAction::Stream, m),
        (WsPhase::First, WsEvent::ConnectFailed) | (WsPhase::First, WsEvent::StreamEnded) => if closed {
            (seq![WsState::Disconnected], WsAction::Stop, stop)
        } else if m.max_attempts >= 1 {
            (seq![WsState::Reconnecting { attempt: 1 }], WsAction::Sleep, ReconnectMachine {
                phase: WsPhase::Waiting,
                attempt: 1,
                ..m
            })
        } else {
            (seq![WsState::Reconnecting { attempt: 1 }, WsState::Disconnected], WsAction::Stop, ReconnectMachine {
                phase: WsPhase::Stopped,
                attempt: 1,
                ..m
            })
        },
        (WsPhase::Retry, WsEvent::ConnectFailed) | (WsPhase::Retry, WsEvent::StreamEnded) => {
            let next = (m.attempt + 1) as u32;
            if next > m.max_attempts {
                (seq![WsState::Disconnected], WsAction::Stop, ReconnectMachine {
                    phase: WsPhase::Stopped,
                    attempt: next,
                    ..m
                })
            } else if closed {
                (Seq::empty(), WsAction::Stop, ReconnectMachine { phase: WsPhase::Stopped, attempt: next, ..m })
            } else {
                (Seq::empty(), WsAction::Sleep, ReconnectMachine { phase: WsPhase::Waiting, attempt: next, ..m })
            }
        },
        (WsPhase::Waiting, WsEvent::Slept) => if closed {
            (Seq::empty(), WsAction::Stop, stop)
        } else {
            (seq![WsState::Reconnecting { attempt: m.attempt }], WsAction::Connect, ReconnectMachine {
                phase: WsPhase::Retry,
                ..m
            })
        },
        _ => (Seq::empty(), WsAction::Stop, stop),
    }
}

impl ReconnectMachine {
    /// A machine that has not started, allowing `max_attempts` reconnects.
    pub fn new(max_attempts: u32) -> (m: ReconnectMachine)
        ensures
            m.phase == WsPhase::Idle,
            m.max_attempts == max_attempts,
            machine_ok(m),
    {
        ReconnectMachine { phase: WsPhase::Idle, attempt: 0, max_attempts }
    }

    /// Takes the event that ended the last action and returns the states to
    /// publish, in order, and the next action.
    pub fn step(&mut self, event: WsEvent, closed: bool) -> (r: (Vec<WsState>, WsAction))
        requires
            machine_ok(*old(self)),
            old(self).phase == WsPhase::Retry ==> old(self).attempt < u32::MAX,
        ensures
            r.0@ == step_spec(*old(self), event, closed).0,
            r.1 == step_spec(*old(self), event, closed).1,
            *final(self) == step_spec(*old(self), event, closed).2,
            machine_ok(*final(self)),
    {
        let mut out: Vec<WsState> = Vec::new();
        match (self.phase, event) {
            (WsPhase::Idle, WsEvent::Started) => {
                if closed {
                    out.push(WsState::Disconnected);
                    self.phase = WsPhase::Stopped;
                    (out, WsAction::Stop)
                } else {
                    out.push(WsState::Connecting);
                    self.phase = WsPhase::First;
                    (out, WsAction::Connect)
                }
            },
            (WsPhase::First, WsEvent::Connected) | (WsPhase::Retry, WsEvent::Connected) => {
                out.push(WsState::Connected);
                (out, WsAction::Stream)
            },
            (WsPhase::First, WsEvent::ConnectFailed) | (WsPhase::First, WsEvent::StreamEnded) => {
                if closed {
                    out.push(WsState::Disconnected);
                    self.phase = WsPhase::Stopped;
                    (out, WsAction::Stop)
                } else {
                    self.attempt = 1;
                    out.push(WsState::Reconnecting { attempt: 1 });
                    if self.max_attempts >= 1 {
                        self.phase = WsPhase::Waiting;
                        (out, WsAction::Sleep)
                    } else {
                        out.push(WsState::Disconnected);
                        self.phase = WsPhase::Stopped;
                        (out, WsAction::Stop)
                    }
                }
            },
            (WsPhase::Retry, WsEvent::ConnectFailed) | (WsPhase::Retry, WsEvent::StreamEnded) => {
                let next = self.attempt + 1;
                self.attempt = next;
                if next > self.max_attempts {
                    out.push(WsState::Disconnected);
                    self.phase = WsPhase::Stopped;
                    (out, WsAction::Stop)
                } else if closed {
                    self.phase = WsPhase::Stopped;
                    (out, WsAction::Stop)
                } else {
                    self.phase = WsPhase::Waiting;
                    (out, WsAction::Sleep)
                }
            },
            (WsPhase::Waiting, WsEvent::Slept) => {
                if closed {
                    self.phase = WsPhase::Stopped;
                    (out, WsAction::Stop)
                } else {
                    out.push(WsState::Reconnecting { attempt: self.attempt });
                    self.phase = WsPhase::Retry;
                    (out, WsAction::Connect)
                }
            },
            _ => {
                self.phase = WsPhase::Stopped;
                (out, WsAction::Stop)
            },
        }
    }
}

/// A stopped machine stays stopped, and every reconnect try it asks for is
/// numbered between 1 and `max_attempts`.
pub proof fn lemma_step_bounds(m: ReconnectMachine, event: WsEvent, closed: bool)
    requires
        machine_ok(m),
        m.phase == WsPhase::Retry ==> m.attempt < u32::MAX,
    ensures
        m.phase == WsPhase::Stopped ==> step_spec(m, event, closed).1 == WsAction::Stop
            && step_spec(m, event, closed).2.phase == WsPhase::Stopped,
        step_spec(m, event, closed).1 == WsAction::Connect && m.phase != WsPhase::Idle ==> 1
            <= step_spec(m, event, closed).2.attempt <= m.max_attempts,
        step_spec(m, event, closed).2.max_attempts == m.max_attempts,
        machine_ok(step_spec(m, event, closed).2),
{
}

/// The reconnect policy. A failed connection or a dropped stream is handled
/// the same way: while tries are left and the feed is open, the machine
/// publishes the try number (on the first failure), sleeps and counts one
/// more try; after a sleep it reconnects with that try number; it gives up,
/// publishing `Disconnected`, only once a failure would go past
/// `max_attempts`.
pub proof fn lemma_reconnect_policy(m: ReconnectMachine, event: WsEvent)
    requires
        machine_ok(m),
        m.phase == WsPhase::Retry ==> m.attempt < u32::MAX,
    ensures
        (event == WsEvent::ConnectFailed || event == WsEvent::StreamEnded) && m.phase == WsPhase::First
            && m.max_attempts >= 1 ==> step_spec(m, event, false) == (
            seq![WsState::Reconnecting { attempt: 1 }],
            WsAction::Sleep,
            ReconnectMachine { phase: WsPhase::Waiting, attempt: 1, max_attempts: m.max_attempts },
        ),
        (event == WsEvent::ConnectFailed || event == WsEvent::StreamEnded) && m.phase == WsPhase::Retry
            && m.attempt + 1 <= m.max_attempts ==> step_spec(m, event, false) == (
            Seq::<WsState>::empty(),
            WsAction::Sleep,
            ReconnectMachine { phase: WsPhase::Waiting, attempt: (m.attempt + 1) as u32, max_attempts: m.max_attempts },
        ),
        (event == WsEvent::ConnectFailed || event == WsEvent::StreamEnded) && m.phase == WsPhase::Retry
            && m.attempt + 1 > m.max_attempts ==> step_spec(m, event, false).0 == seq![WsState::Disconnected]
            && step_spec(m, event, false).1 == WsAction::Stop,
        event == WsEvent::Slept && m.phase == WsPhase::Waiting ==> step_spec(m, event, false) == (
            seq![WsState::Reconnecting { attempt: m.attempt }],
            WsAction::Connect,
            ReconnectMachine { phase: WsPhase::Retry, attempt: m.attempt, max_attempts: m.max_attempts },
        ),
        step_spec(m, WsEvent::StreamEnded, false) == step_spec(m, WsEvent::ConnectFailed, false)
            || !(m.phase == WsPhase::First || m.phase == WsPhase::Retry),
{
}

/// A feed that keeps failing stops only after `max_attempts` reconnect tries:
/// from a machine on try `k` (or on its first connection, `k == 0`), each
/// further failure is followed by a sleep and a new try as long as the count
/// stays within `max_attempts`.
pub proof fn lemma_tries_before_giving_up(m: ReconnectMachine, event: WsEvent)
    requires
        machine_ok(m),
        m.phase == WsPhase::First || m.phase == WsPhase::Retry,
        m.phase == WsPhase::First ==> m.max_attempts >= 1,
        m.phase == WsPhase::Retry ==> m.attempt < m.max_attempts,
        event == WsEvent::ConnectFailed || event == WsEvent::StreamEnded,
    ensures
        step_spec(m, event, false).1 == WsAction::Sleep,
        step_spec(step_spec(m, event, false).2, WsEvent::Slept, false).1 == WsAction::Connect,
        step_spec(step_spec(m, event, false).2, WsEvent::Slept, false).2.phase == WsPhase::Retry,
        step_spec(step_spec(m, event, false).2, WsEvent::Slept, false).2.attempt == (if m.phase
            == WsPhase::First {
            1
        } else {
            m.attempt + 1
        }),
{
}

/// Whether a feed of `symbols` uses the international endpoint: some symbol
/// starts with `hf_`.
pub open spec fn uses_international_feed_spec(symbols: Seq<String>) -> bool {
    exists|i: int| 0 <= i < symbols.len() && has_prefix(#[trigger] symbols[i]@, seq!['h', 'f', '_'])
}

/// Whether some symbol starts with `hf_`.
pub fn uses_international_feed(symbols: &[String]) -> (b: bool)
    ensures
        b == uses_international_feed_spec(symbols@),
{
    let mut i: usize = 0;
    while i < symbols.len()
        invariant
            i <= symbols@.len(),
            forall|k: int| 0 <= k < i ==> !has_prefix(#[trigger] symbols@[k]@, seq!['h', 'f', '_']),
        decreases symbols@.len() - i,
    {
        let v = chars_of(symbols[i].as_str());
        let prefix = ['h', 'f', '_'];
        if starts_with(v.as_slice(), prefix.as_slice()) {
            return true;
        }
        i = i + 1;
    }
    false
}

} // verus!
