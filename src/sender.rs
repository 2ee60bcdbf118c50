use vstd::prelude::*;

use crate::frame::{FrameError, Response};

verus! {

/// How the sender learns that a frame got through.
#[derive(Clone, Copy, Debug, PartialEq, Eq, Structural)]
pub enum Policy {
    /// Each frame counts as delivered once the transport accepts it; nothing is resent.
    FireAndForget,
    /// Each frame waits for a response; a rejected frame is sent again, up to `max_sends`
    /// times in all when a bound is given, without end otherwise.
    Acknowledged { max_sends: Option<u32> },
}

/// Where the sender stands in a transfer.
#[derive(Clone, Copy, Debug, PartialEq, Eq, Structural)]
pub enum SenderState {
    /// Nothing delivered yet.
    Idle,
    /// The Start frame was delivered.
    Started,
    /// The chunks with counters below the given one were delivered.
    Streaming(u16),
    /// The End frame was delivered: the transfer is complete.
    Ended,
}

/// A frame of the transfer.
#[derive(Clone, Copy, Debug, PartialEq, Eq, Structural)]
pub enum Outgoing {
    Start,
    Chunk(u16),
    End,
}

/// What the transport reports after a frame was sent.
#[derive(Clone, Copy, Debug, PartialEq, Eq, Structural)]
pub enum SendEvent {
    /// The frame got through: accepted by the transport, or acknowledged.
    Delivered,
    /// The receiver answered with an error, or with a response that could not be read.
    Rejected,
    /// The channel itself failed.
    TransportFailed,
}

/// Why a transfer was given up.
#[derive(Clone, Copy, Debug, PartialEq, Eq, Structural)]
pub enum TransferError {
    /// The channel failed.
    Transport,
    /// A frame was rejected and may not be sent again.
    Rejected,
}

/// What the caller must do next.
#[derive(Clone, Copy, Debug, PartialEq, Eq, Structural)]
pub enum SenderAction {
    /// Send this frame and report what happened.
    Send(Outgoing),
    /// Every frame was delivered.
    Finished,
    /// The transfer is over and failed.
    Failed(TransferError),
}

/// The host side of the protocol: it walks through Start, the chunks in ascending order and
/// End, one frame in flight at a time.
#[derive(Clone, Copy, Debug)]
pub struct Sender {
    /// Where the transfer stands.
    pub state: SenderState,
    /// Number of chunks in the transfer.
    pub total: u16,
    pub policy: Policy,
    /// How often the frame in flight has been sent; zero when none is.
    pub attempts: u32,
}

/// The frame that follows what was delivered so far, if any.
pub open spec fn next_frame(state: SenderState, total: u16) -> Option<Outgoing> {
    match state {
        SenderState::Idle => Some(Outgoing::Start),
        SenderState::Started => if total == 0 {
            Some(Outgoing::End)
        } else {
            Some(Outgoing::Chunk(0))
        },
        SenderState::Streaming(n) => if n < total {
            Some(Outgoing::Chunk(n))
        } else {
            Some(Outgoing::End)
        },
        SenderState::Ended => None,
    }
}

/// Where the transfer stands once `f` was delivered.
pub open spec fn delivered(f: Outgoing) -> SenderState {
    match f {
        Outgoing::Start => SenderState::Started,
        Outgoing::Chunk(n) => SenderState::Streaming((n + 1) as u16),
        Outgoing::End => SenderState::Ended,
    }
}

/// What the caller does after the frame that follows `state` was delivered.
pub open spec fn action_after(state: SenderState, total: u16) -> SenderAction {
    match next_frame(state, total) {
        Some(f) => SenderAction::Send(f),
        None => SenderAction::Finished,
    }
}

/// Whether another copy of a rejected frame may be sent after `attempts` sends.
pub open spec fn may_resend(policy: Policy, attempts: u32) -> bool {
    match policy {
        Policy::FireAndForget => false,
        Policy::Acknowledged { max_sends } => match max_sends {
            None => true,
            Some(m) => attempts < m,
        },
    }
}

/// One step of the sender: the state after an event on the frame in flight, and what to do
/// next.
pub open spec fn step_spec(s: Sender, e: SendEvent) -> (Sender, SenderAction) {
    let f = next_frame(s.state, s.total)->Some_0;
    match e {
        SendEvent::Delivered => {
            let st = delivered(f);
            let more = next_frame(st, s.total) is Some;
            (
                Sender { state: st, attempts: if more { 1 } else { 0 }, ..s },
                action_after(st, s.total),
            )
        },
        SendEvent::Rejected => if may_resend(s.policy, s.attempts) {
            (
                Sender {
                    attempts: if s.attempts < u32::MAX {
                        (s.attempts + 1) as u32
                    } else {
                        s.attempts
                    },
                    ..s
                },
                SenderAction::Send(f),
            )
        } else {
            (Sender { attempts: 0, ..s }, SenderAction::Failed(TransferError::Rejected))
        },
        SendEvent::TransportFailed => (
            Sender { attempts: 0, ..s },
            SenderAction::Failed(TransferError::Transport),
        ),
    }
}

/// The states and actions of a run of events, one step after the other.
pub open spec fn run(s: Sender, events: Seq<SendEvent>) -> (Sender, Seq<SenderAction>)
    decreases events.len(),
{
    if events.len() == 0 {
        (s, seq![])
    } else {
        let (s1, a) = step_spec(s, events[0]);
        let (s2, acts) = run(s1, events.drop_first());
        (s2, seq![a] + acts)
    }
}

/// `k` rejections followed by one delivery.
pub open spec fn rejected_then_delivered(k: nat) -> Seq<SendEvent> {
    Seq::new(k, |i: int| SendEvent::Rejected).push(SendEvent::Delivered)
}

impl Sender {
    /// Whether a frame is in flight: the transfer is not over and the frame was sent.
    pub open spec fn in_flight(self) -> bool {
        self.attempts >= 1 && next_frame(self.state, self.total) is Some
    }

    /// A sender for a transfer of `total` chunks, with nothing sent yet.
    pub fn new(total: u16, policy: Policy) -> (r: Sender)
        ensures
            r == (Sender { state: SenderState::Idle, total, policy, attempts: 0 }),
    {
        Sender { state: SenderState::Idle, total, policy, attempts: 0 }
    }

    /// Starts the transfer: the Start frame is to be sent.
    pub fn begin(&mut self) -> (r: SenderAction)
        requires
            old(self).state == SenderState::Idle,
        ensures
            r == SenderAction::Send(Outgoing::Start),
            *final(self) == (Sender { attempts: 1, ..*old(self) }),
            final(self).in_flight(),
    {
        self.attempts = 1;
        SenderAction::Send(Outgoing::Start)
    }

    /// The frame that follows what was delivered so far.
    pub fn next(&self) -> (r: Option<Outgoing>)
        ensures
            r == next_frame(self.state, self.total),
    {
        match self.state {
            SenderState::Idle => Some(Outgoing::Start),
            SenderState::Started => if self.total == 0 {
                Some(Outgoing::End)
            } else {
                Some(Outgoing::Chunk(0))
            },
            SenderState::Streaming(n) => if n < self.total {
                Some(Outgoing::Chunk(n))
            } else {
                Some(Outgoing::End)
            },
            SenderState::Ended => None,
        }
    }

    /// Takes what the transport reported on the frame in flight: a delivered frame moves the
    /// transfer on, a rejected one is sent again while the policy allows it, and a failed
    /// channel ends the transfer.
    pub fn step(&mut self, event: SendEvent) -> (r: SenderAction)
        requires
            old(self).in_flight(),
        ensures
            (*final(self), r) == step_spec(*old(self), event),
    {
        let f = match self.next() {
            Some(f) => f,
            None => {
                return SenderAction::Finished;
            },
        };
        match event {
            SendEvent::Delivered => {
                self.state =
                match f {
                    Outgoing::Start => SenderState::Started,
                    Outgoing::Chunk(n) => SenderState::Streaming(n + 1),
                    Outgoing::End => SenderState::Ended,
                };
                match self.next() {
                    Some(g) => {
                        self.attempts = 1;
                        SenderAction::Send(g)
                    },
                    None => {
                        self.attempts = 0;
                        SenderAction::Finished
                    },
                }
            },
            SendEvent::Rejected => {
                let again = match self.policy {
                    Policy::FireAndForget => false,
                    Policy::Acknowledged { max_sends } => match max_sends {
                        None => true,
                        Some(m) => self.attempts < m,
                    },
                };
                if again {
                    if self.attempts < u32::MAX {
                        self.attempts = self.attempts + 1;
                    }
                    SenderAction::Send(f)
                } else {
                    self.attempts = 0;
                    SenderAction::Failed(TransferError::Rejected)
                }
            },
            SendEvent::TransportFailed => {
                self.attempts = 0;
                SenderAction::Failed(TransferError::Transport)
            },
        }
    }
}

impl SendEvent {
    /// The event that a response read after sending a frame stands for: an acknowledgement
    /// delivers the frame; an error response, or bytes that are no response, reject it.
    pub fn from_response(r: &Result<Response, FrameError>) -> (e: SendEvent)
        ensures
            e == if r matches Ok(Response::Ack) {
                SendEvent::Delivered
            } else {
                SendEvent::Rejected
            },
    {
        match r {
            Ok(Response::Ack) => SendEvent::Delivered,
            _ => SendEvent::Rejected,
        }
    }
}

impl Outgoing {
    /// Where this frame stands in the list of a transfer of `total` chunks: Start first, then
    /// the chunks by counter, then End.
    pub fn position(self, total: u16) -> (r: usize)
        requires
            self matches Outgoing::Chunk(n) ==> n < total,
        ensures
            r == match self {
                Outgoing::Start => 0,
                Outgoing::Chunk(n) => n + 1,
                Outgoing::End => total + 1,
            },
    {
        match self {
            Outgoing::Start => 0,
            Outgoing::Chunk(n) => n as usize + 1,
            Outgoing::End => total as usize + 1,
        }
    }
}

/// Under the acknowledged policy, a frame that is rejected `k` times and then acknowledged is
/// sent exactly `k + 1` times: each rejection sends the same frame again, and the delivery
/// moves the transfer past it, as if it had gone through the first time.
pub proof fn lemma_retry_converges(s: Sender, k: nat)
    requires
        s.in_flight(),
        s.policy matches Policy::Acknowledged { max_sends },
        s.policy matches Policy::Acknowledged { max_sends: Some(m) } ==> s.attempts + k <= m,
    ensures
        ({
            let f = next_frame(s.state, s.total)->Some_0;
            let (after, actions) = run(s, rejected_then_delivered(k));
            &&& actions.len() == k + 1
            &&& forall|i: int| 0 <= i < k ==> actions[i] == SenderAction::Send(f)
            &&& actions[k as int] != SenderAction::Send(f)
            &&& (after, actions[k as int]) == step_spec(s, SendEvent::Delivered)
        }),
    decreases k,
{
    let f = next_frame(s.state, s.total)->Some_0;
    let events = rejected_then_delivered(k);
    assert(events[0] == if k == 0 {
        SendEvent::Delivered
    } else {
        SendEvent::Rejected
    });
    if k == 0 {
        assert(events =~= seq![SendEvent::Delivered]);
        assert(events.drop_first() =~= Seq::<SendEvent>::empty());
        let (s1, a) = step_spec(s, SendEvent::Delivered);
        assert(run(s1, events.drop_first()) == (s1, Seq::<SenderAction>::empty()));
        match f {
            Outgoing::Start => {},
            Outgoing::Chunk(n) => {
                assert(next_frame(delivered(f), s.total) != Some(Outgoing::Chunk(n)));
            },
            Outgoing::End => {},
        }
    } else {
        let (s1, a) = step_spec(s, SendEvent::Rejected);
        assert(a == SenderAction::Send(f));
        assert(events.drop_first() =~= rejected_then_delivered((k - 1) as nat));
        lemma_retry_converges(s1, (k - 1) as nat);
        assert(step_spec(s1, SendEvent::Delivered) == step_spec(s, SendEvent::Delivered));
    }
}

/// The `j`-th frame of a transfer of `total` chunks: Start, the chunks by counter, then End.
pub open spec fn frame_at(total: u16, j: int) -> Outgoing {
    if j == 0 {
        Outgoing::Start
    } else if j <= total {
        Outgoing::Chunk((j - 1) as u16)
    } else {
        Outgoing::End
    }
}

/// `k` deliveries in a row.
pub open spec fn all_delivered(k: nat) -> Seq<SendEvent> {
    Seq::new(k, |i: int| SendEvent::Delivered)
}

/// What the caller is told after each delivery, from frame `j` on: send the following frame,
/// and after End, stop.
pub open spec fn actions_from(total: u16, j: int) -> Seq<SenderAction> {
    Seq::new(
        (total + 2 - j) as nat,
        |i: int|
            if j + 1 + i <= total + 1 {
                SenderAction::Send(frame_at(total, j + 1 + i))
            } else {
                SenderAction::Finished
            },
    )
}

proof fn lemma_delivered_run(s: Sender, j: int)
    requires
        s.in_flight(),
        0 <= j <= s.total + 1,
        next_frame(s.state, s.total) == Some(frame_at(s.total, j)),
    ensures
        run(s, all_delivered((s.total + 2 - j) as nat)).0.state == SenderState::Ended,
        run(s, all_delivered((s.total + 2 - j) as nat)).1 == actions_from(s.total, j),
    decreases s.total + 2 - j,
{
    let k = (s.total + 2 - j) as nat;
    let events = all_delivered(k);
    let (s1, a) = step_spec(s, SendEvent::Delivered);
    assert(events[0] == SendEvent::Delivered);
    assert(events.drop_first() =~= all_delivered((k - 1) as nat));
    if j == s.total + 1 {
        assert(s1.state == SenderState::Ended);
        assert(events.drop_first() =~= Seq::<SendEvent>::empty());
        assert(run(s1, events.drop_first()) == (s1, Seq::<SenderAction>::empty()));
        assert(seq![a] =~= actions_from(s.total, j));
    } else {
        assert(next_frame(s1.state, s.total) == Some(frame_at(s.total, j + 1)));
        lemma_delivered_run(s1, j + 1);
        assert(seq![a] + actions_from(s.total, j + 1) =~= actions_from(s.total, j));
    }
}

/// When every frame is delivered, a transfer of `total` chunks sends Start, then the chunks
/// with counters `0` to `total - 1` in ascending order, then End, each exactly once, and then
/// reports that it has finished.
pub proof fn lemma_transfer_order(total: u16, policy: Policy)
    ensures
        ({
            let started = Sender { state: SenderState::Idle, total, policy, attempts: 1 };
            let (after, actions) = run(started, all_delivered((total + 2) as nat));
            &&& next_frame(SenderState::Idle, total) == Some(frame_at(total, 0))
            &&& actions.len() == total + 2
            &&& forall|i: int|
                0 <= i <= total ==> actions[i] == SenderAction::Send(frame_at(total, i + 1))
            &&& actions[total + 1] == SenderAction::Finished
            &&& after.state == SenderState::Ended
        }),
{
    let started = Sender { state: SenderState::Idle, total, policy, attempts: 1 };
    lemma_delivered_run(started, 0);
}

} // verus!
