//! Timeout and retry policy of one request/reply exchange, as a state
//! machine: the caller performs each action and reports what happened.
use vstd::prelude::*;

use crate::error::Error;

verus! {

/// The receive buffer that a reply is read into: the largest UDP payload.
pub const MAX_DATAGRAM: usize = 65535;

/// The receive buffer for a configured size: the size asked for, or the
/// largest UDP payload when none (0) or more than that is asked for.
pub fn receive_capacity(requested: usize) -> (r: usize)
    ensures
        r == if requested == 0 || requested > MAX_DATAGRAM { MAX_DATAGRAM } else { requested },
        1 <= r <= MAX_DATAGRAM,
{
    if requested == 0 || requested > MAX_DATAGRAM {
        MAX_DATAGRAM
    } else {
        requested
    }
}

/// What happened since the last action.
#[derive(Debug, Clone, Copy, PartialEq, Eq, Structural)]
pub enum Event {
    /// The request went out; `sent` of its `expected` bytes were taken.
    Sent { sent: usize, expected: usize },
    /// A datagram of `byte_count` bytes arrived in a buffer of `capacity` bytes.
    Received { byte_count: usize, capacity: usize },
    /// A datagram arrived from another address than the agent's, and the
    /// caller checks senders.
    Stray,
    /// No reply arrived within the deadline.
    TimedOut,
    /// The socket failed.
    IoFailed,
}

/// What the caller does next.
#[derive(Debug, Clone, Copy, PartialEq, Eq, Structural)]
pub enum Action {
    /// Send the encoded request (the same bytes, the same request id, each time).
    Send,
    /// Wait for a reply, up to the deadline.
    AwaitReply,
    /// Decode the received bytes.
    Decode,
    /// Give up with this error.
    Fail(Error),
}

/// The state of one exchange: how many sends were made, and how many
/// re-sends a timeout may cause.
#[derive(Debug, Clone, Copy, PartialEq, Eq, Structural)]
pub struct Exchange {
    pub max_retries: u32,
    pub sends: u64,
}

/// One transition: the next state and the action.
pub open spec fn step(s: Exchange, e: Event) -> (Exchange, Action) {
    match e {
        Event::Sent { sent, expected } => if sent == expected {
            (s, Action::AwaitReply)
        } else {
            (s, Action::Fail(Error::TransportError))
        },
        Event::Received { byte_count, capacity } => if byte_count >= capacity {
            (s, Action::Fail(Error::ResponseTooLarge))
        } else {
            (s, Action::Decode)
        },
        Event::Stray => (s, Action::AwaitReply),
        Event::TimedOut => if s.sends <= s.max_retries {
            (Exchange { sends: (s.sends + 1) as u64, ..s }, Action::Send)
        } else {
            (s, Action::Fail(Error::Timeout))
        },
        Event::IoFailed => (s, Action::Fail(Error::TransportError)),
    }
}

/// The state after the first send.
pub open spec fn started(max_retries: u32) -> Exchange {
    Exchange { max_retries, sends: 1 }
}

/// `k` timeouts in a row: the final state and the actions taken.
pub open spec fn timeouts(s: Exchange, k: nat) -> (Exchange, Seq<Action>)
    decreases k,
{
    if k == 0 {
        (s, Seq::empty())
    } else {
        let (s1, a) = step(s, Event::TimedOut);
        let (s2, rest) = timeouts(s1, (k - 1) as nat);
        (s2, seq![a] + rest)
    }
}

impl Exchange {
    pub open spec fn wf(&self) -> bool {
        1 <= self.sends <= self.max_retries as u64 + 1
    }

    /// Begins an exchange: the caller sends the request once.
    pub fn start(max_retries: u32) -> (r: (Exchange, Action))
        ensures
            r.0 == started(max_retries),
            r.1 == Action::Send,
            r.0.wf(),
    {
        (Exchange { max_retries, sends: 1 }, Action::Send)
    }

    /// Takes in what happened and says what to do next.
    pub fn on_event(&mut self, e: Event) -> (r: Action)
        requires
            old(self).wf(),
        ensures
            (*final(self), r) == step(*old(self), e),
            final(self).wf(),
    {
        match e {
            Event::Sent { sent, expected } => {
                if sent == expected {
                    Action::AwaitReply
                } else {
                    Action::Fail(Error::TransportError)
                }
            },
            Event::Received { byte_count, capacity } => {
                if byte_count >= capacity {
                    Action::Fail(Error::ResponseTooLarge)
                } else {
                    Action::Decode
                }
            },
            Event::Stray => Action::AwaitReply,
            Event::TimedOut => {
                if self.sends <= self.max_retries as u64 {
                    self.sends = self.sends + 1;
                    Action::Send
                } else {
                    Action::Fail(Error::Timeout)
                }
            },
            Event::IoFailed => Action::Fail(Error::TransportError),
        }
    }
}

proof fn lemma_timeouts_from(s: Exchange, k: nat)
    requires
        s.wf(),
        k >= 1,
        s.sends + k == s.max_retries + 2,
    ensures
        timeouts(s, k).1.len() == k,
        forall|j: int| 0 <= j < k - 1 ==> #[trigger] timeouts(s, k).1[j] == Action::Send,
        timeouts(s, k).1[k - 1] == Action::Fail(Error::Timeout),
        timeouts(s, k).0.sends == s.max_retries + 1,
    decreases k,
{
    if k > 1 {
        let s1 = step(s, Event::TimedOut).0;
        lemma_timeouts_from(s1, (k - 1) as nat);
        let rest = timeouts(s1, (k - 1) as nat).1;
        assert forall|j: int| 0 <= j < k - 1 implies #[trigger] timeouts(s, k).1[j] == Action::Send by {
            if j > 0 {
                assert(timeouts(s, k).1[j] == rest[j - 1]);
            }
        }
    } else {
        assert(timeouts(step(s, Event::TimedOut).0, 0).1.len() == 0);
    }
}

/// When no reply ever comes, an exchange sends exactly `max_retries + 1`
/// times (the first send and one per timeout but the last) and then fails
/// with `Timeout`.
pub proof fn lemma_retries_exhausted(max_retries: u32)
    ensures
        ({
            let (s, acts) = timeouts(started(max_retries), max_retries as nat + 1);
            &&& acts.len() == max_retries + 1
            &&& forall|j: int| 0 <= j < max_retries ==> #[trigger] acts[j] == Action::Send
            &&& acts[max_retries as int] == Action::Fail(Error::Timeout)
            &&& s.sends == max_retries + 1
        }),
{
    lemma_timeouts_from(started(max_retries), max_retries as nat + 1);
}

} // verus!
