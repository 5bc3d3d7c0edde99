//! The decisions of the event loop: the rate limiter, what to do with a
//! ready file descriptor, and how far a response has been written.
use vstd::prelude::*;
use crate::client::Client;

verus! {

/// The file of the server configuration.
pub const CONFIG_PATH: &'static str = "config.conf";
/// How many readiness events one wait can return.
pub const MAX_EVENTS: usize = 255;
/// How many bytes one read takes.
pub const BUFFER_SIZE: usize = 8192;
/// The length of the rate limiter's window, in milliseconds.
pub const RATELIMITER_WINDOW: u64 = 1000;
/// The count of events in one window from which events are refused.
pub const RATELIMITER_REQUEST_NUMBER: i32 = 255;

/// The event counted as the `n`-th of its window is served.
pub open spec fn admits(n: int) -> bool {
    n < RATELIMITER_REQUEST_NUMBER
}

/// How many of the first `k` events of a window are served: a window starts
/// with the count at 0 (`RateLimiter::new`, or `tick` when it resets), and
/// `count_event` adds one to the count and serves the event whose new count
/// `admits`.
pub open spec fn served_in_window(k: nat) -> nat
    decreases k,
{
    if k == 0 {
        0
    } else {
        served_in_window((k - 1) as nat) + if admits(k as int) {
            1nat
        } else {
            0nat
        }
    }
}

/// Between two resets of the rate limiter, at most
/// `RATELIMITER_REQUEST_NUMBER - 1` events are served: the first ones, up
/// to that many, and none after them.
pub proof fn lemma_window_bound(k: nat)
    ensures
        served_in_window(k) <= RATELIMITER_REQUEST_NUMBER - 1,
        served_in_window(k) == if k < RATELIMITER_REQUEST_NUMBER {
            k
        } else {
            (RATELIMITER_REQUEST_NUMBER - 1) as nat
        },
    decreases k,
{
    if k > 0 {
        lemma_window_bound((k - 1) as nat);
    }
}

/// Counts the events of the current window.
pub struct RateLimiter {
    pub nb_event: i32,
}

impl RateLimiter {
    /// A limiter at the start of a window.
    pub fn new() -> (r: RateLimiter)
        ensures
            r.nb_event == 0,
    {
        RateLimiter { nb_event: 0 }
    }

    /// Starts a new window when the current one has lasted
    /// `RATELIMITER_WINDOW` milliseconds; `true` when it did.
    pub fn tick(&mut self, elapsed_ms: u64) -> (reset: bool)
        ensures
            reset == (elapsed_ms >= RATELIMITER_WINDOW),
            reset ==> final(self).nb_event == 0,
            !reset ==> final(self).nb_event == old(self).nb_event,
    {
        if elapsed_ms >= RATELIMITER_WINDOW {
            self.nb_event = 0;
            true
        } else {
            false
        }
    }

    /// Counts one event; `true` when it is to be served, that is while
    /// fewer than `RATELIMITER_REQUEST_NUMBER` events have been counted in
    /// the window.
    pub fn count_event(&mut self) -> (ok: bool)
        requires
            old(self).nb_event < i32::MAX,
        ensures
            final(self).nb_event == old(self).nb_event + 1,
            ok == admits(final(self).nb_event as int),
    {
        self.nb_event = self.nb_event + 1;
        self.nb_event < RATELIMITER_REQUEST_NUMBER
    }
}

/// What to do with a ready file descriptor.
#[derive(Debug, PartialEq, Eq, Structural, Clone, Copy)]
pub enum EventAction {
    /// Accept the clients waiting on a listener.
    Accept,
    /// Read from a client.
    Read,
    /// Write to a client.
    Write,
    /// Send the client the `429` page and close it.
    Reject,
    /// Nothing.
    Ignore,
}

/// The action for a ready descriptor: with the event admitted, accept on a
/// listener, else read a readable client, else write a writable one;
/// with the event refused, reject it if it is a known client.
pub open spec fn event_action(admitted: bool, is_listener: bool, is_client: bool, readable: bool, writable: bool) -> EventAction {
    if admitted {
        if is_listener {
            EventAction::Accept
        } else if readable {
            EventAction::Read
        } else if writable {
            EventAction::Write
        } else {
            EventAction::Ignore
        }
    } else if is_client {
        EventAction::Reject
    } else {
        EventAction::Ignore
    }
}

/// Decides what to do with a ready descriptor.
pub fn dispatch(admitted: bool, is_listener: bool, is_client: bool, readable: bool, writable: bool) -> (r:
    EventAction)
    ensures
        r == event_action(admitted, is_listener, is_client, readable, writable),
{
    if admitted {
        if is_listener {
            EventAction::Accept
        } else if readable {
            EventAction::Read
        } else if writable {
            EventAction::Write
        } else {
            EventAction::Ignore
        }
    } else if is_client {
        EventAction::Reject
    } else {
        EventAction::Ignore
    }
}

impl RateLimiter {
    /// Counts a ready descriptor's event and decides what to do with it.
    pub fn on_event(&mut self, is_listener: bool, is_client: bool, readable: bool, writable: bool) -> (r:
        EventAction)
        requires
            old(self).nb_event < i32::MAX,
        ensures
            final(self).nb_event == old(self).nb_event + 1,
            r == event_action(
                admits(final(self).nb_event as int),
                is_listener,
                is_client,
                readable,
                writable,
            ),
    {
        let admitted = self.count_event();
        dispatch(admitted, is_listener, is_client, readable, writable)
    }
}

/// What a ready descriptor is: a listener, a known client, readable, writable.
pub type Readiness = (bool, bool, bool, bool);

/// The actions taken on the events of one window, in order: the window
/// starts with the count at 0, and [`RateLimiter::on_event`] counts the
/// `i`-th event (from 0) as the `i + 1`-th of the window.
pub open spec fn window_actions(evs: Seq<Readiness>) -> Seq<EventAction> {
    Seq::new(evs.len(), |i: int| event_action(admits(i + 1), evs[i].0, evs[i].1, evs[i].2, evs[i].3))
}

/// The action serves the event: it accepts, reads or writes.
pub open spec fn is_served(a: EventAction) -> bool {
    a == EventAction::Accept || a == EventAction::Read || a == EventAction::Write
}

/// How many of the actions serve their event.
pub open spec fn served_count(acts: Seq<EventAction>) -> nat
    decreases acts.len(),
{
    if acts.len() == 0 {
        0
    } else {
        served_count(acts.drop_last()) + if is_served(acts.last()) {
            1nat
        } else {
            0nat
        }
    }
}

proof fn lemma_served_prefix(evs: Seq<Readiness>, n: int)
    requires
        0 <= n <= evs.len(),
    ensures
        served_count(window_actions(evs).take(n)) <= if n < RATELIMITER_REQUEST_NUMBER {
            n
        } else {
            RATELIMITER_REQUEST_NUMBER - 1
        },
    decreases n,
{
    let acts = window_actions(evs);
    if n > 0 {
        lemma_served_prefix(evs, n - 1);
        assert(acts.take(n).drop_last() =~= acts.take(n - 1));
        assert(acts.take(n).last() == acts[n - 1]);
    }
}

/// Between two resets of the rate limiter at most
/// `RATELIMITER_REQUEST_NUMBER - 1` events are accepted, read or written;
/// from the `RATELIMITER_REQUEST_NUMBER`-th event of the window on, a
/// client's event is rejected (it gets the 429 page and is closed) and any
/// other event is ignored.
pub proof fn lemma_window_actions(evs: Seq<Readiness>)
    ensures
        served_count(window_actions(evs)) <= RATELIMITER_REQUEST_NUMBER - 1,
        forall|i: int|
            RATELIMITER_REQUEST_NUMBER - 1 <= i < evs.len() ==> #[trigger] window_actions(evs)[i]
                == if evs[i].1 {
                EventAction::Reject
            } else {
                EventAction::Ignore
            },
{
    lemma_served_prefix(evs, evs.len() as int);
    assert(window_actions(evs).take(evs.len() as int) =~= window_actions(evs));
}

impl Client {
    /// Sets the response to write, from its start.
    pub fn set_response(&mut self, bytes: Vec<u8>)
        ensures
            final(self)@ == (crate::client::ClientView { write_buf: bytes@, ..old(self)@ }),
    {
        self.write_buf = bytes;
    }

    /// Some of the response is still to be written.
    pub fn write_pending(&self) -> (r: bool)
        ensures
            r == (self.write_offset < self.write_buf@.len()),
    {
        self.write_offset < self.write_buf.len()
    }

    /// The bytes of the response not yet written.
    pub fn unwritten(&self) -> (r: &[u8])
        requires
            self.write_offset <= self.write_buf@.len(),
        ensures
            r@ == self.write_buf@.skip(self.write_offset as int),
    {
        let s = self.write_buf.as_slice();
        let (_, rest) = s.split_at(self.write_offset);
        rest
    }

    /// Records that `n` more bytes of the response were written.
    pub fn written(&mut self, n: usize)
        requires
            old(self).write_offset + n <= old(self).write_buf.len(),
        ensures
            final(self)@ == (crate::client::ClientView {
                write_offset: (old(self).write_offset + n) as usize,
                ..old(self)@
            }),
    {
        self.write_offset = self.write_offset + n;
    }
}

} // verus!
