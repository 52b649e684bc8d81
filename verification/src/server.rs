//! The servers' configuration and the decisions their connection loops
//! make; the loops themselves, with their sockets, threads and epoll
//! calls, run around these functions.
use vstd::prelude::*;

use crate::request::{Request, Response};

verus! {

/// Serves requests.
pub trait Handler {
    fn serve_http(&self, r: Request) -> Response;
}

/// The default limit on the bytes of one request-head line.
pub open spec fn default_max_header_bytes() -> usize {
    1048576
}

/// A server with one thread per connection.
pub struct TPCServer<T: Handler + Send + Sync> {
    handler: T,
    max_header_bytes: usize,
}

impl<T: Handler + Send + Sync> TPCServer<T> {
    pub closed spec fn handler_spec(&self) -> T {
        self.handler
    }

    pub closed spec fn max_header_bytes_spec(&self) -> usize {
        self.max_header_bytes
    }

    /// A server for `h` that allows 1 MiB per header line.
    pub fn new(h: T) -> (r: Self)
        ensures
            r.handler_spec() == h,
            r.max_header_bytes_spec() == default_max_header_bytes(),
    {
        Self { handler: h, max_header_bytes: 1048576 }
    }

    /// The request handler.
    pub fn handler(&self) -> (r: &T)
        ensures
            *r == self.handler_spec(),
    {
        &self.handler
    }

    /// The limit on the bytes of one request-head line.
    pub fn max_header_bytes(&self) -> (r: usize)
        ensures
            r == self.max_header_bytes_spec(),
    {
        self.max_header_bytes
    }
}

/// A server whose worker threads share one epoll instance.
pub struct PollingServer<T: Handler + Send + Sync> {
    handler: T,
    max_header_bytes: usize,
    concurrency: usize,
}

impl<T: Handler + Send + Sync> PollingServer<T> {
    pub closed spec fn handler_spec(&self) -> T {
        self.handler
    }

    pub closed spec fn max_header_bytes_spec(&self) -> usize {
        self.max_header_bytes
    }

    pub closed spec fn concurrency_spec(&self) -> usize {
        self.concurrency
    }

    /// A server for `h` that allows 1 MiB per header line and runs 32 workers.
    pub fn new(h: T) -> (r: Self)
        ensures
            r.handler_spec() == h,
            r.max_header_bytes_spec() == default_max_header_bytes(),
            r.concurrency_spec() == 32,
    {
        Self { handler: h, max_header_bytes: 1048576, concurrency: 32 }
    }

    /// The request handler.
    pub fn handler(&self) -> (r: &T)
        ensures
            *r == self.handler_spec(),
    {
        &self.handler
    }

    /// The limit on the bytes of one request-head line.
    pub fn max_header_bytes(&self) -> (r: usize)
        ensures
            r == self.max_header_bytes_spec(),
    {
        self.max_header_bytes
    }

    /// The number of worker threads.
    pub fn concurrency(&self) -> (r: usize)
        ensures
            r == self.concurrency_spec(),
    {
        self.concurrency
    }
}

// ---------------------------------------------------------------------
// Replies
// ---------------------------------------------------------------------

/// The reply to a request head that was read.
pub open spec fn hello_text() -> Seq<char> {
    "HTTP/1.1 200 OK\r\nContent-Type: text/html; charset=UTF-8\r\nContent-Length: 13\r\n\r\nHello, World!"@
}

/// The reply to a request head that was refused.
pub open spec fn bad_request_text() -> Seq<char> {
    "HTTP/1.1 400 Bad Request\r\nContent-Type: text/plain; charset=utf-8\r\nConnection: close\r\n\r\n400 Bad Request"@
}

/// The bytes sent after reading a request head: `200 OK` with a greeting,
/// or `400 Bad Request` when the head was refused.
pub fn reply(head_ok: bool) -> (r: &'static [u8])
    ensures
        r@ == vstd::utf8::encode_utf8(if head_ok {
            hello_text()
        } else {
            bad_request_text()
        }),
{
    if head_ok {
        "HTTP/1.1 200 OK\r\nContent-Type: text/html; charset=UTF-8\r\nContent-Length: 13\r\n\r\nHello, World!".as_bytes()
    } else {
        "HTTP/1.1 400 Bad Request\r\nContent-Type: text/plain; charset=utf-8\r\nConnection: close\r\n\r\n400 Bad Request".as_bytes()
    }
}

// ---------------------------------------------------------------------
// Connections
// ---------------------------------------------------------------------

/// What asking a connection whether it has data left gave.
#[derive(Debug, Clone, Copy, PartialEq, Eq, Structural)]
pub enum Probe {
    /// Data is waiting.
    Ready,
    /// Nothing yet, and the socket would block.
    WouldBlock,
    /// End of stream, or an error.
    Closed,
}

/// What a worker does with a connection.
#[derive(Debug, Clone, Copy, PartialEq, Eq, Structural)]
pub enum ConnAction {
    /// Read a request head and reply.
    ReadRequest,
    /// Leave it until the next event.
    Wait,
    /// Stop watching it.
    Close,
}

/// The polling server's decision on a connection event: a hang-up closes
/// it; otherwise the probe decides.
pub fn polling_conn_action(hang_up: bool, probe: Probe) -> (r: ConnAction)
    ensures
        r == if hang_up {
            ConnAction::Close
        } else {
            match probe {
                Probe::Ready => ConnAction::ReadRequest,
                Probe::WouldBlock => ConnAction::Wait,
                Probe::Closed => ConnAction::Close,
            }
        },
{
    if hang_up {
        return ConnAction::Close;
    }
    match probe {
        Probe::Ready => ConnAction::ReadRequest,
        Probe::WouldBlock => ConnAction::Wait,
        Probe::Closed => ConnAction::Close,
    }
}

/// The thread-per-connection server's decision: it keeps reading while
/// data is waiting and ends the connection otherwise.
pub fn tpc_conn_action(probe: Probe) -> (r: ConnAction)
    ensures
        r == if probe == Probe::Ready {
            ConnAction::ReadRequest
        } else {
            ConnAction::Close
        },
{
    match probe {
        Probe::Ready => ConnAction::ReadRequest,
        _ => ConnAction::Close,
    }
}

/// Whether the polling server drops a connection after replying: only when
/// the head was refused and the reply met a broken pipe.
pub fn polling_close_after_reply(head_ok: bool, broken_pipe: bool) -> (r: bool)
    ensures
        r == (!head_ok && broken_pipe),
{
    !head_ok && broken_pipe
}

/// Whether the thread-per-connection server ends a connection after
/// replying: whenever the head was refused.
pub fn tpc_close_after_reply(head_ok: bool) -> (r: bool)
    ensures
        r == !head_ok,
{
    !head_ok
}

// ---------------------------------------------------------------------
// Accepting
// ---------------------------------------------------------------------

/// What accepting on the listener gave.
#[derive(Debug, Clone, Copy, PartialEq, Eq, Structural)]
pub enum AcceptOutcome {
    Accepted,
    WouldBlock,
    Failed,
}

/// What the polling server does after an accept.
#[derive(Debug, Clone, Copy, PartialEq, Eq, Structural)]
pub enum ListenerAction {
    /// Reset the back-off and watch the new connection.
    Register,
    /// Nothing to accept now.
    Wait,
    /// Pause accepting for a while.
    BackOff,
}

pub fn listener_action(outcome: AcceptOutcome) -> (r: ListenerAction)
    ensures
        r == match outcome {
            AcceptOutcome::Accepted => ListenerAction::Register,
            AcceptOutcome::WouldBlock => ListenerAction::Wait,
            AcceptOutcome::Failed => ListenerAction::BackOff,
        },
{
    match outcome {
        AcceptOutcome::Accepted => ListenerAction::Register,
        AcceptOutcome::WouldBlock => ListenerAction::Wait,
        AcceptOutcome::Failed => ListenerAction::BackOff,
    }
}

/// The pause after a failed accept, in milliseconds, given the previous
/// one: 5 ms first, then doubled, at most 1 s.
pub open spec fn next_backoff(prev: u64) -> u64 {
    if prev == 0 {
        5
    } else if prev < 500 {
        (2 * prev) as u64
    } else {
        1000
    }
}

/// The thread-per-connection server's pause after a failed accept:
/// 5 ms, or twice the previous one (saturating), at most 1000 ms.
pub fn tpc_backoff(prev_ms: u64) -> (r: u64)
    ensures
        r == if prev_ms == 0 {
            5
        } else if prev_ms > 500 {
            1000
        } else {
            (2 * prev_ms) as u64
        },
{
    if prev_ms == 0 {
        5
    } else {
        let doubled = if prev_ms > u64::MAX / 2 {
            u64::MAX
        } else {
            prev_ms * 2
        };
        if doubled < 1000 {
            doubled
        } else {
            1000
        }
    }
}

/// One accept of the polling server, from the current back-off (in
/// milliseconds) and what the accept gave: what to do, and the back-off
/// afterwards. An accepted connection is registered and resets the back-off
/// to 0; nothing to accept leaves it as it was; a failed accept backs off,
/// for the next pause of `next_backoff`.
pub fn polling_accept_step(backoff_ms: u64, outcome: AcceptOutcome) -> (r: (ListenerAction, u64))
    ensures
        r == match outcome {
            AcceptOutcome::Accepted => (ListenerAction::Register, 0u64),
            AcceptOutcome::WouldBlock => (ListenerAction::Wait, backoff_ms),
            AcceptOutcome::Failed => (ListenerAction::BackOff, next_backoff(backoff_ms)),
        },
{
    let action = listener_action(outcome);
    match outcome {
        AcceptOutcome::Accepted => (action, 0),
        AcceptOutcome::WouldBlock => (action, backoff_ms),
        AcceptOutcome::Failed => (action, polling_backoff(backoff_ms)),
    }
}

/// What the thread-per-connection server's accept loop learned about the
/// next connection.
#[derive(Debug, Clone, Copy, PartialEq, Eq, Structural)]
pub enum TpcAccept {
    /// Accepting failed.
    Failed,
    /// A stream was accepted and made ready for use.
    Ready,
    /// A stream was accepted, but making it ready (the TLS setup) failed.
    SetupFailed,
}

/// What the thread-per-connection server's accept loop does next.
#[derive(Debug, Clone, Copy, PartialEq, Eq, Structural)]
pub enum TpcStep {
    /// Pause for this many milliseconds, then accept again.
    Sleep(u64),
    /// Serve the stream on a thread of its own, then accept again.
    Serve,
    /// Stop accepting.
    Stop,
}

/// One step of the thread-per-connection server's accept loop, from the
/// current back-off (in milliseconds) and what the accept gave: the step,
/// and the back-off afterwards. A failed accept backs off further, a ready
/// stream is served and resets the back-off, and a failed setup stops the
/// loop.
pub fn tpc_accept_step(backoff_ms: u64, event: TpcAccept) -> (r: (TpcStep, u64))
    ensures
        match event {
            TpcAccept::Failed => r.0 == TpcStep::Sleep(r.1) && r.1 == (if backoff_ms == 0 {
                5
            } else if backoff_ms > 500 {
                1000
            } else {
                (2 * backoff_ms) as u64
            }),
            TpcAccept::Ready => r == (TpcStep::Serve, 0u64),
            TpcAccept::SetupFailed => r == (TpcStep::Stop, backoff_ms),
        },
{
    match event {
        TpcAccept::Failed => {
            let next = tpc_backoff(backoff_ms);
            (TpcStep::Sleep(next), next)
        },
        TpcAccept::Ready => (TpcStep::Serve, 0),
        TpcAccept::SetupFailed => (TpcStep::Stop, backoff_ms),
    }
}

/// The polling server's pause after a failed accept.
pub fn polling_backoff(prev_ms: u64) -> (r: u64)
    ensures
        r == next_backoff(prev_ms),
{
    if prev_ms == 0 {
        5
    } else if prev_ms < 500 {
        prev_ms * 2
    } else {
        1000
    }
}

/// Both servers back off alike: from any previous pause they choose the same
/// next one, which is positive, at most 1 s, and does not shrink.
pub proof fn law_backoff_policies_agree(prev: u64)
    ensures
        (if prev == 0 {
            5
        } else if prev > 500 {
            1000
        } else {
            (2 * prev) as u64
        }) == next_backoff(prev),
        0 < next_backoff(prev) <= 1000,
        prev <= 1000 ==> prev <= next_backoff(prev),
{
}

} // verus!
