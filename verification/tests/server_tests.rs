use http::limited_reader::LimitedReader;
use http::server::{
    listener_action, polling_accept_step, polling_backoff, polling_close_after_reply, polling_conn_action, reply,
    tpc_accept_step, tpc_backoff, tpc_close_after_reply, tpc_conn_action, AcceptOutcome,
    ConnAction, ListenerAction, Probe, TpcAccept, TpcStep,
};
use http::{Handler, PollingServer, Request, Response, TPCServer};

struct EmptyHandler {}

impl Handler for EmptyHandler {
    fn serve_http(&self, _r: Request) -> Response {
        Response {}
    }
}

#[test]
fn server_defaults() {
    let t = TPCServer::new(EmptyHandler {});
    assert_eq!(t.max_header_bytes(), 1 << 20);
    let p = PollingServer::new(EmptyHandler {});
    assert_eq!(p.max_header_bytes(), 1 << 20);
    assert_eq!(p.concurrency(), 32);
}

#[test]
fn backoff_sequence() {
    let mut a = 0;
    let mut b = 0;
    let mut seen = Vec::new();
    for _ in 0..10 {
        a = tpc_backoff(a);
        b = polling_backoff(b);
        assert_eq!(a, b);
        seen.push(a);
    }
    assert_eq!(seen, vec![5, 10, 20, 40, 80, 160, 320, 640, 1000, 1000]);
    assert_eq!(tpc_backoff(u64::MAX), 1000);
}

#[test]
fn connection_decisions() {
    assert_eq!(polling_conn_action(true, Probe::Ready), ConnAction::Close);
    assert_eq!(polling_conn_action(false, Probe::Ready), ConnAction::ReadRequest);
    assert_eq!(polling_conn_action(false, Probe::WouldBlock), ConnAction::Wait);
    assert_eq!(polling_conn_action(false, Probe::Closed), ConnAction::Close);
    assert_eq!(tpc_conn_action(Probe::WouldBlock), ConnAction::Close);
    assert!(polling_close_after_reply(false, true));
    assert!(!polling_close_after_reply(true, true));
    assert!(tpc_close_after_reply(false));
    assert_eq!(listener_action(AcceptOutcome::Failed), ListenerAction::BackOff);
    assert_eq!(listener_action(AcceptOutcome::WouldBlock), ListenerAction::Wait);
    assert_eq!(listener_action(AcceptOutcome::Accepted), ListenerAction::Register);
}

#[test]
fn replies() {
    let ok = reply(true);
    assert_eq!(ok.len(), 92);
    assert!(ok.ends_with(b"Hello, World!"));
    let bad = reply(false);
    assert_eq!(bad.len(), 103);
    assert!(bad.starts_with(b"HTTP/1.1 400 Bad Request\r\n"));
}

#[test]
fn limited_reader_budget() {
    let mut r = LimitedReader::new(vec![1u8, 2, 3], None);
    assert_eq!(r.read_len(10), 10);
    r.set_limit(4);
    assert_eq!(r.read_len(10), 4);
    r.consume(3);
    assert_eq!(r.read_len(10), 1);
    r.unset_limit();
    assert_eq!(r.read_len(7), 7);
    r.get_mut().push(4);
    assert_eq!(r.get_ref().len(), 4);
    assert_eq!(r.inner(), vec![1, 2, 3, 4]);
}

#[test]
fn accept_loop_steps() {
    assert_eq!(tpc_accept_step(0, TpcAccept::Failed), (TpcStep::Sleep(5), 5));
    assert_eq!(tpc_accept_step(640, TpcAccept::Failed), (TpcStep::Sleep(1000), 1000));
    assert_eq!(tpc_accept_step(40, TpcAccept::Ready), (TpcStep::Serve, 0));
    assert_eq!(tpc_accept_step(40, TpcAccept::SetupFailed), (TpcStep::Stop, 40));
}

#[test]
fn polling_accept_steps() {
    assert_eq!(polling_accept_step(80, AcceptOutcome::Accepted), (ListenerAction::Register, 0));
    assert_eq!(polling_accept_step(80, AcceptOutcome::WouldBlock), (ListenerAction::Wait, 80));
    assert_eq!(polling_accept_step(80, AcceptOutcome::Failed), (ListenerAction::BackOff, 160));
    assert_eq!(polling_accept_step(0, AcceptOutcome::Failed), (ListenerAction::BackOff, 5));
    assert_eq!(polling_accept_step(600, AcceptOutcome::Failed), (ListenerAction::BackOff, 1000));
}
