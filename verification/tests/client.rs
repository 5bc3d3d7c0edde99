use webserv::client::{Client, ReadEvent};
use webserv::event::{dispatch, EventAction, RateLimiter};
use webserv::request::{BodyMode, ChunkState};

#[test]
fn client_new_is_empty() {
    let c = Client::new(7, 3);
    assert_eq!(c.fd, 7);
    assert_eq!(c.listener_fd, 3);
    assert!(c.read_buf.is_empty());
    assert!(c.request.is_none());
    assert_eq!(c.write_offset, 0);
}

#[test]
fn client_get_completes_with_head() {
    let mut c = Client::new(1, 2);
    let ev = c.on_bytes(b"GET /index.html HTTP/1.1\r\nHost: localhost\r\n\r\nextra");
    match ev {
        ReadEvent::Complete(req) => {
            assert_eq!(req.method.as_deref(), Some("GET"));
            assert_eq!(req.path.as_deref(), Some("/index.html"));
            assert_eq!(req.version, Some(1));
            assert_eq!(req.body_mode, BodyMode::NoBody);
            let hs = req.headers.unwrap();
            assert_eq!(hs.len(), 1);
            assert_eq!(hs[0].0, "Host");
            assert_eq!(hs[0].1, b"localhost".to_vec());
        }
        _ => panic!("expected a complete request"),
    }
    assert!(c.request.is_none());
    assert_eq!(c.read_buf, b"extra".to_vec());
}

#[test]
fn client_partial_head_waits() {
    let mut c = Client::new(1, 2);
    assert!(matches!(c.on_bytes(b"GET / HTTP/1.1\r\nHost: a"), ReadEvent::Pending));
    assert!(c.request.is_none());
    assert!(matches!(c.on_bytes(b"\r\n\r\n"), ReadEvent::Complete(_)));
}

#[test]
fn client_content_length_body_in_two_reads() {
    let mut c = Client::new(1, 2);
    let ev = c.on_bytes(b"POST /up HTTP/1.1\r\nHost: a\r\nContent-Length: 5\r\n\r\nhel");
    assert!(matches!(ev, ReadEvent::Pending));
    assert!(c.request.is_some());
    assert_eq!(c.read_buf, b"hel".to_vec());
    match c.on_bytes(b"loXY") {
        ReadEvent::Complete(req) => {
            assert_eq!(req.body, b"hello".to_vec());
            assert_eq!(req.body_mode, BodyMode::ContentLength(5));
        }
        _ => panic!("expected a complete request"),
    }
    assert_eq!(c.read_buf, b"XY".to_vec());
}

#[test]
fn client_chunked_body_never_completes() {
    let mut c = Client::new(1, 2);
    let ev = c.on_bytes(
        b"POST / HTTP/1.1\r\nHost: a\r\nTransfer-Encoding: chunked\r\n\r\n3\r\nabc\r\n0\r\n\r\n",
    );
    assert!(matches!(ev, ReadEvent::Pending));
    assert_eq!(c.chunked_body, b"abc".to_vec());
    assert_eq!(c.chunk_state, Some(ChunkState::Size));
}

#[test]
fn client_malformed_chunk_closes() {
    let mut c = Client::new(1, 2);
    let ev = c.on_bytes(b"POST / HTTP/1.1\r\nHost: a\r\nTransfer-Encoding: chunked\r\n\r\nxyz\r\n");
    assert!(matches!(ev, ReadEvent::Close));
}

#[test]
fn client_content_length_not_utf8() {
    let mut c = Client::new(1, 2);
    let mut bytes = b"POST / HTTP/1.1\r\nContent-Length: ".to_vec();
    bytes.push(0xff);
    bytes.extend_from_slice(b"\r\n\r\n");
    assert!(matches!(c.on_bytes(&bytes), ReadEvent::InvalidContentLength));
}

#[test]
fn client_write_progress() {
    let mut c = Client::new(1, 2);
    c.set_response(b"HTTP/1.1 200 OK\r\n".to_vec());
    assert!(c.write_pending());
    c.written(5);
    assert_eq!(c.unwritten(), b"1.1 200 OK\r\n");
    c.written(12);
    assert!(!c.write_pending());
}

#[test]
fn rate_limiter_serves_254_per_window() {
    let mut rl = RateLimiter::new();
    let mut served = 0;
    for _ in 0..300 {
        if rl.count_event() {
            served += 1;
        }
    }
    assert_eq!(served, 254);
    assert!(!rl.tick(999));
    assert!(!rl.count_event());
    assert!(rl.tick(1000));
    assert!(rl.count_event());
}

#[test]
fn dispatch_decisions() {
    assert_eq!(dispatch(true, true, false, true, false), EventAction::Accept);
    assert_eq!(dispatch(true, false, true, true, true), EventAction::Read);
    assert_eq!(dispatch(true, false, true, false, true), EventAction::Write);
    assert_eq!(dispatch(true, false, true, false, false), EventAction::Ignore);
    assert_eq!(dispatch(false, false, true, true, false), EventAction::Reject);
    assert_eq!(dispatch(false, true, false, true, false), EventAction::Ignore);
}

#[test]
fn rate_limiter_window_of_events() {
    let mut rl = RateLimiter::new();
    let mut served = 0;
    for i in 0..300 {
        let is_client = i % 2 == 0;
        let a = rl.on_event(!is_client, is_client, true, false);
        match a {
            EventAction::Accept | EventAction::Read | EventAction::Write => served += 1,
            EventAction::Reject => assert!(i >= 254 && is_client),
            EventAction::Ignore => assert!(i >= 254 && !is_client),
        }
    }
    assert_eq!(served, 254);
    assert!(rl.tick(1000));
    assert_eq!(rl.on_event(false, true, true, false), EventAction::Read);
}
