use webserv::request::{
    body_mode_of_headers, determine_body_mode, find_crlf, process_chunked, BodyMode, ChunkState,
};

fn run(state: ChunkState, input: &[u8]) -> (Result<bool, ()>, ChunkState, Vec<u8>, Vec<u8>) {
    let mut st = state;
    let mut buf = input.to_vec();
    let mut body = Vec::new();
    let r = process_chunked(&mut st, &mut buf, &mut body);
    (r, st, buf, body)
}

#[test]
fn chunked_single_chunk_then_last_chunk() {
    let (r, st, buf, body) = run(ChunkState::Size, b"5\r\nhello\r\n0\r\n\r\n");
    assert_eq!(r, Ok(false));
    assert_eq!(st, ChunkState::Size);
    assert_eq!(body, b"hello".to_vec());
    assert!(buf.is_empty());
}

#[test]
fn chunked_two_chunks_in_order() {
    let (r, st, buf, body) = run(ChunkState::Size, b"3\r\nabc\r\na\r\n0123456789\r\n");
    assert_eq!(r, Ok(false));
    assert_eq!(st, ChunkState::Size);
    assert_eq!(body, b"abc0123456789".to_vec());
    assert!(buf.is_empty());
}

#[test]
fn chunked_size_line_is_trimmed_and_hex() {
    let (r, st, _, body) = run(ChunkState::Size, b"  A \r\n0123456789\r\n");
    assert_eq!(r, Ok(false));
    assert_eq!(st, ChunkState::Size);
    assert_eq!(body, b"0123456789".to_vec());
}

#[test]
fn chunked_partial_data_waits() {
    let (r, st, buf, body) = run(ChunkState::Size, b"8\r\nabc");
    assert_eq!(r, Ok(false));
    assert_eq!(st, ChunkState::Data { remaining: 5 });
    assert_eq!(body, b"abc".to_vec());
    assert!(buf.is_empty());
}

#[test]
fn chunked_incomplete_size_line_waits() {
    let (r, st, buf, body) = run(ChunkState::Size, b"1f");
    assert_eq!(r, Ok(false));
    assert_eq!(st, ChunkState::Size);
    assert_eq!(buf, b"1f".to_vec());
    assert!(body.is_empty());
}

#[test]
fn chunked_bad_size_is_an_error() {
    let (r, st, buf, _) = run(ChunkState::Size, b"zz\r\nab\r\n");
    assert_eq!(r, Err(()));
    assert_eq!(st, ChunkState::Size);
    assert_eq!(buf, b"zz\r\nab\r\n".to_vec());
}

#[test]
fn chunked_plus_sign_accepted_minus_refused() {
    let (r, _, _, body) = run(ChunkState::Size, b"+2\r\nok\r\n");
    assert_eq!(r, Ok(false));
    assert_eq!(body, b"ok".to_vec());
    let (r2, _, _, _) = run(ChunkState::Size, b"-2\r\nok\r\n");
    assert_eq!(r2, Err(()));
}

#[test]
fn chunked_missing_crlf_after_data_is_an_error() {
    let (r, st, buf, body) = run(ChunkState::Size, b"2\r\nokXY");
    assert_eq!(r, Err(()));
    assert_eq!(st, ChunkState::CRLF);
    assert_eq!(buf, b"XY".to_vec());
    assert_eq!(body, b"ok".to_vec());
}

#[test]
fn chunked_done_reports_complete() {
    let (r, st, buf, _) = run(ChunkState::Done, b"anything");
    assert_eq!(r, Ok(true));
    assert_eq!(st, ChunkState::Done);
    assert_eq!(buf, b"anything".to_vec());
}

#[test]
fn chunked_data_with_zero_remaining_moves_to_crlf() {
    let (r, st, buf, _) = run(ChunkState::Data { remaining: 0 }, b"\r\n");
    assert_eq!(r, Ok(false));
    assert_eq!(st, ChunkState::Size);
    assert!(buf.is_empty());
}

#[test]
fn chunked_fed_in_pieces_gives_same_body() {
    let mut st = ChunkState::Size;
    let mut buf = Vec::new();
    let mut body = Vec::new();
    for piece in [&b"4\r"[..], b"\nwi", b"ki\r\n5", b"\r\npedia\r\n"] {
        buf.extend_from_slice(piece);
        assert_eq!(process_chunked(&mut st, &mut buf, &mut body), Ok(false));
    }
    assert_eq!(body, b"wikipedia".to_vec());
    assert_eq!(st, ChunkState::Size);
}

#[test]
fn find_crlf_positions() {
    assert_eq!(find_crlf(b"ab\r\ncd\r\n"), Some(2));
    assert_eq!(find_crlf(b"\r\r\n"), Some(1));
    assert_eq!(find_crlf(b"abc\n"), None);
    assert_eq!(find_crlf(b""), None);
}

fn h(name: &str, value: &[u8]) -> (String, Vec<u8>) {
    (name.to_string(), value.to_vec())
}

#[test]
fn body_mode_chunked_wins() {
    let hs = vec![h("Content-Length", b"10"), h("transfer-encoding", b"CHUNKED")];
    assert_eq!(determine_body_mode(&hs), BodyMode::Chunked);
}

#[test]
fn body_mode_content_length() {
    let hs = vec![h("Host", b"x"), h("content-length", b"42")];
    assert_eq!(determine_body_mode(&hs), BodyMode::ContentLength(42));
}

#[test]
fn body_mode_first_parseable_content_length() {
    let hs = vec![h("Content-Length", b"abc"), h("Content-Length", b"+7")];
    assert_eq!(determine_body_mode(&hs), BodyMode::ContentLength(7));
}

#[test]
fn body_mode_none() {
    let hs = vec![h("Transfer-Encoding", b"gzip")];
    assert_eq!(determine_body_mode(&hs), BodyMode::NoBody);
}

#[test]
fn body_mode_invalid_utf8_content_length() {
    let hs = vec![h("Content-Length", &[0xff, 0x31])];
    assert_eq!(body_mode_of_headers(&hs), None);
    let hs2 = vec![h("Content-Length", b"5"), h("Content-Length", &[0xff])];
    assert_eq!(body_mode_of_headers(&hs2), Some(BodyMode::ContentLength(5)));
}

#[test]
fn chunked_gains_only_from_consumed_bytes() {
    let input = b"3\r\nabc\r\n2\r\nde\r\nzz\r\n";
    let (r, st, left, body) = run(ChunkState::Size, input);
    assert_eq!(r, Err(()));
    assert_eq!(left, b"zz\r\n".to_vec());
    assert_eq!(body, b"abcde".to_vec());
    let consumed = &input[..input.len() - left.len()];
    let (r2, st2, left2, body2) = run(ChunkState::Size, consumed);
    assert_eq!(r2, Ok(false));
    assert_eq!(st2, st);
    assert!(left2.is_empty());
    assert_eq!(body2, body);
    // A body already there is kept in front.
    let mut st3 = ChunkState::Size;
    let mut buf3 = input.to_vec();
    let mut body3 = b"xy".to_vec();
    let _ = process_chunked(&mut st3, &mut buf3, &mut body3);
    assert_eq!(body3, b"xyabcde".to_vec());
}

#[test]
fn chunked_malformed_prefix_stays_malformed() {
    let (r, _, _, _) = run(ChunkState::Size, b"q\r\n");
    assert_eq!(r, Err(()));
    let (r, _, _, _) = run(ChunkState::Size, b"q\r\n5\r\nhello\r\n");
    assert_eq!(r, Err(()));
}
