//! A request as the server holds it while it arrives: how its body is
//! framed (none, `Content-Length` or chunked) and the chunked-body decoder.
use vstd::prelude::*;
use crate::text::{
    all_ascii, ascii_chars, digit_value, digits_value, has_prefix, has_suffix, hex, hex_digit, is_ws,
    lemma_ascii_utf8, trim_end, trim_start, bytes_ci_eq, ci_eq, ci_eq_bytes, copy_bytes, drop_front, parse_unsigned, parse_usize, push_all,
    str_ci_eq, trim, trim_chars, utf8_chars, utf8_chars_of,
};

verus! {

/// How the body of a request is delimited.
#[derive(Debug, PartialEq, Eq, Structural, Clone, Copy)]
pub enum BodyMode {
    /// No body follows the head.
    NoBody,
    ContentLength(usize),
    Chunked,
}

/// Where the chunked-body decoder stands.
#[derive(Debug, PartialEq, Eq, Structural, Clone, Copy)]
pub enum ChunkState {
    /// Waiting for a chunk-size line.
    Size,
    /// Inside a chunk, with `remaining` data bytes still to come.
    Data { remaining: usize },
    /// Waiting for the CRLF that ends a chunk.
    CRLF,
    /// The body is complete.
    Done,
}

/// A request whose head has been read.
#[derive(Debug)]
pub struct ParsedRequest {
    pub method: Option<String>,
    pub path: Option<String>,
    pub version: Option<u8>,
    pub headers: Option<Vec<(String, Vec<u8>)>>,
    pub body: Vec<u8>,
    pub body_mode: BodyMode,
}

/// A header as characters of its name and bytes of its value.
pub type HeaderView = (Seq<char>, Seq<u8>);

/// The mathematical value of a [`ParsedRequest`].
pub struct RequestView {
    pub method: Option<Seq<char>>,
    pub path: Option<Seq<char>>,
    pub version: Option<u8>,
    pub headers: Option<Seq<HeaderView>>,
    pub body: Seq<u8>,
    pub body_mode: BodyMode,
}

impl View for ParsedRequest {
    type V = RequestView;

    open spec fn view(&self) -> RequestView {
        RequestView {
            method: self.method.deep_view(),
            path: self.path.deep_view(),
            version: self.version,
            headers: self.headers.deep_view(),
            body: self.body@,
            body_mode: self.body_mode,
        }
    }
}

// ---------------------------------------------------------------------------
// Body mode
// ---------------------------------------------------------------------------

/// The bytes `chunked`.
pub open spec fn chunked_word() -> Seq<u8> {
    seq![0x63u8, 0x68, 0x75, 0x6e, 0x6b, 0x65, 0x64]
}

/// A `Transfer-Encoding: chunked` header (names and value compared without ASCII case).
pub open spec fn is_chunked_header(h: HeaderView) -> bool {
    ci_eq(h.0, "Transfer-Encoding"@) && ci_eq_bytes(h.1, chunked_word())
}

/// Scanning the headers in order for `Content-Length`: `None` where a
/// `Content-Length` value that is not UTF-8 comes before any that parses
/// as a `usize`; otherwise the first value that parses, if any.
pub open spec fn content_length_scan(hs: Seq<HeaderView>) -> Option<Option<usize>>
    decreases hs.len(),
{
    if hs.len() == 0 {
        Some(None)
    } else if ci_eq(hs[0].0, "Content-Length"@) {
        match utf8_chars(hs[0].1) {
            None => None,
            Some(cs) => match parse_unsigned(cs, 10, usize::MAX as nat) {
                Some(n) => Some(Some(n as usize)),
                None => content_length_scan(hs.drop_first()),
            },
        }
    } else {
        content_length_scan(hs.drop_first())
    }
}

/// The body mode that the headers give: chunked if any header says so, else
/// the first `Content-Length` that parses, else none. `None` on the headers
/// for which the scan meets a `Content-Length` value that is not UTF-8.
pub open spec fn body_mode_of(hs: Seq<HeaderView>) -> Option<BodyMode> {
    if exists|i: int| 0 <= i < hs.len() && is_chunked_header(#[trigger] hs[i]) {
        Some(BodyMode::Chunked)
    } else {
        match content_length_scan(hs) {
            None => None,
            Some(None) => Some(BodyMode::NoBody),
            Some(Some(n)) => Some(BodyMode::ContentLength(n)),
        }
    }
}

fn chunked_bytes() -> (v: Vec<u8>)
    ensures
        v@ == chunked_word(),
{
    let v: Vec<u8> = vec![0x63u8, 0x68, 0x75, 0x6e, 0x6b, 0x65, 0x64];
    assert(v@ =~= chunked_word());
    v
}

/// The body mode of a request with these headers, or `None` where a
/// `Content-Length` value that is not UTF-8 is met before one that parses.
pub fn body_mode_of_headers(headers: &Vec<(String, Vec<u8>)>) -> (r: Option<BodyMode>)
    ensures
        r == body_mode_of(headers.deep_view()),
{
    let ghost hv = headers.deep_view();
    let word = chunked_bytes();
    let mut i: usize = 0;
    while i < headers.len()
        invariant
            i <= headers.len(),
            word@ == chunked_word(),
            hv == headers.deep_view(),
            forall|j: int| 0 <= j < i ==> !is_chunked_header(#[trigger] hv[j]),
        decreases headers.len() - i,
    {
        let h = &headers[i];
        assert(hv[i as int] == (h.0@, h.1@));
        if str_ci_eq(h.0.as_str(), "Transfer-Encoding") && bytes_ci_eq(h.1.as_slice(), word.as_slice()) {
            assert(is_chunked_header(hv[i as int]));
            return Some(BodyMode::Chunked);
        }
        i = i + 1;
    }
    let mut k: usize = 0;
    assert(hv.skip(0) =~= hv);
    while k < headers.len()
        invariant
            k <= headers.len(),
            hv == headers.deep_view(),
            content_length_scan(hv) == content_length_scan(hv.skip(k as int)),
            forall|j: int| 0 <= j < headers.len() ==> !is_chunked_header(#[trigger] hv[j]),
        decreases headers.len() - k,
    {
        assert(hv.skip(k as int).drop_first() =~= hv.skip(k + 1));
        assert(hv.skip(k as int)[0] == hv[k as int]);
        let h = &headers[k];
        assert(hv[k as int] == (h.0@, h.1@));
        if str_ci_eq(h.0.as_str(), "Content-Length") {
            match utf8_chars_of(h.1.as_slice()) {
                None => {
                    return None;
                },
                Some(cs) => {
                    match parse_usize(cs.as_slice(), 10) {
                        Some(n) => {
                            return Some(BodyMode::ContentLength(n));
                        },
                        None => {},
                    }
                },
            }
        }
        k = k + 1;
    }
    Some(BodyMode::NoBody)
}

/// The body mode of a request with these headers.
pub fn determine_body_mode(headers: &Vec<(String, Vec<u8>)>) -> (r: BodyMode)
    requires
        body_mode_of(headers.deep_view()) is Some,
    ensures
        Some(r) == body_mode_of(headers.deep_view()),
{
    match body_mode_of_headers(headers) {
        Some(m) => m,
        None => BodyMode::NoBody,
    }
}

// ---------------------------------------------------------------------------
// Chunked bodies
// ---------------------------------------------------------------------------

/// A CRLF starts at position `p` of `b`.
pub open spec fn crlf_at(b: Seq<u8>, p: int) -> bool {
    0 <= p && p + 1 < b.len() && b[p] == 13 && b[p + 1] == 10
}

#[verifier::opaque]
/// The position of the first CRLF in `b`, if any.
pub open spec fn first_crlf(b: Seq<u8>) -> Option<int> {
    if exists|p: int| crlf_at(b, p) {
        Some(choose|p: int| crlf_at(b, p) && forall|q: int| 0 <= q < p ==> !crlf_at(b, q))
    } else {
        None
    }
}

proof fn lemma_first_crlf(b: Seq<u8>, p: int)
    requires
        crlf_at(b, p),
        forall|q: int| 0 <= q < p ==> !crlf_at(b, q),
    ensures
        first_crlf(b) == Some(p),
{
    reveal(first_crlf);
    let c = choose|x: int| crlf_at(b, x) && forall|q: int| 0 <= q < x ==> !crlf_at(b, q);
    assert(crlf_at(b, c) && forall|q: int| 0 <= q < c ==> !crlf_at(b, q));
    if c < p {
        assert(!crlf_at(b, c));
    } else if c > p {
        assert(!crlf_at(b, p));
    }
}

/// The position of the first CRLF in `buf`.
pub fn find_crlf(buf: &[u8]) -> (r: Option<usize>)
    ensures
        match r {
            Some(p) => first_crlf(buf@) == Some(p as int) && crlf_at(buf@, p as int),
            None => first_crlf(buf@) is None,
        },
{
    let mut i: usize = 0;
    while buf.len() > 1 && i < buf.len() - 1
        invariant
            i <= buf.len(),
            forall|q: int| 0 <= q < i ==> !crlf_at(buf@, q),
        decreases buf.len() - i,
    {
        if buf[i] == 13 && buf[i + 1] == 10 {
            proof {
                lemma_first_crlf(buf@, i as int);
            }
            return Some(i);
        }
        i = i + 1;
    }
    assert(forall|q: int| !crlf_at(buf@, q));
    proof {
        reveal(first_crlf);
    }
    None
}

#[verifier::opaque]
/// The chunk size that a size line gives: the hexadecimal number in the
/// line once it is decoded as UTF-8 and trimmed.
pub open spec fn chunk_size_of(line: Seq<u8>) -> Option<usize> {
    match utf8_chars(line) {
        None => None,
        Some(cs) => match parse_unsigned(trim(cs), 16, usize::MAX as nat) {
            Some(n) => Some(n as usize),
            None => None,
        },
    }
}

/// The state that a state ranks at, for the decoder's progress: inside a
/// chunk it may move on without reading a byte.
pub open spec fn chunk_rank(s: ChunkState) -> nat {
    match s {
        ChunkState::Data { .. } => 1,
        _ => 0,
    }
}

#[verifier::opaque]
/// The outcome of running the chunked decoder from `st` on the buffered
/// bytes `buf` with the decoded body so far `body`, until it needs more
/// bytes, fails or finds the body complete: the result and the final state,
/// buffer and body.
pub open spec fn chunk_run(st: ChunkState, buf: Seq<u8>, body: Seq<u8>) -> (
    Result<bool, ()>,
    ChunkState,
    Seq<u8>,
    Seq<u8>,
)
    decreases buf.len(), chunk_rank(st),
{
    match st {
        ChunkState::Size => match first_crlf(buf) {
            None => (Ok(false), st, buf, body),
            Some(p) => match chunk_size_of(buf.take(p)) {
                None => (Err(()), st, buf, body),
                Some(n) => {
                    let next = if n == 0 {
                        ChunkState::CRLF
                    } else {
                        ChunkState::Data { remaining: n }
                    };
                    if 0 <= p && p + 2 <= buf.len() {
                        chunk_run(next, buf.skip(p + 2), body)
                    } else {
                        (Err(()), st, buf, body)
                    }
                },
            },
        },
        ChunkState::Data { remaining } => {
            if buf.len() == 0 {
                (Ok(false), st, buf, body)
            } else {
                let take: int = if remaining < buf.len() {
                    remaining as int
                } else {
                    buf.len() as int
                };
                let left = (remaining - take) as usize;
                let next = if left == 0 {
                    ChunkState::CRLF
                } else {
                    ChunkState::Data { remaining: left }
                };
                chunk_run(next, buf.skip(take), body + buf.take(take))
            }
        },
        ChunkState::CRLF => {
            if buf.len() < 2 {
                (Ok(false), st, buf, body)
            } else if buf[0] != 13 || buf[1] != 10 {
                (Err(()), st, buf, body)
            } else {
                chunk_run(ChunkState::Size, buf.skip(2), body)
            }
        },
        ChunkState::Done => (Ok(true), st, buf, body),
    }
}

/// The chunk size in a size line.
fn parse_chunk_size(line: &[u8]) -> (r: Option<usize>)
    ensures
        r == chunk_size_of(line@),
{
    reveal(chunk_size_of);
    match utf8_chars_of(line) {
        None => None,
        Some(cs) => {
            let t = trim_chars(cs.as_slice());
            parse_usize(t.as_slice(), 16)
        },
    }
}

/// The decoder's progress measure strictly drops from `(b0, s0)` to `(b1, s1)`.
pub open spec fn chunk_progress(b0: Seq<u8>, s0: ChunkState, b1: Seq<u8>, s1: ChunkState) -> bool {
    b1.len() < b0.len() || (b1.len() == b0.len() && chunk_rank(s1) < chunk_rank(s0))
}

/// One step of the decoder: `Some(r)` when it stops with `r` (nothing is
/// changed), `None` when it moved on to a state whose run gives the same outcome.
fn chunk_step(state: &mut ChunkState, read_buf: &mut Vec<u8>, body: &mut Vec<u8>) -> (r: Option<
    Result<bool, ()>,
>)
    ensures
        match r {
            Some(res) => {
                &&& *final(state) == *old(state)
                &&& final(read_buf)@ == old(read_buf)@
                &&& final(body)@ == old(body)@
                &&& (res, *old(state), old(read_buf)@, old(body)@) == chunk_run(
                    *old(state),
                    old(read_buf)@,
                    old(body)@,
                )
            },
            None => {
                &&& chunk_run(*final(state), final(read_buf)@, final(body)@) == chunk_run(
                    *old(state),
                    old(read_buf)@,
                    old(body)@,
                )
                &&& chunk_progress(old(read_buf)@, *old(state), final(read_buf)@, *final(state))
            },
        },
{
    reveal(chunk_run);
    match *state {
        ChunkState::Size => size_step(state, read_buf, body),
        ChunkState::Data { remaining } => data_step(state, remaining, read_buf, body),
        ChunkState::CRLF => {
            if read_buf.len() < 2 {
                return Some(Ok(false));
            }
            if read_buf[0] != 13 || read_buf[1] != 10 {
                return Some(Err(()));
            }
            drop_front(read_buf, 2);
            *state = ChunkState::Size;
            None
        },
        ChunkState::Done => Some(Ok(true)),
    }
}

#[verifier::rlimit(40)]
fn size_step(state: &mut ChunkState, read_buf: &mut Vec<u8>, body: &mut Vec<u8>) -> (r: Option<
    Result<bool, ()>,
>)
    requires
        *old(state) == ChunkState::Size,
    ensures
        match r {
            Some(res) => {
                &&& *final(state) == *old(state)
                &&& final(read_buf)@ == old(read_buf)@
                &&& final(body)@ == old(body)@
                &&& (res, *old(state), old(read_buf)@, old(body)@) == chunk_run(
                    *old(state),
                    old(read_buf)@,
                    old(body)@,
                )
            },
            None => {
                &&& chunk_run(*final(state), final(read_buf)@, final(body)@) == chunk_run(
                    *old(state),
                    old(read_buf)@,
                    old(body)@,
                )
                &&& chunk_progress(old(read_buf)@, *old(state), final(read_buf)@, *final(state))
            },
        },
{
    reveal(chunk_run);
    match find_crlf(read_buf.as_slice()) {
        None => Some(Ok(false)),
        Some(pos) => {
            assert(crlf_at(read_buf@, pos as int));
            assert(pos + 1 < read_buf.len());
            let line = copy_bytes(read_buf.as_slice(), 0, pos);
            assert(line@ =~= read_buf@.take(pos as int));
            match parse_chunk_size(line.as_slice()) {
                None => Some(Err(())),
                Some(size) => {
                    let ghost b0 = read_buf@;
                    drop_front(read_buf, pos + 2);
                    if size == 0 {
                        *state = ChunkState::CRLF;
                    } else {
                        *state = ChunkState::Data { remaining: size };
                    }
                    assert(chunk_run(ChunkState::Size, b0, body@) == chunk_run(
                        *state,
                        b0.skip(pos + 2),
                        body@,
                    ));
                    None
                },
            }
        },
    }
}

fn data_step(
    state: &mut ChunkState,
    remaining: usize,
    read_buf: &mut Vec<u8>,
    body: &mut Vec<u8>,
) -> (r: Option<Result<bool, ()>>)
    requires
        *old(state) == (ChunkState::Data { remaining }),
    ensures
        match r {
            Some(res) => {
                &&& *final(state) == *old(state)
                &&& final(read_buf)@ == old(read_buf)@
                &&& final(body)@ == old(body)@
                &&& (res, *old(state), old(read_buf)@, old(body)@) == chunk_run(
                    *old(state),
                    old(read_buf)@,
                    old(body)@,
                )
            },
            None => {
                &&& chunk_run(*final(state), final(read_buf)@, final(body)@) == chunk_run(
                    *old(state),
                    old(read_buf)@,
                    old(body)@,
                )
                &&& chunk_progress(old(read_buf)@, *old(state), final(read_buf)@, *final(state))
            },
        },
{
    reveal(chunk_run);
    if read_buf.len() == 0 {
        return Some(Ok(false));
    }
    let to_take = if remaining < read_buf.len() {
        remaining
    } else {
        read_buf.len()
    };
    let part = copy_bytes(read_buf.as_slice(), 0, to_take);
    assert(part@ =~= read_buf@.take(to_take as int));
    push_all(body, part.as_slice());
    drop_front(read_buf, to_take);
    let left = remaining - to_take;
    if left == 0 {
        *state = ChunkState::CRLF;
    } else {
        *state = ChunkState::Data { remaining: left };
    }
    None
}

/// Decodes as much of a chunked body as the buffered bytes allow: consumes
/// bytes from `read_buf`, appends chunk data to `body` and advances `state`.
/// `Ok(true)` once the body is complete, `Ok(false)` when more bytes are
/// needed, `Err(())` on a malformed size line or a missing CRLF after a chunk.
pub fn process_chunked(state: &mut ChunkState, read_buf: &mut Vec<u8>, body: &mut Vec<u8>) -> (r:
    Result<bool, ()>)
    ensures
        (r, *final(state), final(read_buf)@, final(body)@) == chunk_run(
            *old(state),
            old(read_buf)@,
            old(body)@,
        ),
{
    loop
        invariant
            chunk_run(*state, read_buf@, body@) == chunk_run(
                *old(state),
                old(read_buf)@,
                old(body)@,
            ),
        decreases read_buf@.len(), chunk_rank(*state),
    {
        match chunk_step(state, read_buf, body) {
            Some(r) => {
                return r;
            },
            None => {},
        }
    }
}

// ---------------------------------------------------------------------------
// Laws of the chunked decoder
// ---------------------------------------------------------------------------

/// The decoder reports a complete body exactly when it is started in
/// `ChunkState::Done`: no step of it ever enters that state.
pub proof fn lemma_chunked_complete_only_from_done(st: ChunkState, buf: Seq<u8>, body: Seq<u8>)
    ensures
        (chunk_run(st, buf, body).0 == Ok::<bool, ()>(true)) <==> (st == ChunkState::Done),
    decreases buf.len(), chunk_rank(st),
{
    reveal(chunk_run);
    match st {
        ChunkState::Size => {
            match first_crlf(buf) {
                None => {},
                Some(p) => {
                    match chunk_size_of(buf.take(p)) {
                        None => {},
                        Some(n) => {
                            let next = if n == 0 {
                                ChunkState::CRLF
                            } else {
                                ChunkState::Data { remaining: n }
                            };
                            if 0 <= p && p + 2 <= buf.len() {
                                lemma_chunked_complete_only_from_done(next, buf.skip(p + 2), body);
                            }
                        },
                    }
                },
            }
        },
        ChunkState::Data { remaining } => {
            if buf.len() > 0 {
                let take: int = if remaining < buf.len() {
                    remaining as int
                } else {
                    buf.len() as int
                };
                let left = (remaining - take) as usize;
                let next = if left == 0 {
                    ChunkState::CRLF
                } else {
                    ChunkState::Data { remaining: left }
                };
                lemma_chunked_complete_only_from_done(next, buf.skip(take), body + buf.take(take));
            }
        },
        ChunkState::CRLF => {
            if buf.len() >= 2 && buf[0] == 13 && buf[1] == 10 {
                lemma_chunked_complete_only_from_done(ChunkState::Size, buf.skip(2), body);
            }
        },
        ChunkState::Done => {},
    }
}

/// Where the decoder stops without a step, the run gives back what it was given.
proof fn lemma_run_stops(st: ChunkState, buf: Seq<u8>, body: Seq<u8>)
    requires
        match st {
            ChunkState::Size => match first_crlf(buf) {
                None => true,
                Some(p) => chunk_size_of(buf.take(p)) is None || !(0 <= p && p + 2 <= buf.len()),
            },
            ChunkState::Data { .. } => buf.len() == 0,
            ChunkState::CRLF => buf.len() < 2 || buf[0] != 13 || buf[1] != 10,
            ChunkState::Done => true,
        },
    ensures
        chunk_run(st, buf, body).1 == st,
        chunk_run(st, buf, body).2 == buf,
        chunk_run(st, buf, body).3 == body,
{
    reveal(chunk_run);
}

/// One step inside a chunk: as many buffered bytes as remain, at most.
proof fn lemma_run_data_step(n: usize, buf: Seq<u8>, body: Seq<u8>)
    requires
        buf.len() > 0,
    ensures
        ({
            let take: int = if n < buf.len() {
                n as int
            } else {
                buf.len() as int
            };
            let left = (n - take) as usize;
            let next = if left == 0 {
                ChunkState::CRLF
            } else {
                ChunkState::Data { remaining: left }
            };
            chunk_run(ChunkState::Data { remaining: n }, buf, body) == chunk_run(
                next,
                buf.skip(take),
                body + buf.take(take),
            )
        }),
{
    reveal(chunk_run);
}

/// The decoder only appends to the body and only consumes buffered bytes
/// from the front: the final body is the first body followed by more
/// bytes, and the final buffer is what is left of the first after some
/// bytes at its front.
pub proof fn lemma_chunked_appends_and_consumes(st: ChunkState, buf: Seq<u8>, body: Seq<u8>)
    ensures
        exists|extra: Seq<u8>| chunk_run(st, buf, body).3 == body + extra,
        exists|k: int| 0 <= k <= buf.len() && chunk_run(st, buf, body).2 == buf.skip(k),
    decreases buf.len(), chunk_rank(st),
{
    let r = chunk_run(st, buf, body);
    let mut moved = false;
    match st {
        ChunkState::Size => {
            match first_crlf(buf) {
                Some(p) => {
                    match chunk_size_of(buf.take(p)) {
                        Some(n) => {
                            if 0 <= p && p + 2 <= buf.len() {
                                moved = true;
                                let next = if n == 0 {
                                    ChunkState::CRLF
                                } else {
                                    ChunkState::Data { remaining: n }
                                };
                                let b2 = buf.skip(p + 2);
                                lemma_run_size_line(buf, body, p, n);
                                lemma_chunked_appends_and_consumes(next, b2, body);
                                let k = choose|k: int| 0 <= k <= b2.len() && r.2 == b2.skip(k);
                                assert(r.2 =~= buf.skip(p + 2 + k));
                            }
                        },
                        None => {},
                    }
                },
                None => {},
            }
        },
        ChunkState::Data { remaining } => {
            if buf.len() > 0 {
                moved = true;
                let take: int = if remaining < buf.len() {
                    remaining as int
                } else {
                    buf.len() as int
                };
                let left = (remaining - take) as usize;
                let next = if left == 0 {
                    ChunkState::CRLF
                } else {
                    ChunkState::Data { remaining: left }
                };
                let b2 = buf.skip(take);
                let body2 = body + buf.take(take);
                lemma_run_data_step(remaining, buf, body);
                lemma_chunked_appends_and_consumes(next, b2, body2);
                let k = choose|k: int| 0 <= k <= b2.len() && r.2 == b2.skip(k);
                assert(r.2 =~= buf.skip(take + k));
                let e = choose|extra: Seq<u8>| r.3 == body2 + extra;
                assert(r.3 =~= body + (buf.take(take) + e));
            }
        },
        ChunkState::CRLF => {
            if buf.len() >= 2 && buf[0] == 13 && buf[1] == 10 {
                moved = true;
                let b2 = buf.skip(2);
                lemma_run_crlf(buf, body);
                lemma_chunked_appends_and_consumes(ChunkState::Size, b2, body);
                let k = choose|k: int| 0 <= k <= b2.len() && r.2 == b2.skip(k);
                assert(r.2 =~= buf.skip(2 + k));
            }
        },
        ChunkState::Done => {},
    }
    if !moved {
        lemma_run_stops(st, buf, body);
        assert(buf.skip(0) =~= buf);
        assert(body + Seq::<u8>::empty() =~= body);
    }
}

/// The CRLF bytes.
pub open spec fn crlf() -> Seq<u8> {
    seq![13u8, 10u8]
}

/// One chunk of a chunked body: its size in lowercase hexadecimal, CRLF,
/// the data, CRLF.
pub open spec fn encode_chunk(data: Seq<u8>) -> Seq<u8> {
    hex(data.len()) + crlf() + data + crlf()
}

/// A chunked body: each chunk in turn.
pub open spec fn encode_chunks(chunks: Seq<Seq<u8>>) -> Seq<u8>
    decreases chunks.len(),
{
    if chunks.len() == 0 {
        seq![]
    } else {
        encode_chunks(chunks.drop_last()) + encode_chunk(chunks.last())
    }
}

/// The data of the chunks, one after the other.
pub open spec fn concat_chunks(chunks: Seq<Seq<u8>>) -> Seq<u8>
    decreases chunks.len(),
{
    if chunks.len() == 0 {
        seq![]
    } else {
        concat_chunks(chunks.drop_last()) + chunks.last()
    }
}

proof fn lemma_hex_shape(n: nat)
    ensures
        hex(n).len() > 0,
        all_ascii(hex(n)),
        forall|i: int| 0 <= i < hex(n).len() ==> #[trigger] hex(n)[i] != 13u8,
        forall|i: int|
            0 <= i < hex(n).len() ==> digit_value(#[trigger] hex(n)[i] as char, 16) is Some,
        digits_value(ascii_chars(hex(n)), 16) == Some(n),
    decreases n,
{
    let d = n % 16;
    let c = hex_digit(d) as char;
    assert(digit_value(c, 16) == Some(d));
    if n >= 16 {
        lemma_hex_shape(n / 16);
        let h = hex(n / 16);
        let a = ascii_chars(hex(n));
        assert(a.drop_last() =~= ascii_chars(h));
        assert(a.last() == c);
        assert(digits_value(a, 16) == Some((n / 16) * 16 + d));
    } else {
        let a = ascii_chars(hex(n));
        assert(a.drop_last() =~= Seq::<char>::empty());
        assert(a.last() == c);
        assert(digits_value(Seq::<char>::empty(), 16) == Some(0nat));
    }
}

proof fn lemma_chunk_size_of_hex(n: nat)
    requires
        n <= usize::MAX,
    ensures
        chunk_size_of(hex(n)) == Some(n as usize),
{
    reveal(chunk_size_of);
    lemma_hex_shape(n);
    let h = hex(n);
    lemma_ascii_utf8(h);
    let cs = ascii_chars(h);
    assert(cs[0] == h[0] as char);
    assert(!is_ws(cs[0]));
    assert(trim_start(cs) == cs);
    assert(cs.last() == h[h.len() - 1] as char);
    assert(!is_ws(cs.last()));
    assert(trim_end(cs) == cs);
    assert(cs[0] != '+');
}

/// A size line of `n` moves the decoder to the chunk's data (or, for 0, to its CRLF).
proof fn lemma_run_size_line(buf: Seq<u8>, body: Seq<u8>, p: int, n: usize)
    requires
        first_crlf(buf) == Some(p),
        chunk_size_of(buf.take(p)) == Some(n),
        0 <= p,
        p + 2 <= buf.len(),
    ensures
        chunk_run(ChunkState::Size, buf, body) == chunk_run(
            if n == 0 {
                ChunkState::CRLF
            } else {
                ChunkState::Data { remaining: n }
            },
            buf.skip(p + 2),
            body,
        ),
{
    reveal(chunk_run);
}

/// Inside a chunk with at least as many bytes buffered as remain, the data is taken whole.
proof fn lemma_run_data_whole(n: usize, buf: Seq<u8>, body: Seq<u8>)
    requires
        0 < n < buf.len(),
    ensures
        chunk_run(ChunkState::Data { remaining: n }, buf, body) == chunk_run(
            ChunkState::CRLF,
            buf.skip(n as int),
            body + buf.take(n as int),
        ),
{
    reveal(chunk_run);
}

/// A CRLF after a chunk moves the decoder back to the size line.
proof fn lemma_run_crlf(buf: Seq<u8>, body: Seq<u8>)
    requires
        buf.len() >= 2,
        buf[0] == 13,
        buf[1] == 10,
    ensures
        chunk_run(ChunkState::CRLF, buf, body) == chunk_run(ChunkState::Size, buf.skip(2), body),
{
    reveal(chunk_run);
}

/// Decoding one chunk from the size state appends its data and consumes it.
pub proof fn lemma_decode_one_chunk(data: Seq<u8>, rest: Seq<u8>, body: Seq<u8>)
    requires
        0 < data.len() <= usize::MAX,
    ensures
        chunk_run(ChunkState::Size, encode_chunk(data) + rest, body) == chunk_run(
            ChunkState::Size,
            rest,
            body + data,
        ),
{
    let n = data.len();
    let h = hex(n);
    let buf = encode_chunk(data) + rest;
    lemma_hex_shape(n);
    lemma_chunk_size_of_hex(n);
    let p = h.len() as int;
    assert(crlf_at(buf, p));
    assert forall|q: int| 0 <= q < p implies !crlf_at(buf, q) by {
        assert(buf[q] == h[q]);
    }
    lemma_first_crlf(buf, p);
    assert(buf.take(p) =~= h);
    let b1 = buf.skip(p + 2);
    assert(b1 =~= data + crlf() + rest);
    lemma_run_size_line(buf, body, p, n as usize);
    assert(b1.take(n as int) =~= data);
    let b2 = b1.skip(n as int);
    assert(b2 =~= crlf() + rest);
    lemma_run_data_whole(n as usize, b1, body);
    assert(b2.skip(2) =~= rest);
    lemma_run_crlf(b2, body + data);
}

/// Decoding a chunked body chunk by chunk gives back the chunks' data, in
/// order, and leaves the decoder waiting for the next size line.
pub proof fn lemma_decode_chunks(chunks: Seq<Seq<u8>>, rest: Seq<u8>, body: Seq<u8>)
    requires
        forall|i: int| 0 <= i < chunks.len() ==> 0 < (#[trigger] chunks[i]).len() <= usize::MAX,
    ensures
        chunk_run(ChunkState::Size, encode_chunks(chunks) + rest, body) == chunk_run(
            ChunkState::Size,
            rest,
            body + concat_chunks(chunks),
        ),
    decreases chunks.len(),
{
    if chunks.len() == 0 {
        assert(encode_chunks(chunks) + rest =~= rest);
        assert(body + concat_chunks(chunks) =~= body);
    } else {
        let init = chunks.drop_last();
        let last = chunks.last();
        assert(chunks[chunks.len() - 1] == last);
        assert forall|i: int| 0 <= i < init.len() implies 0 < (#[trigger] init[i]).len()
            <= usize::MAX by {
            assert(init[i] == chunks[i]);
        }
        let tail = encode_chunk(last) + rest;
        assert(encode_chunks(chunks) + rest =~= encode_chunks(init) + tail);
        lemma_decode_chunks(init, tail, body);
        lemma_decode_one_chunk(last, rest, body + concat_chunks(init));
        assert(body + concat_chunks(init) + last =~= body + concat_chunks(chunks));
    }
}

/// The last chunk `0` CRLF CRLF takes the decoder back to waiting for a size
/// line, with nothing added: the decoder never reports the body complete.
pub proof fn lemma_decode_last_chunk(body: Seq<u8>)
    ensures
        chunk_run(ChunkState::Size, seq![0x30u8, 13, 10, 13, 10], body) == (
            Ok::<bool, ()>(false),
            ChunkState::Size,
            Seq::<u8>::empty(),
            body,
        ),
{
    let buf = seq![0x30u8, 13, 10, 13, 10];
    assert(hex(0) == seq![0x30u8]);
    lemma_chunk_size_of_hex(0);
    assert(crlf_at(buf, 1));
    assert(!crlf_at(buf, 0));
    lemma_first_crlf(buf, 1);
    assert(buf.take(1) =~= hex(0));
    let b1 = buf.skip(3);
    assert(b1 =~= seq![13u8, 10]);
    lemma_run_size_line(buf, body, 1, 0);
    let e = Seq::<u8>::empty();
    assert(b1.skip(2) =~= e);
    lemma_run_crlf(b1, body);
    assert(!crlf_at(e, 0));
    reveal(first_crlf);
    assert(first_crlf(e) is None);
    reveal(chunk_run);
}

/// Where a buffer holds a CRLF, it holds a first one.
proof fn lemma_least_crlf(b: Seq<u8>, p: int)
    requires
        crlf_at(b, p),
    ensures
        exists|x: int| crlf_at(b, x) && forall|q: int| 0 <= q < x ==> !crlf_at(b, q),
    decreases p,
{
    if exists|q: int| 0 <= q < p && crlf_at(b, q) {
        let q = choose|q: int| 0 <= q < p && crlf_at(b, q);
        lemma_least_crlf(b, q);
    } else {
        assert(crlf_at(b, p) && forall|q: int| 0 <= q < p ==> !crlf_at(b, q));
    }
}

/// The first CRLF of a buffer is a CRLF, and it stays the first one when
/// more bytes are appended.
proof fn lemma_first_crlf_extends(b1: Seq<u8>, b2: Seq<u8>)
    requires
        first_crlf(b1) is Some,
    ensures
        crlf_at(b1, first_crlf(b1)->0),
        first_crlf(b1 + b2) == first_crlf(b1),
{
    reveal(first_crlf);
    let w = choose|x: int| crlf_at(b1, x);
    lemma_least_crlf(b1, w);
    let p = choose|x: int| crlf_at(b1, x) && forall|q: int| 0 <= q < x ==> !crlf_at(b1, q);
    assert(first_crlf(b1) == Some(p));
    let b = b1 + b2;
    assert(b[p] == b1[p] && b[p + 1] == b1[p + 1]);
    assert forall|q: int| 0 <= q < p implies !crlf_at(b, q) by {
        assert(b[q] == b1[q] && b[q + 1] == b1[q + 1]);
        assert(!crlf_at(b1, q));
    }
    lemma_first_crlf(b, p);
}

/// Inside a chunk whose remaining size exceeds the buffered bytes, taking
/// them now and the rest later is the same as taking all at once.
proof fn lemma_data_split(rem: usize, b1: Seq<u8>, b2: Seq<u8>, body: Seq<u8>)
    requires
        0 < b1.len() < rem,
    ensures
        chunk_run(ChunkState::Data { remaining: rem }, b1 + b2, body) == chunk_run(
            ChunkState::Data { remaining: (rem - b1.len()) as usize },
            b2,
            body + b1,
        ),
{
    let b = b1 + b2;
    let left = (rem - b1.len()) as usize;
    lemma_run_data_step(rem, b, body);
    if b2.len() == 0 {
        assert(b =~= b1);
        assert(b.skip(b1.len() as int) =~= b2);
        assert(b.take(b1.len() as int) =~= b1);
    } else {
        lemma_run_data_step(left, b2, body + b1);
        let t2: int = if left < b2.len() {
            left as int
        } else {
            b2.len() as int
        };
        let take: int = b1.len() + t2;
        assert(b.skip(take) =~= b2.skip(t2));
        assert(body + b.take(take) =~= (body + b1) + b2.take(t2));
    }
}

/// Feeding the decoder bytes in two pieces gives what feeding them at once
/// gives, where the first piece leaves it waiting for more.
pub proof fn lemma_chunked_split(st: ChunkState, b1: Seq<u8>, b2: Seq<u8>, body: Seq<u8>)
    requires
        chunk_run(st, b1, body).0 == Ok::<bool, ()>(false),
    ensures
        chunk_run(chunk_run(st, b1, body).1, chunk_run(st, b1, body).2 + b2, chunk_run(st, b1, body).3)
            == chunk_run(st, b1 + b2, body),
    decreases b1.len(), chunk_rank(st),
{
    let r = chunk_run(st, b1, body);
    let b = b1 + b2;
    match st {
        ChunkState::Size => {
            match first_crlf(b1) {
                None => {
                    lemma_run_stops(st, b1, body);
                },
                Some(p) => {
                    lemma_first_crlf_extends(b1, b2);
                    assert(b.take(p) =~= b1.take(p));
                    match chunk_size_of(b1.take(p)) {
                        None => {
                            lemma_run_stops(st, b1, body);
                            reveal(chunk_run);
                        },
                        Some(n) => {
                            let next = if n == 0 {
                                ChunkState::CRLF
                            } else {
                                ChunkState::Data { remaining: n }
                            };
                            lemma_run_size_line(b1, body, p, n);
                            lemma_run_size_line(b, body, p, n);
                            assert(b.skip(p + 2) =~= b1.skip(p + 2) + b2);
                            lemma_chunked_split(next, b1.skip(p + 2), b2, body);
                        },
                    }
                },
            }
        },
        ChunkState::Data { remaining } => {
            if b1.len() == 0 {
                lemma_run_stops(st, b1, body);
                assert(b =~= b2);
            } else if remaining <= b1.len() {
                let next = ChunkState::CRLF;
                lemma_run_data_step(remaining, b1, body);
                lemma_run_data_step(remaining, b, body);
                assert(b.skip(remaining as int) =~= b1.skip(remaining as int) + b2);
                assert(b.take(remaining as int) =~= b1.take(remaining as int));
                lemma_chunked_split(next, b1.skip(remaining as int), b2, body + b1.take(
                    remaining as int,
                ));
            } else {
                let left = (remaining - b1.len()) as usize;
                lemma_run_data_step(remaining, b1, body);
                let e = Seq::<u8>::empty();
                assert(b1.skip(b1.len() as int) =~= e);
                assert(b1.take(b1.len() as int) =~= b1);
                lemma_run_stops(ChunkState::Data { remaining: left }, e, body + b1);
                assert(e + b2 =~= b2);
                lemma_data_split(remaining, b1, b2, body);
            }
        },
        ChunkState::CRLF => {
            if b1.len() < 2 {
                lemma_run_stops(st, b1, body);
            } else if b1[0] != 13 || b1[1] != 10 {
                lemma_run_stops(st, b1, body);
                reveal(chunk_run);
            } else {
                lemma_run_crlf(b1, body);
                lemma_run_crlf(b, body);
                assert(b.skip(2) =~= b1.skip(2) + b2);
                lemma_chunked_split(ChunkState::Size, b1.skip(2), b2, body);
            }
        },
        ChunkState::Done => {
            reveal(chunk_run);
        },
    }
}

/// A malformed input stays malformed whatever bytes follow it.
proof fn lemma_chunked_error_persists(st: ChunkState, a: Seq<u8>, b: Seq<u8>, body: Seq<u8>)
    ensures
        chunk_run(st, a, body).0 is Err ==> chunk_run(st, a + b, body).0 is Err,
    decreases a.len(), chunk_rank(st),
{
    let ab = a + b;
    match st {
        ChunkState::Size => {
            match first_crlf(a) {
                None => {
                    lemma_run_stops(st, a, body);
                    reveal(chunk_run);
                },
                Some(p) => {
                    lemma_first_crlf_extends(a, b);
                    assert(ab.take(p) =~= a.take(p));
                    match chunk_size_of(a.take(p)) {
                        None => {
                            reveal(chunk_run);
                        },
                        Some(n) => {
                            let next = if n == 0 {
                                ChunkState::CRLF
                            } else {
                                ChunkState::Data { remaining: n }
                            };
                            lemma_run_size_line(a, body, p, n);
                            lemma_run_size_line(ab, body, p, n);
                            assert(ab.skip(p + 2) =~= a.skip(p + 2) + b);
                            lemma_chunked_error_persists(next, a.skip(p + 2), b, body);
                        },
                    }
                },
            }
        },
        ChunkState::Data { remaining } => {
            if a.len() == 0 {
                reveal(chunk_run);
            } else if remaining <= a.len() {
                lemma_run_data_step(remaining, a, body);
                lemma_run_data_step(remaining, ab, body);
                assert(ab.skip(remaining as int) =~= a.skip(remaining as int) + b);
                assert(ab.take(remaining as int) =~= a.take(remaining as int));
                lemma_chunked_error_persists(
                    ChunkState::CRLF,
                    a.skip(remaining as int),
                    b,
                    body + a.take(remaining as int),
                );
            } else {
                let left = (remaining - a.len()) as usize;
                lemma_run_data_step(remaining, a, body);
                let e = Seq::<u8>::empty();
                assert(a.skip(a.len() as int) =~= e);
                reveal(chunk_run);
                assert(chunk_run(ChunkState::Data { remaining: left }, e, body + a.take(a.len() as int)).0
                    == Ok::<bool, ()>(false));
            }
        },
        ChunkState::CRLF => {
            if a.len() < 2 {
                reveal(chunk_run);
            } else if a[0] != 13 || a[1] != 10 {
                reveal(chunk_run);
                assert(ab[0] == a[0] && ab[1] == a[1]);
            } else {
                lemma_run_crlf(a, body);
                lemma_run_crlf(ab, body);
                assert(ab.skip(2) =~= a.skip(2) + b);
                lemma_chunked_error_persists(ChunkState::Size, a.skip(2), b, body);
            }
        },
        ChunkState::Done => {
            reveal(chunk_run);
        },
    }
}

/// Feeding the decoder bytes in two pieces gives what feeding them at once
/// gives, wherever feeding them at once succeeds: the first piece then
/// leaves the decoder waiting for more or finds the body complete, and
/// going on with the leftover bytes and the second piece ends where the
/// single run ends.
pub proof fn lemma_chunked_two_pieces(st: ChunkState, a: Seq<u8>, b: Seq<u8>, body: Seq<u8>)
    requires
        chunk_run(st, a + b, body).0 is Ok,
    ensures
        chunk_run(st, a, body).0 is Ok,
        chunk_run(chunk_run(st, a, body).1, chunk_run(st, a, body).2 + b, chunk_run(st, a, body).3)
            == chunk_run(st, a + b, body),
{
    lemma_chunked_error_persists(st, a, b, body);
    let r = chunk_run(st, a, body);
    match r.0 {
        Ok(true) => {
            lemma_chunked_complete_only_from_done(st, a, body);
            reveal(chunk_run);
        },
        Ok(false) => {
            lemma_chunked_split(st, a, b, body);
        },
        Err(_) => {},
    }
}

/// The first CRLF is a CRLF with none before it.
proof fn lemma_first_crlf_facts(b: Seq<u8>)
    requires
        first_crlf(b) is Some,
    ensures
        crlf_at(b, first_crlf(b)->0),
        forall|q: int| 0 <= q < first_crlf(b)->0 ==> !crlf_at(b, q),
{
    reveal(first_crlf);
    let w = choose|x: int| crlf_at(b, x);
    lemma_least_crlf(b, w);
}

/// The bytes the decoder takes into the body do not depend on the body it
/// started with: it only appends to it.
pub proof fn lemma_chunked_body_independent(st: ChunkState, buf: Seq<u8>, body: Seq<u8>)
    ensures
        ({
            let r = chunk_run(st, buf, Seq::empty());
            chunk_run(st, buf, body) == (r.0, r.1, r.2, body + r.3)
        }),
    decreases buf.len(), chunk_rank(st),
{
    let e = Seq::<u8>::empty();
    assert(body + e =~= body);
    match st {
        ChunkState::Size => {
            match first_crlf(buf) {
                None => {
                    reveal(chunk_run);
                },
                Some(p) => {
                    match chunk_size_of(buf.take(p)) {
                        None => {
                            reveal(chunk_run);
                        },
                        Some(n) => {
                            lemma_first_crlf_facts(buf);
                            let next = if n == 0 {
                                ChunkState::CRLF
                            } else {
                                ChunkState::Data { remaining: n }
                            };
                            lemma_run_size_line(buf, body, p, n);
                            lemma_run_size_line(buf, e, p, n);
                            lemma_chunked_body_independent(next, buf.skip(p + 2), body);
                        },
                    }
                },
            }
        },
        ChunkState::Data { remaining } => {
            if buf.len() == 0 {
                reveal(chunk_run);
            } else {
                let take: int = if remaining < buf.len() {
                    remaining as int
                } else {
                    buf.len() as int
                };
                let left = (remaining - take) as usize;
                let next = if left == 0 {
                    ChunkState::CRLF
                } else {
                    ChunkState::Data { remaining: left }
                };
                lemma_run_data_step(remaining, buf, body);
                lemma_run_data_step(remaining, buf, e);
                let t = buf.take(take);
                lemma_chunked_body_independent(next, buf.skip(take), body + t);
                lemma_chunked_body_independent(next, buf.skip(take), e + t);
                let d = chunk_run(next, buf.skip(take), e).3;
                assert((body + t) + d =~= body + ((e + t) + d));
            }
        },
        ChunkState::CRLF => {
            if buf.len() < 2 || buf[0] != 13 || buf[1] != 10 {
                reveal(chunk_run);
            } else {
                lemma_run_crlf(buf, body);
                lemma_run_crlf(buf, e);
                lemma_chunked_body_independent(ChunkState::Size, buf.skip(2), body);
            }
        },
        ChunkState::Done => {
            reveal(chunk_run);
        },
    }
}

/// What the decoder gains is made of the bytes it consumed alone: where
/// it leaves the buffer after its first `k` bytes, running it on just those
/// `k` bytes, from the same state and body, consumes them all and ends in
/// the same body; it ends in the same state too, unless it starts inside a
/// chunk with nothing left to read and consumes nothing (the decoder then
/// moves on to the CRLF only when a byte is buffered).
pub proof fn lemma_chunked_consumed_prefix(st: ChunkState, buf: Seq<u8>, body: Seq<u8>)
    ensures
        ({
            let r = chunk_run(st, buf, body);
            let k = buf.len() - r.2.len();
            let c = chunk_run(st, buf.take(k), body);
            &&& 0 <= k <= buf.len()
            &&& r.2 == buf.skip(k)
            &&& (c.1 == r.1 || (st == ChunkState::Data { remaining: 0 } && k == 0))
            &&& c.2 == Seq::<u8>::empty()
            &&& c.3 == r.3
        }),
    decreases buf.len(), chunk_rank(st),
{
    let r = chunk_run(st, buf, body);
    let e = Seq::<u8>::empty();
    assert(buf.skip(0) =~= buf);
    assert(buf.take(0) =~= e);
    assert(!crlf_at(e, 0));
    assert(first_crlf(e) is None) by {
        reveal(first_crlf);
    }
    match st {
        ChunkState::Size => {
            match first_crlf(buf) {
                None => {
                    reveal(chunk_run);
                },
                Some(p) => {
                    match chunk_size_of(buf.take(p)) {
                        None => {
                            reveal(chunk_run);
                        },
                        Some(n) => {
                            lemma_first_crlf_facts(buf);
                            let next = if n == 0 {
                                ChunkState::CRLF
                            } else {
                                ChunkState::Data { remaining: n }
                            };
                            let b2 = buf.skip(p + 2);
                            lemma_run_size_line(buf, body, p, n);
                            lemma_chunked_consumed_prefix(next, b2, body);
                            let k2 = b2.len() - r.2.len();
                            let k = p + 2 + k2;
                            assert(r.2 =~= buf.skip(k));
                            let c = buf.take(k);
                            assert forall|q: int| 0 <= q < p implies !crlf_at(c, q) by {
                                assert(!crlf_at(buf, q));
                                assert(c[q] == buf[q] && c[q + 1] == buf[q + 1]);
                            }
                            assert(c[p] == buf[p] && c[p + 1] == buf[p + 1]);
                            lemma_first_crlf(c, p);
                            assert(c.take(p) =~= buf.take(p));
                            lemma_run_size_line(c, body, p, n);
                            assert(c.skip(p + 2) =~= b2.take(k2));
                        },
                    }
                },
            }
        },
        ChunkState::Data { remaining } => {
            if buf.len() == 0 {
                reveal(chunk_run);
            } else {
                let take: int = if remaining < buf.len() {
                    remaining as int
                } else {
                    buf.len() as int
                };
                let left = (remaining - take) as usize;
                let next = if left == 0 {
                    ChunkState::CRLF
                } else {
                    ChunkState::Data { remaining: left }
                };
                let b2 = buf.skip(take);
                lemma_run_data_step(remaining, buf, body);
                lemma_chunked_consumed_prefix(next, b2, body + buf.take(take));
                let k2 = b2.len() - r.2.len();
                let k = take + k2;
                assert(r.2 =~= buf.skip(k));
                if k == buf.len() {
                    assert(buf.take(k) =~= buf);
                    assert(r.2 =~= e);
                } else if k == 0 {
                    assert(take == 0);
                    assert(buf.take(take) =~= e);
                    assert(body + e =~= body);
                    reveal(chunk_run);
                } else {
                    let c = buf.take(k);
                    lemma_run_data_step(remaining, c, body);
                    assert(c.skip(take) =~= b2.take(k2));
                    assert(c.take(take) =~= buf.take(take));
                }
            }
        },
        ChunkState::CRLF => {
            if buf.len() < 2 || buf[0] != 13 || buf[1] != 10 {
                reveal(chunk_run);
            } else {
                let b2 = buf.skip(2);
                lemma_run_crlf(buf, body);
                lemma_chunked_consumed_prefix(ChunkState::Size, b2, body);
                let k2 = b2.len() - r.2.len();
                let k = 2 + k2;
                assert(r.2 =~= buf.skip(k));
                let c = buf.take(k);
                lemma_run_crlf(c, body);
                assert(c.skip(2) =~= b2.take(k2));
            }
        },
        ChunkState::Done => {
            reveal(chunk_run);
        },
    }
}

} // verus!
