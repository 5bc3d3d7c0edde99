//! One client connection: the bytes read from it and the request being
//! assembled from them, and the response being written back.
use vstd::prelude::*;
use crate::head::{parse_request_head, parsed_head, RequestHead};
use crate::request::{
    body_mode_of, body_mode_of_headers, chunk_run, process_chunked, BodyMode, ChunkState,
    HeaderView, ParsedRequest, RequestView,
};
use crate::text::{copy_bytes, drop_front, push_all};

verus! {

/// The HTTP minor version a request is given when the parser reports none.
pub const DEFAULT_MINOR_VERSION: u8 = 1;

/// A connected client.
pub struct Client {
    pub fd: i32,
    pub listener_fd: i32,
    pub read_buf: Vec<u8>,
    pub write_buf: Vec<u8>,
    pub write_offset: usize,
    pub request: Option<ParsedRequest>,
    pub chunk_state: Option<ChunkState>,
    pub chunked_body: Vec<u8>,
}

/// The mathematical value of a [`Client`].
pub struct ClientView {
    pub fd: i32,
    pub listener_fd: i32,
    pub read_buf: Seq<u8>,
    pub write_buf: Seq<u8>,
    pub write_offset: usize,
    pub request: Option<RequestView>,
    pub chunk_state: Option<ChunkState>,
    pub chunked_body: Seq<u8>,
}

impl View for Client {
    type V = ClientView;

    open spec fn view(&self) -> ClientView {
        ClientView {
            fd: self.fd,
            listener_fd: self.listener_fd,
            read_buf: self.read_buf@,
            write_buf: self.write_buf@,
            write_offset: self.write_offset,
            request: match self.request {
                Some(r) => Some(r@),
                None => None,
            },
            chunk_state: self.chunk_state,
            chunked_body: self.chunked_body@,
        }
    }
}

/// What reading some bytes leads to.
pub enum ReadEvent {
    /// The request is not complete yet.
    Pending,
    /// A complete request, to be answered.
    Complete(ParsedRequest),
    /// The chunked body is malformed: the connection is to be closed.
    Close,
    /// A `Content-Length` value that is not UTF-8 comes before any that
    /// parses: no body mode can be given to the request.
    InvalidContentLength,
}

/// The mathematical value of a [`ReadEvent`].
pub enum ReadEventView {
    Pending,
    Complete(RequestView),
    Close,
    InvalidContentLength,
}

impl View for ReadEvent {
    type V = ReadEventView;

    open spec fn view(&self) -> ReadEventView {
        match self {
            ReadEvent::Pending => ReadEventView::Pending,
            ReadEvent::Complete(r) => ReadEventView::Complete(r@),
            ReadEvent::Close => ReadEventView::Close,
            ReadEvent::InvalidContentLength => ReadEventView::InvalidContentLength,
        }
    }
}

impl Client {
    /// A freshly accepted client with empty buffers.
    pub fn new(fd: i32, listener_fd: i32) -> (c: Client)
        ensures
            c@ == (ClientView {
                fd,
                listener_fd,
                read_buf: Seq::empty(),
                write_buf: Seq::empty(),
                write_offset: 0,
                request: None,
                chunk_state: None,
                chunked_body: Seq::empty(),
            }),
    {
        Client {
            fd,
            listener_fd,
            read_buf: Vec::new(),
            write_buf: Vec::new(),
            write_offset: 0,
            request: None,
            chunk_state: None,
            chunked_body: Vec::new(),
        }
    }
}

/// The request that a complete head starts, with the given body mode.
pub open spec fn request_from_head(
    h: (usize, Option<Seq<char>>, Option<Seq<char>>, Option<u8>, Seq<HeaderView>),
    mode: BodyMode,
) -> RequestView {
    RequestView {
        method: Some(
            match h.1 {
                Some(m) => m,
                None => Seq::empty(),
            },
        ),
        path: Some(
            match h.2 {
                Some(p) => p,
                None => Seq::empty(),
            },
        ),
        version: Some(
            match h.3 {
                Some(v) => v,
                None => DEFAULT_MINOR_VERSION,
            },
        ),
        headers: Some(h.4),
        body: Seq::empty(),
        body_mode: mode,
    }
}

/// The client once a complete head has been read and removed from the read
/// buffer; `true` where the request has no body and is complete already.
pub open spec fn accept_head(
    c: ClientView,
    h: (usize, Option<Seq<char>>, Option<Seq<char>>, Option<u8>, Seq<HeaderView>),
    mode: BodyMode,
) -> (ClientView, bool) {
    let c1 = ClientView {
        read_buf: c.read_buf.skip(h.0 as int),
        request: Some(request_from_head(h, mode)),
        chunk_state: if mode == BodyMode::Chunked {
            Some(ChunkState::Size)
        } else {
            c.chunk_state
        },
        chunked_body: if mode == BodyMode::Chunked {
            Seq::empty()
        } else {
            c.chunked_body
        },
        ..c
    };
    (c1, mode == BodyMode::NoBody)
}

/// The body phase: a request with a `Content-Length` body takes its body
/// once that many bytes are buffered; a chunked one runs the decoder.
/// Gives the client, whether the request is complete, and whether the
/// chunked body turned out malformed.
pub open spec fn body_phase(c: ClientView) -> (ClientView, bool, bool) {
    match c.request {
        None => (c, false, false),
        Some(req) => match req.body_mode {
            BodyMode::ContentLength(len) => {
                if c.read_buf.len() >= len {
                    (
                        ClientView {
                            read_buf: c.read_buf.skip(len as int),
                            request: Some(RequestView { body: c.read_buf.take(len as int), ..req }),
                            ..c
                        },
                        true,
                        false,
                    )
                } else {
                    (c, false, false)
                }
            },
            BodyMode::Chunked => match c.chunk_state {
                None => (c, false, false),
                Some(cs) => {
                    let (res, st, buf, body) = chunk_run(cs, c.read_buf, c.chunked_body);
                    match res {
                        Err(_) => (
                            ClientView {
                                read_buf: buf,
                                chunk_state: Some(st),
                                chunked_body: body,
                                ..c
                            },
                            false,
                            true,
                        ),
                        Ok(false) => (
                            ClientView {
                                read_buf: buf,
                                chunk_state: Some(st),
                                chunked_body: body,
                                ..c
                            },
                            false,
                            false,
                        ),
                        Ok(true) => (
                            ClientView {
                                read_buf: buf,
                                chunk_state: None,
                                chunked_body: Seq::empty(),
                                request: Some(
                                    RequestView {
                                        headers: Some(
                                            match req.headers {
                                                Some(hs) => hs,
                                                None => Seq::empty(),
                                            },
                                        ),
                                        body,
                                        body_mode: BodyMode::Chunked,
                                        ..req
                                    },
                                ),
                                ..c
                            },
                            true,
                            false,
                        ),
                    }
                },
            },
            BodyMode::NoBody => (c, false, false),
        },
    }
}

/// What reading leads to, once the new bytes are in the read buffer and
/// `head` is what the HTTP parser found in it (looked at only while no
/// request is under way): the client and the event.
pub open spec fn read_advance(
    c: ClientView,
    head: Option<(usize, Option<Seq<char>>, Option<Seq<char>>, Option<u8>, Seq<HeaderView>)>,
) -> (ClientView, ReadEventView) {
    let head_step: Option<(ClientView, bool)> = if c.request is None && head is Some {
        let h = head->0;
        match body_mode_of(h.4) {
            None => None,
            Some(mode) => Some(accept_head(c, h, mode)),
        }
    } else {
        Some((c, false))
    };
    match head_step {
        None => (c, ReadEventView::InvalidContentLength),
        Some((c1, done_now)) => {
            let (c2, done_body, malformed) = body_phase(c1);
            if malformed {
                (c2, ReadEventView::Close)
            } else if done_now || done_body {
                match c2.request {
                    Some(r) => (ClientView { request: None, ..c2 }, ReadEventView::Complete(r)),
                    None => (c2, ReadEventView::Pending),
                }
            } else {
                (c2, ReadEventView::Pending)
            }
        }
    }
}

impl Client {
    /// Reads in bytes that arrived from the client: appends them to the read
    /// buffer, parses the request head with the HTTP parser while no request
    /// is under way, then assembles the body.
    pub fn on_bytes(&mut self, data: &[u8]) -> (ev: ReadEvent)
        ensures
            ({
                let c0 = ClientView { read_buf: old(self)@.read_buf + data@, ..old(self)@ };
                let head = if c0.request is None {
                    parsed_head(c0.read_buf)
                } else {
                    None
                };
                (final(self)@, ev@) == read_advance(c0, head)
            }),
    {
        push_all(&mut self.read_buf, data);
        let head = if self.request.is_none() {
            parse_request_head(self.read_buf.as_slice())
        } else {
            None
        };
        self.advance(head)
    }

    /// Goes on from a read buffer that holds all the bytes read so far, given
    /// the head that the HTTP parser found in it.
    pub fn advance(&mut self, head: Option<RequestHead>) -> (ev: ReadEvent)
        requires
            old(self).request is None ==> (head matches Some(h) ==> h.len <= old(
                self,
            ).read_buf.len()),
        ensures
            (final(self)@, ev@) == read_advance(
                old(self)@,
                match head {
                    Some(h) => Some(h@),
                    None => None,
                },
            ),
    {
        let mut done_now = false;
        if self.request.is_none() {
            match head {
                Some(h) => {
                    match body_mode_of_headers(&h.headers) {
                        None => {
                            return ReadEvent::InvalidContentLength;
                        },
                        Some(mode) => {
                            drop_front(&mut self.read_buf, h.len);
                            let req = ParsedRequest {
                                method: Some(
                                    match h.method {
                                        Some(m) => m,
                                        None => String::new(),
                                    },
                                ),
                                path: Some(
                                    match h.path {
                                        Some(p) => p,
                                        None => String::new(),
                                    },
                                ),
                                version: Some(
                                    match h.version {
                                        Some(v) => v,
                                        None => DEFAULT_MINOR_VERSION,
                                    },
                                ),
                                headers: Some(h.headers),
                                body: Vec::new(),
                                body_mode: mode,
                            };
                            self.request = Some(req);
                            match mode {
                                BodyMode::NoBody => {
                                    done_now = true;
                                },
                                BodyMode::ContentLength(_) => {},
                                BodyMode::Chunked => {
                                    self.chunk_state = Some(ChunkState::Size);
                                    self.chunked_body = Vec::new();
                                },
                            }
                        },
                    }
                },
                None => {},
            }
        }
        let (done_body, malformed) = self.body_phase();
        if malformed {
            return ReadEvent::Close;
        }
        if done_now || done_body {
            match self.request.take() {
                Some(r) => ReadEvent::Complete(r),
                None => ReadEvent::Pending,
            }
        } else {
            ReadEvent::Pending
        }
    }

    fn body_phase(&mut self) -> (r: (bool, bool))
        ensures
            (final(self)@, r.0, r.1) == body_phase(old(self)@),
    {
        let mode = match &self.request {
            Some(req) => req.body_mode,
            None => {
                return (false, false);
            },
        };
        match mode {
            BodyMode::ContentLength(len) => {
                if self.read_buf.len() >= len {
                    let body = copy_bytes(self.read_buf.as_slice(), 0, len);
                    assert(body@ =~= self.read_buf@.take(len as int));
                    drop_front(&mut self.read_buf, len);
                    match self.request.take() {
                        Some(mut req) => {
                            req.body = body;
                            self.request = Some(req);
                        },
                        None => {},
                    }
                    (true, false)
                } else {
                    (false, false)
                }
            },
            BodyMode::Chunked => {
                match self.chunk_state {
                    None => (false, false),
                    Some(cs) => {
                        let mut st = cs;
                        let res = process_chunked(&mut st, &mut self.read_buf, &mut self.chunked_body);
                        match res {
                            Err(_) => {
                                self.chunk_state = Some(st);
                                (false, true)
                            },
                            Ok(false) => {
                                self.chunk_state = Some(st);
                                (false, false)
                            },
                            Ok(true) => {
                                let mut body: Vec<u8> = Vec::new();
                                std::mem::swap(&mut body, &mut self.chunked_body);
                                self.chunk_state = None;
                                match self.request.take() {
                                    Some(req) => {
                                        let headers = match req.headers {
                                            Some(hs) => hs,
                                            None => {
                                                let e: Vec<(String, Vec<u8>)> = Vec::new();
                                                assert(e.deep_view() =~= Seq::<HeaderView>::empty());
                                                e
                                            },
                                        };
                                        self.request = Some(
                                            ParsedRequest {
                                                method: req.method,
                                                path: req.path,
                                                version: req.version,
                                                headers: Some(headers),
                                                body,
                                                body_mode: BodyMode::Chunked,
                                            },
                                        );
                                    },
                                    None => {},
                                }
                                (true, false)
                            },
                        }
                    },
                }
            },
            BodyMode::NoBody => (false, false),
        }
    }
}

/// A request under way with a `Content-Length` of `n` is complete as soon
/// as `n` bytes are buffered (exactly `n` included, `0` at once): it is
/// answered with the first `n` buffered bytes as its body, and the rest
/// stays buffered.
pub proof fn lemma_content_length_completes(
    c: ClientView,
    head: Option<(usize, Option<Seq<char>>, Option<Seq<char>>, Option<u8>, Seq<HeaderView>)>,
    n: usize,
)
    requires
        c.request matches Some(req) && req.body_mode == BodyMode::ContentLength(n),
        c.read_buf.len() >= n,
    ensures
        read_advance(c, head).1 == ReadEventView::Complete(
            RequestView { body: c.read_buf.take(n as int), ..c.request->0 },
        ),
        read_advance(c, head).0.read_buf == c.read_buf.skip(n as int),
        read_advance(c, head).0.request is None,
{
}

/// A head whose headers give a `Content-Length` of `n`, followed in the
/// same read by at least `n` bytes, makes a complete request at once: its
/// method, path and headers from the head, its body the `n` bytes after
/// the head; what follows stays buffered.
pub proof fn lemma_head_and_body_complete(
    c: ClientView,
    h: (usize, Option<Seq<char>>, Option<Seq<char>>, Option<u8>, Seq<HeaderView>),
    n: usize,
)
    requires
        c.request is None,
        body_mode_of(h.4) == Some(BodyMode::ContentLength(n)),
        h.0 + n <= c.read_buf.len(),
    ensures
        read_advance(c, Some(h)).1 matches ReadEventView::Complete(r) && {
            &&& r.method == Some(
                match h.1 {
                    Some(m) => m,
                    None => Seq::<char>::empty(),
                },
            )
            &&& r.path == Some(
                match h.2 {
                    Some(p) => p,
                    None => Seq::<char>::empty(),
                },
            )
            &&& r.headers == Some(h.4)
            &&& r.body == c.read_buf.subrange(h.0 as int, h.0 + n)
            &&& r.body_mode == BodyMode::ContentLength(n)
        },
        read_advance(c, Some(h)).0.read_buf == c.read_buf.skip(h.0 + n),
{
    let b1 = c.read_buf.skip(h.0 as int);
    assert(b1.take(n as int) =~= c.read_buf.subrange(h.0 as int, h.0 + n));
    assert(b1.skip(n as int) =~= c.read_buf.skip(h.0 + n));
}

} // verus!
