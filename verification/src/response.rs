//! The bytes of a response: the status line and headers, error pages, and
//! what the reply of a CGI script turns into.
use vstd::prelude::*;
use vstd::utf8::encode_utf8;
use crate::config::ServerConfig;
use crate::text::{bytes_of, decimal, push_all, render_decimal};

verus! {

broadcast use vstd::std_specs::hash::group_hash_axioms;

/// The response bytes: status line, the fixed headers, the extra header
/// lines, an empty line and the body.
pub open spec fn response_bytes(code: u16, text: Seq<char>, extra: Seq<u8>, body: Seq<u8>) -> Seq<u8> {
    encode_utf8("HTTP/1.1 "@) + decimal(code as nat) + encode_utf8(" "@) + encode_utf8(text)
        + encode_utf8("\r\nContent-Length: "@) + decimal(body.len()) + encode_utf8(
        "\r\nContent-Type: text/html; charset=UTF-8\r\nConnection: close\r\n"@,
    ) + extra + encode_utf8("\r\n"@) + body
}

/// Renders a whole response.
pub fn render_response(status_code: u16, status_text: &str, extra_headers: &[u8], body: &[u8]) -> (r:
    Vec<u8>)
    ensures
        r@ == response_bytes(status_code, status_text@, extra_headers@, body@),
{
    let mut out = bytes_of("HTTP/1.1 ");
    push_all(&mut out, render_decimal(status_code as u64).as_slice());
    push_all(&mut out, bytes_of(" ").as_slice());
    push_all(&mut out, bytes_of(status_text).as_slice());
    push_all(&mut out, bytes_of("\r\nContent-Length: ").as_slice());
    push_all(&mut out, render_decimal(body.len() as u64).as_slice());
    push_all(
        &mut out,
        bytes_of("\r\nContent-Type: text/html; charset=UTF-8\r\nConnection: close\r\n").as_slice(),
    );
    push_all(&mut out, extra_headers);
    push_all(&mut out, bytes_of("\r\n").as_slice());
    push_all(&mut out, body);
    out
}

/// One header line `key: value` CRLF.
pub open spec fn header_line_bytes(key: Seq<char>, value: Seq<char>) -> Seq<u8> {
    encode_utf8(key) + encode_utf8(": "@) + encode_utf8(value) + encode_utf8("\r\n"@)
}

/// One header line.
pub fn header_line(key: &str, value: &str) -> (r: Vec<u8>)
    ensures
        r@ == header_line_bytes(key@, value@),
{
    let mut out = bytes_of(key);
    push_all(&mut out, bytes_of(": ").as_slice());
    push_all(&mut out, bytes_of(value).as_slice());
    push_all(&mut out, bytes_of("\r\n").as_slice());
    out
}

/// The `Location` header line of a redirect.
pub fn location_header(location: &str) -> (r: Vec<u8>)
    ensures
        r@ == header_line_bytes("Location"@, location@),
{
    header_line("Location", location)
}

/// The built-in error page: `<code> <text>` as title and heading.
pub open spec fn fallback_page(code: u16, text: Seq<char>) -> Seq<u8> {
    encode_utf8("<html><head><title>"@) + decimal(code as nat) + encode_utf8(" "@) + encode_utf8(
        text,
    ) + encode_utf8("</title></head><body><h1>"@) + decimal(code as nat) + encode_utf8(" "@)
        + encode_utf8(text) + encode_utf8("</h1></body></html>"@)
}

/// The built-in error page.
pub fn fallback_error_body(code: u16, status_text: &str) -> (r: Vec<u8>)
    ensures
        r@ == fallback_page(code, status_text@),
{
    let digits = render_decimal(code as u64);
    let text = bytes_of(status_text);
    let sp = bytes_of(" ");
    let mut out = bytes_of("<html><head><title>");
    push_all(&mut out, digits.as_slice());
    push_all(&mut out, sp.as_slice());
    push_all(&mut out, text.as_slice());
    push_all(&mut out, bytes_of("</title></head><body><h1>").as_slice());
    push_all(&mut out, digits.as_slice());
    push_all(&mut out, sp.as_slice());
    push_all(&mut out, text.as_slice());
    push_all(&mut out, bytes_of("</h1></body></html>").as_slice());
    out
}

/// The custom error page configured for `code`, if the server has one.
pub open spec fn error_page_of(code: u16, server: Option<ServerConfig>) -> Option<Seq<char>> {
    match server {
        Some(s) => if s.error_pages@.contains_key(code) {
            Some(s.error_pages@[code]@)
        } else {
            None
        },
        None => None,
    }
}

/// The path of the custom error page for `code`, if the server configures one.
pub fn error_page_path(code: u16, server: Option<&ServerConfig>) -> (r: Option<String>)
    ensures
        match r {
            Some(p) => error_page_of(code, crate::router::server_of(server)) == Some(p@),
            None => error_page_of(code, crate::router::server_of(server)) is None,
        },
{
    match server {
        Some(cfg) => match cfg.error_pages.get(&code) {
            Some(p) => Some(p.clone()),
            None => None,
        },
        None => None,
    }
}

// ---------------------------------------------------------------------------
// CGI replies
// ---------------------------------------------------------------------------

/// What a CGI script printed, once read as JSON: its headers (in the order
/// they were read), an error to report, a status, and the body.
pub struct CgiReply {
    pub headers: Vec<(String, String)>,
    pub error: Option<(u16, String)>,
    pub status: Option<u16>,
    pub body: String,
}

/// The body of a response to a CGI request.
pub enum PlannedBody {
    /// These bytes.
    Bytes(Vec<u8>),
    /// The error page for `code`, with `text` in the built-in one.
    ErrorPage { code: u16, text: String },
}

/// The response to a CGI request.
pub struct CgiPlan {
    pub status_code: u16,
    pub status_text: &'static str,
    pub extra_headers: Vec<u8>,
    pub body: PlannedBody,
}

/// The reason phrase a CGI status is given.
pub open spec fn cgi_status_text(status: u16) -> Seq<char> {
    if status == 301 {
        "Moved Permanently"@
    } else if status == 302 {
        "Found"@
    } else if status == 303 {
        "See Other"@
    } else {
        "OK"@
    }
}

/// The header lines of a CGI reply, in order.
pub open spec fn cgi_header_bytes(hs: Seq<(Seq<char>, Seq<char>)>) -> Seq<u8>
    decreases hs.len(),
{
    if hs.len() == 0 {
        seq![]
    } else {
        cgi_header_bytes(hs.drop_last()) + header_line_bytes(hs.last().0, hs.last().1)
    }
}

/// The response to a CGI request, given the script's reply (`None` where
/// it could not be run or did not print a reply): with no reply, the 500
/// error page with `CGI Error`; with an error, that status and its error
/// page; else status 200 or the reply's status, its headers and its body.
pub open spec fn cgi_plan(reply: Option<(Seq<(Seq<char>, Seq<char>)>, Option<(u16, Seq<char>)>, Option<u16>, Seq<char>)>) -> (u16, Seq<char>, Seq<u8>, Result<Seq<u8>, (u16, Seq<char>)>) {
    match reply {
        None => (500, "CGI Error"@, seq![], Err((500, "CGI Error"@))),
        Some((hs, error, status, body)) => match error {
            Some((code, msg)) => (code, "Error"@, seq![], Err((code, msg))),
            None => {
                let (code, text) = match status {
                    Some(st) => (st, cgi_status_text(st)),
                    None => (200u16, "OK"@),
                };
                (code, text, cgi_header_bytes(hs), Ok(encode_utf8(body)))
            },
        },
    }
}

impl View for CgiReply {
    type V = (Seq<(Seq<char>, Seq<char>)>, Option<(u16, Seq<char>)>, Option<u16>, Seq<char>);

    open spec fn view(&self) -> Self::V {
        (
            self.headers.deep_view(),
            match self.error {
                Some((c, m)) => Some((c, m@)),
                None => None,
            },
            self.status,
            self.body@,
        )
    }
}

impl View for CgiPlan {
    type V = (u16, Seq<char>, Seq<u8>, Result<Seq<u8>, (u16, Seq<char>)>);

    open spec fn view(&self) -> Self::V {
        (
            self.status_code,
            self.status_text@,
            self.extra_headers@,
            match self.body {
                PlannedBody::Bytes(b) => Ok(b@),
                PlannedBody::ErrorPage { code, text } => Err((code, text@)),
            },
        )
    }
}

/// What to answer a CGI request with, given the script's reply.
pub fn plan_cgi(reply: Option<CgiReply>) -> (r: CgiPlan)
    ensures
        r@ == cgi_plan(
            match reply {
                Some(x) => Some(x@),
                None => None,
            },
        ),
{
    match reply {
        None => CgiPlan {
            status_code: 500,
            status_text: "CGI Error",
            extra_headers: Vec::new(),
            body: PlannedBody::ErrorPage { code: 500, text: "CGI Error".to_owned() },
        },
        Some(rep) => {
            let ghost v = rep@;
            match rep.error {
                Some((code, msg)) => CgiPlan {
                    status_code: code,
                    status_text: "Error",
                    extra_headers: Vec::new(),
                    body: PlannedBody::ErrorPage { code, text: msg },
                },
                None => {
                    let (code, text): (u16, &'static str) = match rep.status {
                        Some(st) => {
                            let t = if st == 301 {
                                "Moved Permanently"
                            } else if st == 302 {
                                "Found"
                            } else if st == 303 {
                                "See Other"
                            } else {
                                "OK"
                            };
                            (st, t)
                        },
                        None => (200, "OK"),
                    };
                    let mut extra: Vec<u8> = Vec::new();
                    let ghost hv = rep.headers.deep_view();
                    let mut i: usize = 0;
                    while i < rep.headers.len()
                        invariant
                            i <= rep.headers.len(),
                            hv == rep.headers.deep_view(),
                            extra@ == cgi_header_bytes(hv.take(i as int)),
                        decreases rep.headers.len() - i,
                    {
                        assert(hv.take(i + 1).drop_last() =~= hv.take(i as int));
                        let line = header_line(rep.headers[i].0.as_str(), rep.headers[i].1.as_str());
                        push_all(&mut extra, line.as_slice());
                        i = i + 1;
                    }
                    assert(hv.take(rep.headers.len() as int) =~= hv);
                    CgiPlan {
                        status_code: code,
                        status_text: text,
                        extra_headers: extra,
                        body: PlannedBody::Bytes(bytes_of(rep.body.as_str())),
                    }
                },
            }
        },
    }
}

// ---------------------------------------------------------------------------
// Response plans
// ---------------------------------------------------------------------------

/// What the program does to obtain the body of a response.
pub enum BodyTask<'a> {
    /// No body.
    Empty,
    /// The content of the file at `path`; no body where it cannot be read.
    ReadFile { path: String },
    /// The error page of `server` for `code`, else the built-in page with `text`.
    ErrorPage { code: u16, text: String, server: Option<&'a ServerConfig> },
    /// Save the files of the multipart upload; no body.
    SaveUpload { body: Vec<u8>, content_type: String },
    /// Run the CGI script: the response is then what [`plan_cgi`] makes of
    /// its reply, its error page being that of `server`.
    RunCgi {
        interpreter: String,
        path: String,
        method: String,
        body: Vec<u8>,
        server: Option<&'a ServerConfig>,
        session: Option<String>,
    },
}

/// The mathematical value of a [`BodyTask`].
pub enum TaskView {
    Empty,
    ReadFile { path: Seq<char> },
    ErrorPage { code: u16, text: Seq<char>, server: Option<ServerConfig> },
    SaveUpload { body: Seq<u8>, content_type: Seq<char> },
    RunCgi {
        interpreter: Seq<char>,
        path: Seq<char>,
        method: Seq<char>,
        body: Seq<u8>,
        server: Option<ServerConfig>,
        session: Option<Seq<char>>,
    },
}

impl<'a> View for BodyTask<'a> {
    type V = TaskView;

    open spec fn view(&self) -> TaskView {
        match self {
            BodyTask::Empty => TaskView::Empty,
            BodyTask::ReadFile { path } => TaskView::ReadFile { path: path@ },
            BodyTask::ErrorPage { code, text, server } => TaskView::ErrorPage {
                code: *code,
                text: text@,
                server: crate::router::server_of(*server),
            },
            BodyTask::SaveUpload { body, content_type } => TaskView::SaveUpload {
                body: body@,
                content_type: content_type@,
            },
            BodyTask::RunCgi { interpreter, path, method, body, server, session } => TaskView::RunCgi {
                interpreter: interpreter@,
                path: path@,
                method: method@,
                body: body@,
                server: crate::router::server_of(*server),
                session: session.deep_view(),
            },
        }
    }
}

/// A response before its body is known: the status line, the extra header
/// lines, and how to obtain the body.
pub struct ResponsePlan<'a> {
    pub status_code: u16,
    pub status_text: &'static str,
    pub extra_headers: Vec<u8>,
    pub task: BodyTask<'a>,
}

/// The mathematical value of a [`ResponsePlan`].
pub struct PlanView {
    pub status_code: u16,
    pub status_text: Seq<char>,
    pub extra_headers: Seq<u8>,
    pub task: TaskView,
}

impl<'a> View for ResponsePlan<'a> {
    type V = PlanView;

    open spec fn view(&self) -> PlanView {
        PlanView {
            status_code: self.status_code,
            status_text: self.status_text@,
            extra_headers: self.extra_headers@,
            task: self.task@,
        }
    }
}

/// How a routed response is made: its status stays; a redirect gets its
/// `Location` header and no body; a directory listing and an upload have
/// no body (the upload's files are saved); an error gets its error page; a
/// file its content; a CGI request what its script replies.
pub open spec fn response_plan(r: crate::router::ResponseView) -> PlanView {
    let task = match r.action {
        crate::router::ActionView::ServeFile { path } => TaskView::ReadFile { path },
        crate::router::ActionView::Redirect { .. } => TaskView::Empty,
        crate::router::ActionView::AutoIndex { .. } => TaskView::Empty,
        crate::router::ActionView::Error { server } => TaskView::ErrorPage {
            code: r.status_code,
            text: r.status_text,
            server,
        },
        crate::router::ActionView::Cgi { interpreter, path, method, body, server, session } => {
            TaskView::RunCgi { interpreter, path, method, body, server, session }
        },
        crate::router::ActionView::Upload { body, content_type } => TaskView::SaveUpload {
            body,
            content_type,
        },
    };
    PlanView {
        status_code: r.status_code,
        status_text: r.status_text,
        extra_headers: match r.action {
            crate::router::ActionView::Redirect { location } => header_line_bytes("Location"@, location),
            _ => seq![],
        },
        task,
    }
}

/// Plans the response to a routed request.
pub fn plan_response<'a>(resp: crate::router::ResponseCore<'a>) -> (p: ResponsePlan<'a>)
    ensures
        p@ == response_plan(resp@),
{
    let code = resp.status_code;
    let text = resp.status_text;
    match resp.action {
        crate::router::ResponseAction::ServeFile { path } => ResponsePlan {
            status_code: code,
            status_text: text,
            extra_headers: Vec::new(),
            task: BodyTask::ReadFile { path },
        },
        crate::router::ResponseAction::Redirect { location } => ResponsePlan {
            status_code: code,
            status_text: text,
            extra_headers: location_header(location.as_str()),
            task: BodyTask::Empty,
        },
        crate::router::ResponseAction::AutoIndex { .. } => ResponsePlan {
            status_code: code,
            status_text: text,
            extra_headers: Vec::new(),
            task: BodyTask::Empty,
        },
        crate::router::ResponseAction::Error { server } => ResponsePlan {
            status_code: code,
            status_text: text,
            extra_headers: Vec::new(),
            task: BodyTask::ErrorPage { code, text: text.to_owned(), server },
        },
        crate::router::ResponseAction::Cgi { interpreter, path, method, body, server, session } => {
            ResponsePlan {
                status_code: code,
                status_text: text,
                extra_headers: Vec::new(),
                task: BodyTask::RunCgi { interpreter, path, method, body, server, session },
            }
        },
        crate::router::ResponseAction::Upload { body, content_type } => ResponsePlan {
            status_code: code,
            status_text: text,
            extra_headers: Vec::new(),
            task: BodyTask::SaveUpload { body, content_type },
        },
    }
}

/// The layout of a response: a head that depends only on the status and
/// the body, then the given extra header lines whatever they are (none
/// dropped, none added), the blank line, and the body.
pub proof fn lemma_response_layout(code: u16, text: Seq<char>, body: Seq<u8>)
    ensures
        exists|head: Seq<u8>|
            head.len() > 0 && forall|extra: Seq<u8>| #[trigger] response_bytes(code, text, extra, body)
                == head + extra + seq![13u8, 10] + body,
{
    let head = encode_utf8("HTTP/1.1 "@) + decimal(code as nat) + encode_utf8(" "@) + encode_utf8(text)
        + encode_utf8("\r\nContent-Length: "@) + decimal(body.len()) + encode_utf8(
        "\r\nContent-Type: text/html; charset=UTF-8\r\nConnection: close\r\n"@,
    );
    crate::text::lemma_decimal_ascii(code as nat);
    assert(encode_utf8("\r\n"@) =~= seq![13u8, 10]) by {
        reveal_strlit("\r\n");
        assert(vstd::utf8::is_ascii_chars("\r\n"@));
        vstd::utf8::is_ascii_chars_encode_utf8("\r\n"@);
    }
    assert forall|extra: Seq<u8>| #[trigger] response_bytes(code, text, extra, body) == head + extra
        + seq![13u8, 10] + body by {
        assert(response_bytes(code, text, extra, body) =~= head + extra + seq![13u8, 10] + body);
    }
}

/// A plan keeps the routed status and takes the body from the action's own
/// data: a file is read from the very path that was routed to, an error
/// gets the page for its own status, a script or an upload is handed on
/// whole; only a redirect adds a header line (its `Location`), and only a
/// redirect or a listing has no body to obtain.
pub proof fn lemma_plan_follows_action(r: crate::router::ResponseView)
    ensures
        response_plan(r).status_code == r.status_code,
        response_plan(r).status_text == r.status_text,
        r.action matches crate::router::ActionView::ServeFile { path } ==> response_plan(r).task
            == (TaskView::ReadFile { path }) && response_plan(r).extra_headers.len() == 0,
        r.action matches crate::router::ActionView::Error { server } ==> response_plan(r).task == (
        TaskView::ErrorPage { code: r.status_code, text: r.status_text, server })
            && response_plan(r).extra_headers.len() == 0,
        r.action matches crate::router::ActionView::Redirect { location } ==> response_plan(r).task
            == TaskView::Empty && response_plan(r).extra_headers == encode_utf8("Location"@)
            + encode_utf8(": "@) + encode_utf8(location) + encode_utf8("\r\n"@),
        r.action matches crate::router::ActionView::AutoIndex { .. } ==> response_plan(r).task
            == TaskView::Empty && response_plan(r).extra_headers.len() == 0,
        r.action matches crate::router::ActionView::Cgi {
            interpreter,
            path,
            method,
            body,
            server,
            session,
        } ==> response_plan(r).task == (TaskView::RunCgi {
            interpreter,
            path,
            method,
            body,
            server,
            session,
        }) && response_plan(r).extra_headers.len() == 0,
        r.action matches crate::router::ActionView::Upload { body, content_type }
            ==> response_plan(r).task == (TaskView::SaveUpload { body, content_type })
            && response_plan(r).extra_headers.len() == 0,
{
}

} // verus!
