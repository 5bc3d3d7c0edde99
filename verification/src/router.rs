//! The router: from a request to what the response is made of.
use vstd::prelude::*;
use crate::config::{Route, ServerConfig};
use crate::request::{HeaderView, ParsedRequest, RequestView};
use crate::text::{
    chars_ends_with, chars_of, chars_starts_with, copy_chars, has_prefix, has_suffix,
    parse_u16, parse_unsigned, string_from_chars, trim_start_char, trim_start_matches_char,
    utf8_chars, utf8_chars_of,
};
use crate::utils::{
    cookie_of, find_header, first_header, get_cookie, split_once_at, split_once_char,
};

verus! {

/// What a response is to be made of.
pub enum ResponseAction<'a> {
    ServeFile { path: String },
    Redirect { location: String },
    AutoIndex { dir: String, path: String },
    Error { server: Option<&'a ServerConfig> },
    Cgi {
        interpreter: String,
        path: String,
        method: String,
        body: Vec<u8>,
        server: Option<&'a ServerConfig>,
        session: Option<String>,
    },
    Upload { body: Vec<u8>, content_type: String },
}

/// A status line and what the response is to be made of.
pub struct ResponseCore<'a> {
    pub status_code: u16,
    pub status_text: &'static str,
    pub action: ResponseAction<'a>,
}

/// The mathematical value of a [`ResponseAction`].
pub enum ActionView {
    ServeFile { path: Seq<char> },
    Redirect { location: Seq<char> },
    AutoIndex { dir: Seq<char>, path: Seq<char> },
    Error { server: Option<ServerConfig> },
    Cgi {
        interpreter: Seq<char>,
        path: Seq<char>,
        method: Seq<char>,
        body: Seq<u8>,
        server: Option<ServerConfig>,
        session: Option<Seq<char>>,
    },
    Upload { body: Seq<u8>, content_type: Seq<char> },
}

/// The server that an optional reference designates.
pub open spec fn server_of(s: Option<&ServerConfig>) -> Option<ServerConfig> {
    match s {
        Some(x) => Some(*x),
        None => None,
    }
}

impl<'a> View for ResponseAction<'a> {
    type V = ActionView;

    open spec fn view(&self) -> ActionView {
        match self {
            ResponseAction::ServeFile { path } => ActionView::ServeFile { path: path@ },
            ResponseAction::Redirect { location } => ActionView::Redirect { location: location@ },
            ResponseAction::AutoIndex { dir, path } => ActionView::AutoIndex {
                dir: dir@,
                path: path@,
            },
            ResponseAction::Error { server } => ActionView::Error { server: server_of(*server) },
            ResponseAction::Cgi { interpreter, path, method, body, server, session } => {
                ActionView::Cgi {
                    interpreter: interpreter@,
                    path: path@,
                    method: method@,
                    body: body@,
                    server: server_of(*server),
                    session: session.deep_view(),
                }
            },
            ResponseAction::Upload { body, content_type } => ActionView::Upload {
                body: body@,
                content_type: content_type@,
            },
        }
    }
}

/// The mathematical value of a [`ResponseCore`].
pub struct ResponseView {
    pub status_code: u16,
    pub status_text: Seq<char>,
    pub action: ActionView,
}

impl<'a> View for ResponseCore<'a> {
    type V = ResponseView;

    open spec fn view(&self) -> ResponseView {
        ResponseView {
            status_code: self.status_code,
            status_text: self.status_text@,
            action: self.action@,
        }
    }
}

// ---------------------------------------------------------------------------
// Status responses
// ---------------------------------------------------------------------------

/// The reason phrase of an error status.
pub open spec fn error_text(code: u16) -> Seq<char> {
    if code == 400 {
        "Bad Request"@
    } else if code == 403 {
        "Forbidden"@
    } else if code == 404 {
        "Not Found"@
    } else if code == 405 {
        "Method Not Allowed"@
    } else if code == 413 {
        "Payload Too Large"@
    } else if code == 429 {
        "Too Many Requests"@
    } else if code == 500 {
        "Internal Server Error"@
    } else {
        "Error"@
    }
}

/// The error response with status `code`, whose page is that of `server` if any.
pub open spec fn error_response(code: u16, server: Option<ServerConfig>) -> ResponseView {
    ResponseView {
        status_code: code,
        status_text: error_text(code),
        action: ActionView::Error { server },
    }
}

/// A permanent redirect to `location`.
pub fn redirect_301<'a>(redirect: &str) -> (r: ResponseCore<'a>)
    ensures
        r@ == (ResponseView {
            status_code: 301,
            status_text: "Moved Permanently"@,
            action: ActionView::Redirect { location: redirect@ },
        }),
{
    ResponseCore {
        status_code: 301,
        status_text: "Moved Permanently",
        action: ResponseAction::Redirect { location: redirect.to_owned() },
    }
}

/// The error response with status `code`.
pub fn http_error<'a>(code: u16, srvcfg: Option<&'a ServerConfig>) -> (r: ResponseCore<'a>)
    ensures
        r@ == error_response(code, server_of(srvcfg)),
{
    let status_text = match code {
        400 => "Bad Request",
        403 => "Forbidden",
        404 => "Not Found",
        405 => "Method Not Allowed",
        413 => "Payload Too Large",
        429 => "Too Many Requests",
        500 => "Internal Server Error",
        _ => "Error",
    };
    ResponseCore { status_code: code, status_text, action: ResponseAction::Error { server: srvcfg } }
}

// ---------------------------------------------------------------------------
// Routing
// ---------------------------------------------------------------------------

/// The position of the first of `n` elements that satisfies `p`.
pub open spec fn first_where(n: int, p: spec_fn(int) -> bool) -> Option<int> {
    if exists|i: int| 0 <= i < n && #[trigger] p(i) {
        Some(
            choose|i: int|
                #![trigger p(i)]
                0 <= i < n && p(i) && forall|j: int| 0 <= j < i ==> !#[trigger] p(j),
        )
    } else {
        None
    }
}

proof fn lemma_first_where(n: int, p: spec_fn(int) -> bool, i: int)
    requires
        0 <= i < n,
        p(i),
        forall|j: int| 0 <= j < i ==> !#[trigger] p(j),
    ensures
        first_where(n, p) == Some(i),
{
    let c = choose|k: int|
        #![trigger p(k)]
        0 <= k < n && p(k) && forall|j: int| 0 <= j < k ==> !#[trigger] p(j);
    assert(0 <= c < n && p(c) && forall|j: int| 0 <= j < c ==> !#[trigger] p(j));
    if c < i {
        assert(!p(c));
    } else if c > i {
        assert(!p(i));
    }
}

/// The host and port that the `Host` header names; the port of the
/// listener where the header gives none. `None` where there is no `Host`
/// header, its value is not UTF-8, or its port is not a `u16`.
pub open spec fn host_and_port(hs: Seq<HeaderView>, listener_port: u16) -> Option<(Seq<char>, u16)> {
    match first_header(hs, "host"@) {
        None => None,
        Some(i) => match utf8_chars(hs[i].1) {
            None => None,
            Some(v) => match split_once_at(v, ':') {
                (h, Some(p)) => match parse_unsigned(p, 10, u16::MAX as nat) {
                    Some(n) => Some((h, n as u16)),
                    None => None,
                },
                (h, None) => Some((h, listener_port)),
            },
        },
    }
}

/// The server is named `host` and listens on `port`.
pub open spec fn serves(s: ServerConfig, host: Seq<char>, port: u16) -> bool {
    s.server_name.deep_view() == Some(host) && s.ports@.contains(port)
}

/// The route's path is a prefix of the request path.
pub open spec fn route_matches(r: Route, path: Seq<char>) -> bool {
    has_prefix(path, r.path@)
}

/// Among the routes whose path is a prefix of `path`, the position of one
/// with the longest path, the last such one where several tie.
pub open spec fn best_route(rs: Seq<Route>, path: Seq<char>) -> Option<int>
    decreases rs.len(),
{
    if rs.len() == 0 {
        None
    } else {
        let prev = best_route(rs.drop_last(), path);
        let i = rs.len() - 1;
        if route_matches(rs[i], path) && (prev is None || rs[prev->0].path@.len()
            <= rs[i].path@.len()) {
            Some(i)
        } else {
            prev
        }
    }
}

/// The route chosen for a path is one whose path is a prefix of it, none
/// that is a prefix is longer, and every later one that is a prefix is
/// shorter; no route is chosen only where none is a prefix.
pub proof fn lemma_best_route(rs: Seq<Route>, path: Seq<char>)
    ensures
        match best_route(rs, path) {
            Some(i) => {
                &&& 0 <= i < rs.len()
                &&& route_matches(rs[i], path)
                &&& forall|j: int|
                    0 <= j < rs.len() && route_matches(#[trigger] rs[j], path) ==> rs[j].path@.len()
                        <= rs[i].path@.len()
                &&& forall|j: int|
                    i < j < rs.len() && route_matches(#[trigger] rs[j], path) ==> rs[j].path@.len()
                        < rs[i].path@.len()
            },
            None => forall|j: int| 0 <= j < rs.len() ==> !route_matches(#[trigger] rs[j], path),
        },
    decreases rs.len(),
{
    if rs.len() > 0 {
        let init = rs.drop_last();
        let last = rs.len() - 1;
        lemma_best_route(init, path);
        assert forall|j: int| 0 <= j < init.len() implies #[trigger] init[j] == rs[j] by {}
        let prev = best_route(init, path);
        match best_route(rs, path) {
            Some(i) => {
                if i == last {
                    assert forall|j: int|
                        0 <= j < rs.len() && route_matches(#[trigger] rs[j], path) implies rs[j].path@.len()
                        <= rs[i].path@.len() by {
                        if j < last {
                            assert(init[j] == rs[j]);
                        }
                    }
                } else {
                    assert(prev == Some(i));
                    assert forall|j: int|
                        0 <= j < rs.len() && route_matches(#[trigger] rs[j], path) implies rs[j].path@.len()
                        <= rs[i].path@.len() by {
                        if j < last {
                            assert(init[j] == rs[j]);
                        }
                    }
                    assert forall|j: int|
                        i < j < rs.len() && route_matches(#[trigger] rs[j], path) implies rs[j].path@.len()
                        < rs[i].path@.len() by {
                        if j < last {
                            assert(init[j] == rs[j]);
                        }
                    }
                }
            },
            None => {
                assert forall|j: int| 0 <= j < rs.len() implies !route_matches(#[trigger] rs[j], path) by {
                    if j < last {
                        assert(init[j] == rs[j]);
                    }
                }
            },
        }
    }
}

/// `PathBuf::push` on Unix: an absolute path replaces the base; otherwise a
/// `/` is put between them unless the base is empty or ends with one.
pub open spec fn path_push(base: Seq<char>, p: Seq<char>) -> Seq<char> {
    if p.len() > 0 && p[0] == '/' {
        p
    } else if base.len() > 0 && base.last() != '/' {
        base + seq!['/'] + p
    } else {
        base + p
    }
}

/// The bytes `multipart/form-data` as characters.
pub open spec fn multipart_type() -> Seq<char> {
    "multipart/form-data"@
}

/// The `Content-Type` of an upload: the first `Content-Type` header, when
/// its value is UTF-8 and starts with `multipart/form-data`.
pub open spec fn upload_type(hs: Seq<HeaderView>) -> Option<Seq<char>> {
    match first_header(hs, "Content-Type"@) {
        None => None,
        Some(i) => match utf8_chars(hs[i].1) {
            Some(s) => if has_prefix(s, multipart_type()) {
                Some(s)
            } else {
                None
            },
            None => None,
        },
    }
}

/// What the router still needs the file system for: whether the path of
/// a `GET` names a file or a directory, and whether the default page is a file.
pub struct FileLookup<'a> {
    pub fs_path: String,
    pub index_path: Option<String>,
    pub autoindex: bool,
    pub route_path: String,
    pub server: &'a ServerConfig,
}

/// The mathematical value of a [`FileLookup`].
pub struct LookupView {
    pub fs_path: Seq<char>,
    pub index_path: Option<Seq<char>>,
    pub autoindex: bool,
    pub route_path: Seq<char>,
    pub server: ServerConfig,
}

impl<'a> View for FileLookup<'a> {
    type V = LookupView;

    open spec fn view(&self) -> LookupView {
        LookupView {
            fs_path: self.fs_path@,
            index_path: self.index_path.deep_view(),
            autoindex: self.autoindex,
            route_path: self.route_path@,
            server: *self.server,
        }
    }
}

/// What routing a request comes to.
pub enum RouteOutcome<'a> {
    /// The response is decided.
    Respond(ResponseCore<'a>),
    /// The response depends on the file system.
    Lookup(FileLookup<'a>),
}

/// The mathematical value of a routing outcome; `MissingRoot` stands for a
/// request that reaches the script or file step on a route without a root.
pub enum RouteView {
    Respond(ResponseView),
    Lookup(LookupView),
    MissingRoot,
}

impl<'a> View for RouteOutcome<'a> {
    type V = RouteView;

    open spec fn view(&self) -> RouteView {
        match self {
            RouteOutcome::Respond(r) => RouteView::Respond(r@),
            RouteOutcome::Lookup(l) => RouteView::Lookup(l@),
        }
    }
}

/// The route step, once the server `s` and its route `r` are chosen.
pub open spec fn route_in_server(
    s: ServerConfig,
    r: Route,
    path: Seq<char>,
    method: Seq<char>,
    hs: Seq<HeaderView>,
    req: RequestView,
    session: Option<Seq<char>>,
) -> RouteView {
    if !(exists|k: int| 0 <= k < r.methods@.len() && #[trigger] r.methods@[k]@ == method) {
        RouteView::Respond(error_response(405, Some(s)))
    } else if r.redirect is Some {
        RouteView::Respond(
            ResponseView {
                status_code: 301,
                status_text: "Moved Permanently"@,
                action: ActionView::Redirect { location: r.redirect->0@ },
            },
        )
    } else if upload_type(hs) is Some {
        RouteView::Respond(
            ResponseView {
                status_code: 201,
                status_text: "Created"@,
                action: ActionView::Upload { body: req.body, content_type: upload_type(hs)->0 },
            },
        )
    } else if r.root is None {
        RouteView::MissingRoot
    } else {
        let rel = trim_start_char(path.skip(r.path@.len() as int), '/');
        let target = path_push(r.root->0@, rel);
        if r.cgi_extension is Some && r.cgi_path is Some && has_suffix(
            path,
            r.cgi_extension->0@,
        ) {
            RouteView::Respond(
                ResponseView {
                    status_code: 200,
                    status_text: "OK"@,
                    action: ActionView::Cgi {
                        interpreter: r.cgi_path->0@,
                        path: target,
                        method,
                        body: req.body,
                        server: Some(s),
                        session,
                    },
                },
            )
        } else if method == "GET"@ {
            RouteView::Lookup(
                LookupView {
                    fs_path: target,
                    index_path: match r.index {
                        Some(page) => Some(path_push(target, page@)),
                        None => None,
                    },
                    autoindex: r.autoindex,
                    route_path: r.path@,
                    server: s,
                },
            )
        } else {
            RouteView::Respond(error_response(404, Some(s)))
        }
    }
}

/// Where a request is routed among the servers of a listener whose port is
/// `listener_port`.
pub open spec fn route_request(servers: Seq<ServerConfig>, listener_port: u16, req: RequestView) -> RouteView {
    if req.path is None || req.method is None || req.headers is None {
        RouteView::Respond(error_response(400, None))
    } else {
        let path = req.path->0;
        let method = req.method->0;
        let hs = req.headers->0;
        match host_and_port(hs, listener_port) {
            None => RouteView::Respond(error_response(400, None)),
            Some((host, port)) => match first_where(
                servers.len() as int,
                |i: int| serves(servers[i], host, port),
            ) {
                None => RouteView::Respond(error_response(404, None)),
                Some(si) => {
                    let s = servers[si];
                    if s.client_max_body_size < req.body.len() {
                        RouteView::Respond(error_response(413, Some(s)))
                    } else {
                        match best_route(s.routes@, path) {
                            None => RouteView::Respond(error_response(404, Some(s))),
                            Some(ri) => route_in_server(
                                s,
                                s.routes@[ri],
                                path,
                                method,
                                hs,
                                req,
                                cookie_of(req, "session"@),
                            ),
                        }
                    }
                },
            },
        }
    }
}

/// A request on a route with both CGI options, by a method the route
/// allows, to no redirect and with no multipart upload, on a route with a
/// root, whose path ends with the route's CGI extension, runs the route's
/// interpreter on the script with that very method, `GET` included: it is
/// answered 200 with a CGI action carrying the request's body, the server
/// and the session, and never with a file lookup.
pub proof fn lemma_cgi_route_runs_script(
    s: ServerConfig,
    r: Route,
    path: Seq<char>,
    method: Seq<char>,
    hs: Seq<HeaderView>,
    req: RequestView,
    session: Option<Seq<char>>,
)
    requires
        exists|k: int| 0 <= k < r.methods@.len() && #[trigger] r.methods@[k]@ == method,
        r.redirect is None,
        upload_type(hs) is None,
        r.root is Some,
        r.cgi_path is Some,
        r.cgi_extension matches Some(ext) && ext@.len() <= path.len() && path.skip(
            path.len() - ext@.len(),
        ) == ext@,
    ensures
        route_in_server(s, r, path, method, hs, req, session) matches RouteView::Respond(v) && {
            &&& v.status_code == 200
            &&& v.status_text == "OK"@
            &&& v.action matches ActionView::Cgi { interpreter, method: m, body, server, session: ss, .. }
                && interpreter == r.cgi_path->0@ && m == method && body == req.body && server == Some(
                s,
            ) && ss == session
        },
        !(route_in_server(s, r, path, method, hs, req, session) is Lookup),
{
}

/// `PathBuf::push` on Unix.
pub fn push_path(base: &[char], p: &[char]) -> (r: Vec<char>)
    ensures
        r@ == path_push(base@, p@),
{
    if p.len() > 0 && p[0] == '/' {
        return copy_chars(p, 0, p.len());
    }
    let mut r = copy_chars(base, 0, base.len());
    if base.len() > 0 && base[base.len() - 1] != '/' {
        r.push('/');
    }
    let mut i: usize = 0;
    let ghost r0 = r@;
    while i < p.len()
        invariant
            i <= p.len(),
            r@ == r0 + p@.take(i as int),
        decreases p.len() - i,
    {
        r.push(p[i]);
        i = i + 1;
    }
    assert(p@.take(p.len() as int) =~= p@);
    assert(base@.subrange(0, base.len() as int) =~= base@);
    assert(p@.subrange(0, p.len() as int) =~= p@);
    r
}

fn host_port(headers: &Vec<(String, Vec<u8>)>, listener_port: u16) -> (r: Option<(Vec<char>, u16)>)
    ensures
        match r {
            Some((h, p)) => host_and_port(headers.deep_view(), listener_port) == Some((h@, p)),
            None => host_and_port(headers.deep_view(), listener_port) is None,
        },
{
    let i = match find_header(headers, "host") {
        Some(i) => i,
        None => {
            return None;
        },
    };
    assert(headers.deep_view()[i as int].1 == headers@[i as int].1@);
    let value = match utf8_chars_of(headers[i].1.as_slice()) {
        Some(v) => v,
        None => {
            return None;
        },
    };
    let (host, port) = split_once_char(value.as_slice(), ':');
    match port {
        Some(p) => match parse_u16(p.as_slice()) {
            Some(n) => Some((host, n)),
            None => None,
        },
        None => Some((host, listener_port)),
    }
}

fn find_server(servers: &Vec<ServerConfig>, host: &[char], port: u16) -> (r: Option<usize>)
    ensures
        match r {
            Some(i) => i < servers.len() && first_where(
                servers@.len() as int,
                |k: int| serves(servers@[k], host@, port),
            ) == Some(i as int),
            None => first_where(servers@.len() as int, |k: int| serves(servers@[k], host@, port))
                is None,
        },
{
    let ghost p = |k: int| serves(servers@[k], host@, port);
    let mut i: usize = 0;
    while i < servers.len()
        invariant
            i <= servers.len(),
            p == (|k: int| serves(servers@[k], host@, port)),
            forall|j: int| 0 <= j < i ==> !#[trigger] p(j),
        decreases servers.len() - i,
    {
        let s = &servers[i];
        let named = match &s.server_name {
            Some(n) => {
                let nc = chars_of(n.as_str());
                crate::text::chars_eq(nc.as_slice(), host)
            },
            None => false,
        };
        let mut listens = false;
        let mut k: usize = 0;
        while k < s.ports.len()
            invariant
                k <= s.ports.len(),
                listens == exists|j: int| 0 <= j < k && s.ports@[j] == port,
            decreases s.ports.len() - k,
        {
            if s.ports[k] == port {
                listens = true;
            }
            k = k + 1;
        }
        assert(listens == s.ports@.contains(port));
        if named && listens {
            proof {
                lemma_first_where(servers@.len() as int, p, i as int);
            }
            return Some(i);
        }
        i = i + 1;
    }
    None
}

fn find_route(routes: &Vec<Route>, path: &[char]) -> (r: Option<usize>)
    ensures
        match r {
            Some(i) => i < routes.len() && best_route(routes@, path@) == Some(i as int),
            None => best_route(routes@, path@) is None,
        },
{
    let mut best: Option<usize> = None;
    let mut best_len: usize = 0;
    let mut i: usize = 0;
    while i < routes.len()
        invariant
            i <= routes.len(),
            match best {
                Some(b) => b < i && best_route(routes@.take(i as int), path@) == Some(b as int)
                    && best_len == routes@[b as int].path@.len(),
                None => best_route(routes@.take(i as int), path@) is None,
            },
        decreases routes.len() - i,
    {
        assert(routes@.take(i + 1).drop_last() =~= routes@.take(i as int));
        let rp = chars_of(routes[i].path.as_str());
        if chars_starts_with(path, rp.as_slice()) {
            let better = match best {
                None => true,
                Some(_) => best_len <= rp.len(),
            };
            if better {
                best = Some(i);
                best_len = rp.len();
            }
        }
        i = i + 1;
    }
    assert(routes@.take(routes.len() as int) =~= routes@);
    best
}

fn method_allowed(methods: &Vec<String>, method: &String) -> (r: bool)
    ensures
        r == exists|k: int| 0 <= k < methods@.len() && #[trigger] methods@[k]@ == method@,
{
    let mut k: usize = 0;
    while k < methods.len()
        invariant
            k <= methods.len(),
            forall|j: int| 0 <= j < k ==> #[trigger] methods@[j]@ != method@,
        decreases methods.len() - k,
    {
        if methods[k] == *method {
            return true;
        }
        k = k + 1;
    }
    false
}

fn find_upload_type(headers: &Vec<(String, Vec<u8>)>) -> (r: Option<String>)
    ensures
        match r {
            Some(s) => upload_type(headers.deep_view()) == Some(s@),
            None => upload_type(headers.deep_view()) is None,
        },
{
    let i = match find_header(headers, "Content-Type") {
        Some(i) => i,
        None => {
            return None;
        },
    };
    assert(headers.deep_view()[i as int].1 == headers@[i as int].1@);
    match utf8_chars_of(headers[i].1.as_slice()) {
        Some(s) => {
            let prefix = chars_of("multipart/form-data");
            if chars_starts_with(s.as_slice(), prefix.as_slice()) {
                Some(string_from_chars(s.as_slice()))
            } else {
                None
            }
        },
        None => None,
    }
}

/// The route step, once the server and its route are chosen.
fn route_with<'a>(
    s: &'a ServerConfig,
    r: &'a Route,
    path: &[char],
    method: String,
    req: ParsedRequest,
    session: Option<String>,
) -> (out: Result<RouteOutcome<'a>, ()>)
    requires
        req@.headers is Some,
        route_matches(*r, path@),
        path@ == req@.path->0,
        method@ == req@.method->0,
    ensures
        match out {
            Ok(o) => o@ == route_in_server(
                *s,
                *r,
                path@,
                method@,
                req@.headers->0,
                req@,
                session.deep_view(),
            ),
            Err(_) => route_in_server(
                *s,
                *r,
                path@,
                method@,
                req@.headers->0,
                req@,
                session.deep_view(),
            ) is MissingRoot,
        },
{
    if !method_allowed(&r.methods, &method) {
        return Ok(RouteOutcome::Respond(http_error(405, Some(s))));
    }
    match &r.redirect {
        Some(x) => {
            return Ok(RouteOutcome::Respond(redirect_301(x.as_str())));
        },
        None => {},
    }
    let upload = match &req.headers {
        Some(h) => find_upload_type(h),
        None => None,
    };
    match upload {
        Some(ct) => {
            return Ok(
                RouteOutcome::Respond(
                    ResponseCore {
                        status_code: 201,
                        status_text: "Created",
                        action: ResponseAction::Upload { body: req.body, content_type: ct },
                    },
                ),
            );
        },
        None => {},
    }
    let root = match &r.root {
        Some(x) => x,
        None => {
            return Err(());
        },
    };
    let rp = chars_of(r.path.as_str());
    let rest = copy_chars(path, rp.len(), path.len());
    assert(rest@ =~= path@.skip(r.path@.len() as int));
    let rel = trim_start_matches_char(rest.as_slice(), '/');
    let root_chars = chars_of(root.as_str());
    let target = push_path(root_chars.as_slice(), rel.as_slice());
    let is_cgi = match (&r.cgi_extension, &r.cgi_path) {
        (Some(ext), Some(_)) => {
            let ec = chars_of(ext.as_str());
            chars_ends_with(path, ec.as_slice())
        },
        _ => false,
    };
    if is_cgi {
        let interpreter = match &r.cgi_path {
            Some(x) => x.clone(),
            None => String::new(),
        };
        return Ok(
            RouteOutcome::Respond(
                ResponseCore {
                    status_code: 200,
                    status_text: "OK",
                    action: ResponseAction::Cgi {
                        interpreter,
                        path: string_from_chars(target.as_slice()),
                        method,
                        body: req.body,
                        server: Some(s),
                        session,
                    },
                },
            ),
        );
    }
    let get = chars_of("GET");
    let mc = chars_of(method.as_str());
    if crate::text::chars_eq(mc.as_slice(), get.as_slice()) {
        let index_path = match &r.index {
            Some(page) => {
                let pc = chars_of(page.as_str());
                let ip = push_path(target.as_slice(), pc.as_slice());
                Some(string_from_chars(ip.as_slice()))
            },
            None => None,
        };
        return Ok(
            RouteOutcome::Lookup(
                FileLookup {
                    fs_path: string_from_chars(target.as_slice()),
                    index_path,
                    autoindex: r.autoindex,
                    route_path: r.path.clone(),
                    server: s,
                },
            ),
        );
    }
    Ok(RouteOutcome::Respond(http_error(404, Some(s))))
}

fn route_core<'a>(servers: &'a Vec<ServerConfig>, listener_port: u16, req: ParsedRequest) -> (out:
    Result<RouteOutcome<'a>, ()>)
    ensures
        match out {
            Ok(o) => o@ == route_request(servers@, listener_port, req@),
            Err(_) => route_request(servers@, listener_port, req@) is MissingRoot,
        },
{
    let path = match &req.path {
        Some(p) => chars_of(p.as_str()),
        None => {
            return Ok(RouteOutcome::Respond(http_error(400, None)));
        },
    };
    let method = match &req.method {
        Some(m) => m.clone(),
        None => {
            return Ok(RouteOutcome::Respond(http_error(400, None)));
        },
    };
    let (host, port) = match &req.headers {
        Some(h) => match host_port(h, listener_port) {
            Some(hp) => hp,
            None => {
                return Ok(RouteOutcome::Respond(http_error(400, None)));
            },
        },
        None => {
            return Ok(RouteOutcome::Respond(http_error(400, None)));
        },
    };
    let session = get_cookie(&req, "session");
    let si = match find_server(servers, host.as_slice(), port) {
        Some(i) => i,
        None => {
            return Ok(RouteOutcome::Respond(http_error(404, None)));
        },
    };
    let s = &servers[si];
    if s.client_max_body_size < req.body.len() {
        return Ok(RouteOutcome::Respond(http_error(413, Some(s))));
    }
    let ri = match find_route(&s.routes, path.as_slice()) {
        Some(i) => i,
        None => {
            return Ok(RouteOutcome::Respond(http_error(404, Some(s))));
        },
    };
    let r = &s.routes[ri];
    proof {
        lemma_best_route(s.routes@, path@);
    }
    route_with(s, r, path.as_slice(), method, req, session)
}

/// Routes a request among the servers of a listener whose port is
/// `listener_port` (the port a `Host` header without one stands for).
pub fn router<'a>(servers: &'a Vec<ServerConfig>, listener_port: u16, req: ParsedRequest) -> (out:
    RouteOutcome<'a>)
    requires
        !(route_request(servers@, listener_port, req@) is MissingRoot),
    ensures
        out@ == route_request(servers@, listener_port, req@),
{
    match route_core(servers, listener_port, req) {
        Ok(o) => o,
        Err(_) => RouteOutcome::Respond(http_error(500, None)),
    }
}

/// Routes a request as [`router`] does; `None` where the request reaches the
/// script or file step on a route without a root.
pub fn route_checked<'a>(servers: &'a Vec<ServerConfig>, listener_port: u16, req: ParsedRequest) -> (out:
    Option<RouteOutcome<'a>>)
    ensures
        match out {
            Some(o) => o@ == route_request(servers@, listener_port, req@),
            None => route_request(servers@, listener_port, req@) is MissingRoot,
        },
{
    match route_core(servers, listener_port, req) {
        Ok(o) => Some(o),
        Err(_) => None,
    }
}

/// The response to a `GET` once the file system has been asked: the file
/// itself, else in a directory its default page if that is a file, else its
/// listing where the route allows one, else 403; 404 where the path is neither.
pub open spec fn lookup_response(l: LookupView, is_file: bool, is_dir: bool, index_is_file: bool) -> ResponseView {
    if is_file {
        ResponseView {
            status_code: 200,
            status_text: "OK"@,
            action: ActionView::ServeFile { path: l.fs_path },
        }
    } else if is_dir {
        if l.index_path is Some && index_is_file {
            ResponseView {
                status_code: 200,
                status_text: "OK"@,
                action: ActionView::ServeFile { path: l.index_path->0 },
            }
        } else if l.autoindex {
            ResponseView {
                status_code: 200,
                status_text: "OK"@,
                action: ActionView::AutoIndex { dir: l.fs_path, path: l.route_path },
            }
        } else {
            error_response(403, Some(l.server))
        }
    } else {
        error_response(404, Some(l.server))
    }
}

/// Finishes a file lookup with what the file system says of the path
/// (`is_file`, `is_dir`) and of the default page (`index_is_file`).
pub fn finish_lookup<'a>(l: FileLookup<'a>, is_file: bool, is_dir: bool, index_is_file: bool) -> (r:
    ResponseCore<'a>)
    ensures
        r@ == lookup_response(l@, is_file, is_dir, index_is_file),
{
    if is_file {
        return ResponseCore {
            status_code: 200,
            status_text: "OK",
            action: ResponseAction::ServeFile { path: l.fs_path },
        };
    }
    if is_dir {
        match l.index_path {
            Some(p) => {
                if index_is_file {
                    return ResponseCore {
                        status_code: 200,
                        status_text: "OK",
                        action: ResponseAction::ServeFile { path: p },
                    };
                }
            },
            None => {},
        }
        if l.autoindex {
            return ResponseCore {
                status_code: 200,
                status_text: "OK",
                action: ResponseAction::AutoIndex { dir: l.fs_path, path: l.route_path },
            };
        }
        return http_error(403, Some(l.server));
    }
    http_error(404, Some(l.server))
}

} // verus!
