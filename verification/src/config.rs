//! The server configuration: virtual servers, their routes, and the
//! parser of the configuration file.
use vstd::prelude::*;
use std::collections::HashMap;
use crate::text::{
    is_ws, trim_start, chars_eq, chars_of, parse_u16, parse_unsigned, parse_usize, split_char, split_on,
    split_whitespace, string_from_chars, trim, trim_chars, words,
};

verus! {

/// The whole configuration: one entry per `server { ... }` block.
#[derive(Debug)]
pub struct Config {
    pub servers: Vec<ServerConfig>,
}

/// One virtual server.
#[derive(Debug)]
pub struct ServerConfig {
    pub host: String,
    pub ports: Vec<u16>,
    pub server_name: Option<String>,
    pub error_pages: HashMap<u16, String>,
    pub client_max_body_size: usize,
    pub routes: Vec<Route>,
}

/// One route of a server.
///
/// `index` is the default page of a directory (the `page` directive).
/// `root`, the directory that the route serves, and `autoindex`, whether a
/// directory without a default page is listed, are read by the router; no
/// directive of the configuration file sets them, so a parsed route has no
/// root and no listing.
#[derive(Debug)]
pub struct Route {
    pub path: String,
    pub methods: Vec<String>,
    pub redirect: Option<String>,
    pub index: Option<String>,
    pub cgi_extension: Option<String>,
    pub cgi_path: Option<String>,
    pub root: Option<String>,
    pub autoindex: bool,
}


broadcast use vstd::std_specs::hash::group_hash_axioms;

/// The mathematical value of a [`Route`].
pub struct RouteView {
    pub path: Seq<char>,
    pub methods: Seq<Seq<char>>,
    pub redirect: Option<Seq<char>>,
    pub index: Option<Seq<char>>,
    pub cgi_extension: Option<Seq<char>>,
    pub cgi_path: Option<Seq<char>>,
    pub root: Option<Seq<char>>,
    pub autoindex: bool,
}

impl View for Route {
    type V = RouteView;

    open spec fn view(&self) -> RouteView {
        RouteView {
            path: self.path@,
            methods: self.methods.deep_view(),
            redirect: self.redirect.deep_view(),
            index: self.index.deep_view(),
            cgi_extension: self.cgi_extension.deep_view(),
            cgi_path: self.cgi_path.deep_view(),
            root: self.root.deep_view(),
            autoindex: self.autoindex,
        }
    }
}

/// The mathematical value of a [`ServerConfig`].
pub struct ServerView {
    pub host: Seq<char>,
    pub ports: Seq<u16>,
    pub server_name: Option<Seq<char>>,
    pub error_pages: Map<u16, Seq<char>>,
    pub client_max_body_size: usize,
    pub routes: Seq<RouteView>,
}

impl View for ServerConfig {
    type V = ServerView;

    open spec fn view(&self) -> ServerView {
        ServerView {
            host: self.host@,
            ports: self.ports@,
            server_name: self.server_name.deep_view(),
            error_pages: self.error_pages@.map_values(|s: String| s@),
            client_max_body_size: self.client_max_body_size,
            routes: Seq::new(self.routes@.len(), |i: int| self.routes@[i]@),
        }
    }
}

/// The servers of a configuration.
pub open spec fn servers_view(v: Seq<ServerConfig>) -> Seq<ServerView> {
    Seq::new(v.len(), |i: int| v[i]@)
}

/// A server block before any directive: listening on all addresses, no
/// port, no name, no error pages, at most 1 MiB of request body, no route.
pub open spec fn default_server() -> ServerView {
    ServerView {
        host: "0.0.0.0"@,
        ports: Seq::empty(),
        server_name: None,
        error_pages: Map::empty(),
        client_max_body_size: 1048576,
        routes: Seq::empty(),
    }
}

/// A route block before any directive.
pub open spec fn new_route(path: Seq<char>) -> RouteView {
    RouteView {
        path,
        methods: Seq::empty(),
        redirect: None,
        index: None,
        cgi_extension: None,
        cgi_path: None,
        root: None,
        autoindex: false,
    }
}

/// The ports of a `ports` directive; `None` if one is not a `u16`.
pub open spec fn parse_ports(ws: Seq<Seq<char>>) -> Option<Seq<u16>>
    decreases ws.len(),
{
    if ws.len() == 0 {
        Some(Seq::empty())
    } else {
        match (parse_ports(ws.drop_last()), parse_unsigned(ws.last(), 10, u16::MAX as nat)) {
            (Some(a), Some(n)) => Some(a.push(n as u16)),
            _ => None,
        }
    }
}

/// What a line inside a server block does.
pub enum ServerLine {
    /// The server with the directive applied.
    Keep(ServerView),
    /// A route block opens.
    OpenRoute(RouteView),
    /// The directive lacks an argument or has a malformed number.
    Malformed,
}

/// A directive (its words `parts`) inside a server block.
pub open spec fn server_directive(sv: ServerView, parts: Seq<Seq<char>>) -> ServerLine {
    let key = parts[0];
    if key == "host"@ {
        if parts.len() < 2 {
            ServerLine::Malformed
        } else {
            ServerLine::Keep(ServerView { host: parts[1], ..sv })
        }
    } else if key == "ports"@ {
        match parse_ports(parts.skip(1)) {
            None => ServerLine::Malformed,
            Some(ps) => ServerLine::Keep(ServerView { ports: ps, ..sv }),
        }
    } else if key == "server_name"@ {
        if parts.len() < 2 {
            ServerLine::Malformed
        } else {
            ServerLine::Keep(ServerView { server_name: Some(parts[1]), ..sv })
        }
    } else if key == "client_max_body_size"@ {
        if parts.len() < 2 {
            ServerLine::Malformed
        } else {
            match parse_unsigned(parts[1], 10, usize::MAX as nat) {
                None => ServerLine::Malformed,
                Some(n) => ServerLine::Keep(ServerView { client_max_body_size: n as usize, ..sv }),
            }
        }
    } else if key == "error_page"@ {
        if parts.len() < 2 {
            ServerLine::Malformed
        } else {
            match parse_unsigned(parts[1], 10, u16::MAX as nat) {
                None => ServerLine::Malformed,
                Some(code) => if parts.len() < 3 {
                    ServerLine::Malformed
                } else {
                    ServerLine::Keep(
                        ServerView { error_pages: sv.error_pages.insert(code as u16, parts[2]), ..sv },
                    )
                },
            }
        }
    } else if key == "route"@ {
        if parts.len() < 3 {
            ServerLine::Malformed
        } else if parts[2] == "{"@ {
            ServerLine::OpenRoute(new_route(parts[1]))
        } else {
            ServerLine::Keep(sv)
        }
    } else {
        ServerLine::Keep(sv)
    }
}

/// A directive (its words `parts`) inside a route block; `None` where it
/// lacks its argument.
pub open spec fn route_directive(r: RouteView, parts: Seq<Seq<char>>) -> Option<RouteView> {
    let key = parts[0];
    if key == "methods"@ {
        Some(RouteView { methods: parts.skip(1), ..r })
    } else if key == "redirect"@ || key == "page"@ || key == "cgi_ext"@ || key == "cgi_path"@ {
        if parts.len() < 2 {
            None
        } else if key == "redirect"@ {
            Some(RouteView { redirect: Some(parts[1]), ..r })
        } else if key == "page"@ {
            Some(RouteView { index: Some(parts[1]), ..r })
        } else if key == "cgi_ext"@ {
            Some(RouteView { cgi_extension: Some(parts[1]), ..r })
        } else {
            Some(RouteView { cgi_path: Some(parts[1]), ..r })
        }
    } else {
        Some(r)
    }
}

/// What a route block lacks, if anything: a route needs at least one
/// method, and `cgi_ext` and `cgi_path` come together or not at all.
pub open spec fn route_error(r: RouteView) -> Option<ConfigError> {
    if r.methods.len() == 0 {
        Some(ConfigError::MissingMethods)
    } else if (r.cgi_extension is Some) != (r.cgi_path is Some) {
        Some(ConfigError::IncompleteCgi)
    } else {
        None
    }
}

/// A comment starts at position `i` of the line: a `#` that begins a word,
/// at the start of the line or right after whitespace.
pub open spec fn comment_start(line: Seq<char>, i: int) -> bool {
    0 <= i < line.len() && line[i] == '#' && (i == 0 || is_ws(line[i - 1]))
}

/// The text of a line before its comment: a `#` that begins a word starts
/// a comment that runs to the end of the line; a `#` inside a word is kept.
pub open spec fn strip_comment(line: Seq<char>) -> Seq<char> {
    if exists|i: int| comment_start(line, i) {
        line.take(
            choose|i: int| comment_start(line, i) && forall|j: int| 0 <= j < i ==> !comment_start(line, j),
        )
    } else {
        line
    }
}

proof fn lemma_strip_comment_at(line: Seq<char>, i: int)
    requires
        comment_start(line, i),
        forall|j: int| 0 <= j < i ==> !comment_start(line, j),
    ensures
        strip_comment(line) == line.take(i),
{
    let c = choose|k: int| comment_start(line, k) && forall|j: int| 0 <= j < k ==> !comment_start(line, j);
    assert(comment_start(line, c) && forall|j: int| 0 <= j < c ==> !comment_start(line, j));
    if c < i {
        assert(!comment_start(line, c));
    } else if c > i {
        assert(!comment_start(line, i));
    }
}

/// Where the parser of the configuration stands.
pub enum PhaseView {
    Top,
    Server(ServerView),
    Route(ServerView, RouteView),
    /// The file is refused.
    Failed(ConfigError),
    /// A directive lacks an argument or has a malformed number.
    Malformed,
}

/// The server with one more route.
pub open spec fn with_route(sv: ServerView, r: RouteView) -> ServerView {
    ServerView { routes: sv.routes.push(r), ..sv }
}

/// One trimmed line of the configuration file.
pub open spec fn config_step(servers: Seq<ServerView>, phase: PhaseView, line: Seq<char>) -> (Seq<ServerView>, PhaseView) {
    let parts = words(line);
    if line.len() == 0 {
        (servers, phase)
    } else {
        match phase {
            PhaseView::Top => if line == "server {"@ {
                (servers, PhaseView::Server(default_server()))
            } else {
                (servers, PhaseView::Failed(ConfigError::ExpectedServer))
            },
            PhaseView::Server(sv) => if line == "}"@ {
                (servers.push(sv), PhaseView::Top)
            } else if parts.len() == 0 {
                (servers, phase)
            } else {
                match server_directive(sv, parts) {
                    ServerLine::Keep(sv2) => (servers, PhaseView::Server(sv2)),
                    ServerLine::OpenRoute(r) => (servers, PhaseView::Route(sv, r)),
                    ServerLine::Malformed => (servers, PhaseView::Malformed),
                }
            },
            PhaseView::Route(sv, r) => if line == "}"@ {
                match route_error(r) {
                    Some(e) => (servers, PhaseView::Failed(e)),
                    None => (servers, PhaseView::Server(with_route(sv, r))),
                }
            } else if parts.len() == 0 {
                (servers, phase)
            } else {
                match route_directive(r, parts) {
                    Some(r2) => (servers, PhaseView::Route(sv, r2)),
                    None => (servers, PhaseView::Malformed),
                }
            },
            PhaseView::Failed(_) => (servers, phase),
            PhaseView::Malformed => (servers, phase),
        }
    }
}

/// The parser after the given lines of the file (split at `\n`), each
/// without its comment and trimmed.
pub open spec fn config_run(lines: Seq<Seq<char>>) -> (Seq<ServerView>, PhaseView)
    decreases lines.len(),
{
    if lines.len() == 0 {
        (Seq::empty(), PhaseView::Top)
    } else {
        let (servers, phase) = config_run(lines.drop_last());
        config_step(servers, phase, trim(strip_comment(lines.last())))
    }
}

/// How the parser refuses a configuration file.
#[derive(Debug, PartialEq, Eq, Structural, Clone, Copy)]
pub enum ConfigError {
    /// A line outside a server block is not `server {`.
    ExpectedServer,
    /// A route block has no method.
    MissingMethods,
    /// A route block has one of `cgi_ext` and `cgi_path` without the other.
    IncompleteCgi,
}

/// What the configuration file `content` gives: the servers, in order
/// (a block left open at the end counts as closed), `Err` where a line
/// outside a server block is not `server {` or a route block lacks what it
/// needs, and `None` where a directive lacks an argument or has a malformed
/// number first.
pub open spec fn config_outcome(content: Seq<char>) -> Option<Result<Seq<ServerView>, ConfigError>> {
    let (servers, phase) = config_run(split_on(content, '\n'));
    match phase {
        PhaseView::Top => Some(Ok(servers)),
        PhaseView::Server(sv) => Some(Ok(servers.push(sv))),
        PhaseView::Route(sv, r) => match route_error(r) {
            Some(e) => Some(Err(e)),
            None => Some(Ok(servers.push(with_route(sv, r)))),
        },
        PhaseView::Failed(e) => Some(Err(e)),
        PhaseView::Malformed => None,
    }
}

/// The parser after the given lines, read from the state `st`.
spec fn config_run_from(st: (Seq<ServerView>, PhaseView), lines: Seq<Seq<char>>) -> (
    Seq<ServerView>,
    PhaseView,
)
    decreases lines.len(),
{
    if lines.len() == 0 {
        st
    } else {
        let (servers, phase) = config_run_from(st, lines.drop_last());
        config_step(servers, phase, trim(strip_comment(lines.last())))
    }
}

proof fn lemma_step_prefix(s: Seq<ServerView>, ph: PhaseView, line: Seq<char>)
    ensures
        config_step(s, ph, line).1 == config_step(Seq::empty(), ph, line).1,
        config_step(s, ph, line).0 == s + config_step(Seq::empty(), ph, line).0,
{
    let e = Seq::<ServerView>::empty();
    assert(s + e =~= s);
    match ph {
        PhaseView::Server(sv) => {
            assert(s + e.push(sv) =~= s.push(sv));
        },
        _ => {},
    }
}

proof fn lemma_run_from_prefix(s: Seq<ServerView>, ph: PhaseView, lines: Seq<Seq<char>>)
    ensures
        config_run_from((s, ph), lines).1 == config_run_from((Seq::empty(), ph), lines).1,
        config_run_from((s, ph), lines).0 == s + config_run_from((Seq::empty(), ph), lines).0,
    decreases lines.len(),
{
    if lines.len() == 0 {
        assert(s + Seq::<ServerView>::empty() =~= s);
    } else {
        lemma_run_from_prefix(s, ph, lines.drop_last());
        let (x, p) = config_run_from((Seq::empty(), ph), lines.drop_last());
        let line = trim(strip_comment(lines.last()));
        lemma_step_prefix(s + x, p, line);
        lemma_step_prefix(x, p, line);
        let y = config_step(Seq::empty(), p, line).0;
        assert((s + x) + y =~= s + (x + y));
    }
}

proof fn lemma_run_from_concat(st: (Seq<ServerView>, PhaseView), l1: Seq<Seq<char>>, l2: Seq<Seq<char>>)
    ensures
        config_run_from(st, l1 + l2) == config_run_from(config_run_from(st, l1), l2),
    decreases l2.len(),
{
    if l2.len() == 0 {
        assert(l1 + l2 =~= l1);
    } else {
        lemma_run_from_concat(st, l1, l2.drop_last());
        assert((l1 + l2).drop_last() =~= l1 + l2.drop_last());
        assert((l1 + l2).last() == l2.last());
    }
}

proof fn lemma_run_is_from_top(lines: Seq<Seq<char>>)
    ensures
        config_run(lines) == config_run_from((Seq::empty(), PhaseView::Top), lines),
    decreases lines.len(),
{
    if lines.len() > 0 {
        lemma_run_is_from_top(lines.drop_last());
    }
}

/// Server blocks are read independently: a configuration file made of two
/// files joined by a line break, the first of which ends outside any server
/// block, gives the servers of the first followed by those of the second,
/// or else what the second gives.
pub proof fn lemma_config_concat(c1: Seq<char>, c2: Seq<char>)
    requires
        config_run(split_on(c1, '\n')).1 is Top,
    ensures
        config_outcome(c1) == Some(Ok::<Seq<ServerView>, ConfigError>(config_run(split_on(c1, '\n')).0)),
        config_outcome(c1 + seq!['\n'] + c2) == match config_outcome(c2) {
            Some(Ok(s2)) => Some(Ok::<Seq<ServerView>, ConfigError>(config_run(split_on(c1, '\n')).0 + s2)),
            other => other,
        },
{
    let l1 = split_on(c1, '\n');
    let l2 = split_on(c2, '\n');
    crate::text::lemma_split_on_join(c1, '\n', c2);
    let top = (Seq::<ServerView>::empty(), PhaseView::Top);
    lemma_run_is_from_top(l1);
    lemma_run_is_from_top(l2);
    lemma_run_is_from_top(l1 + l2);
    lemma_run_from_concat(top, l1, l2);
    let s1 = config_run(l1).0;
    lemma_run_from_prefix(s1, PhaseView::Top, l2);
    let (x, p) = config_run(l2);
    match p {
        PhaseView::Server(sv) => {
            assert((s1 + x).push(sv) =~= s1 + x.push(sv));
        },
        PhaseView::Route(sv, r) => {
            if route_error(r) is None {
                assert((s1 + x).push(with_route(sv, r)) =~= s1 + x.push(with_route(sv, r)));
            }
        },
        _ => {},
    }
}

/// Every route of the server has a method, and either both or neither of
/// the two CGI options.
pub open spec fn routes_complete(sv: ServerView) -> bool {
    forall|j: int| 0 <= j < sv.routes.len() ==> #[trigger] route_error(sv.routes[j]) is None
}

spec fn all_complete(servers: Seq<ServerView>) -> bool {
    forall|i: int| 0 <= i < servers.len() ==> #[trigger] routes_complete(servers[i])
}

spec fn run_complete(st: (Seq<ServerView>, PhaseView)) -> bool {
    &&& all_complete(st.0)
    &&& match st.1 {
        PhaseView::Server(sv) => routes_complete(sv),
        PhaseView::Route(sv, _) => routes_complete(sv),
        _ => true,
    }
}

proof fn lemma_step_complete(servers: Seq<ServerView>, phase: PhaseView, line: Seq<char>)
    requires
        run_complete((servers, phase)),
    ensures
        run_complete(config_step(servers, phase, line)),
{
    let parts = words(line);
    assert(all_complete(servers));
    match phase {
        PhaseView::Server(sv) => {
            if line.len() > 0 && line == "}"@ {
                let s2 = servers.push(sv);
                assert forall|i: int| 0 <= i < s2.len() implies #[trigger] routes_complete(s2[i]) by {
                    if i < servers.len() {
                        assert(s2[i] == servers[i]);
                        assert(routes_complete(servers[i]));
                    } else {
                        assert(s2[i] == sv);
                    }
                }
                assert(config_step(servers, phase, line) == (s2, PhaseView::Top));
            }
            if line.len() > 0 && line != "}"@ && parts.len() > 0 {
                match server_directive(sv, parts) {
                    ServerLine::Keep(sv2) => {
                        assert(sv2.routes == sv.routes);
                    },
                    _ => {},
                }
            }
        },
        PhaseView::Route(sv, r) => {
            if line.len() > 0 && line == "}"@ && route_error(r) is None {
                let sv2 = with_route(sv, r);
                assert forall|j: int| 0 <= j < sv2.routes.len() implies #[trigger] route_error(
                    sv2.routes[j],
                ) is None by {
                    if j < sv.routes.len() {
                        assert(sv2.routes[j] == sv.routes[j]);
                    }
                }
            }
        },
        _ => {},
    }
}

proof fn lemma_run_complete(lines: Seq<Seq<char>>)
    ensures
        run_complete(config_run(lines)),
    decreases lines.len(),
{
    if lines.len() > 0 {
        lemma_run_complete(lines.drop_last());
        let (servers, phase) = config_run(lines.drop_last());
        lemma_step_complete(servers, phase, trim(strip_comment(lines.last())));
    }
}

/// A configuration that is accepted has, in every route, at least one
/// method, and either both `cgi_ext` and `cgi_path` or neither.
pub proof fn lemma_accepted_routes_complete(content: Seq<char>)
    ensures
        config_outcome(content) matches Some(Ok(ss)) ==> forall|i: int, j: int|
            0 <= i < ss.len() && 0 <= j < ss[i].routes.len() ==> {
                let r = #[trigger] ss[i].routes[j];
                r.methods.len() > 0 && (r.cgi_extension is Some) == (r.cgi_path is Some)
            },
{
    let lines = split_on(content, '\n');
    lemma_run_complete(lines);
    let (servers, phase) = config_run(lines);
    if let Some(Ok(ss)) = config_outcome(content) {
        assert forall|i: int, j: int|
            0 <= i < ss.len() && 0 <= j < ss[i].routes.len() implies {
                let r = #[trigger] ss[i].routes[j];
                r.methods.len() > 0 && (r.cgi_extension is Some) == (r.cgi_path is Some)
            } by {
            assert(routes_complete(ss[i]));
            assert(route_error(ss[i].routes[j]) is None);
        }
    }
}

/// The route block being read, if the parser is inside one.
pub open spec fn open_route(ph: PhaseView) -> Option<RouteView> {
    match ph {
        PhaseView::Route(_, r) => Some(r),
        _ => None,
    }
}

proof fn lemma_failed_stays(s: Seq<ServerView>, e: ConfigError, lines: Seq<Seq<char>>)
    ensures
        config_run_from((s, PhaseView::Failed(e)), lines).1 == PhaseView::Failed(e),
    decreases lines.len(),
{
    if lines.len() > 0 {
        lemma_failed_stays(s, e, lines.drop_last());
    }
}

/// A route block without a method, or with only one of `cgi_ext` and
/// `cgi_path`, makes the file refused with the error it names: where the
/// file ends inside it, and where its closing `}` comes, whatever follows.
pub proof fn lemma_incomplete_route_refused(c1: Seq<char>, c2: Seq<char>)
    requires
        open_route(config_run(split_on(c1, '\n')).1) matches Some(r) && route_error(r) is Some,
    ensures
        config_outcome(c1) == Some(
            Err::<Seq<ServerView>, ConfigError>(route_error(open_route(config_run(split_on(c1, '\n')).1)->0)->0),
        ),
        config_outcome(c1 + seq!['\n', '}', '\n'] + c2) == Some(
            Err::<Seq<ServerView>, ConfigError>(route_error(open_route(config_run(split_on(c1, '\n')).1)->0)->0),
        ),
{
    let l1 = split_on(c1, '\n');
    let (s1, ph) = config_run(l1);
    let r = open_route(ph)->0;
    let e = route_error(r)->0;
    let close = seq!['}'];
    let tail = close + seq!['\n'] + c2;
    assert(c1 + seq!['\n', '}', '\n'] + c2 =~= c1 + seq!['\n'] + tail);
    crate::text::lemma_split_on_join(c1, '\n', tail);
    crate::text::lemma_split_on_join(close, '\n', c2);
    let e0 = Seq::<char>::empty();
    assert(close.drop_last() =~= e0);
    assert(crate::text::split_state(e0, '\n') == (Seq::<Seq<char>>::empty(), e0));
    assert(e0.push('}') =~= close);
    assert(crate::text::split_state(close, '\n') == (Seq::<Seq<char>>::empty(), close));
    assert(split_on(close, '\n') =~= seq![close]);
    let l2 = split_on(c2, '\n');
    let lines = l1 + (seq![close] + l2);
    assert(lines =~= (l1 + seq![close]) + l2);
    lemma_run_is_from_top(lines);
    lemma_run_is_from_top(l1);
    let top = (Seq::<ServerView>::empty(), PhaseView::Top);
    lemma_run_from_concat(top, l1 + seq![close], l2);
    lemma_run_from_concat(top, l1, seq![close]);
    assert(!comment_start(close, 0));
    assert(strip_comment(close) == close);
    assert(close.drop_first() =~= e0);
    assert(trim_start(close) == close);
    assert(close.drop_last() =~= e0);
    assert(trim(close) == close);
    assert(seq![close].drop_last() =~= Seq::<Seq<char>>::empty());
    reveal_strlit("}");
    assert(close == "}"@);
    assert(seq![close].last() == close);
    assert(config_run_from((s1, ph), Seq::<Seq<char>>::empty()) == (s1, ph));
    match ph {
        PhaseView::Route(sv, r0) => {
            assert(r0 == r);
            assert(config_step(s1, ph, close) == (s1, PhaseView::Failed(e)));
        },
        _ => {},
    }
    assert(config_run_from((s1, ph), seq![close]) == (s1, PhaseView::Failed(e)));
    lemma_failed_stays(s1, e, l2);
}

/// The parser's state while it reads the file.
enum Phase {
    Top,
    Server(ServerConfig),
    Route(ServerConfig, Route),
    Failed(ConfigError),
    Malformed,
}

impl View for Phase {
    type V = PhaseView;

    closed spec fn view(&self) -> PhaseView {
        match self {
            Phase::Top => PhaseView::Top,
            Phase::Server(s) => PhaseView::Server(s@),
            Phase::Route(s, r) => PhaseView::Route(s@, r@),
            Phase::Failed(e) => PhaseView::Failed(*e),
            Phase::Malformed => PhaseView::Malformed,
        }
    }
}

fn is_word(w: &Vec<char>, lit: &str) -> (r: bool)
    ensures
        r == (w@ == lit@),
{
    let l = chars_of(lit);
    chars_eq(w.as_slice(), l.as_slice())
}

fn default_server_config() -> (s: ServerConfig)
    ensures
        s@ == default_server(),
{
    let s = ServerConfig {
        host: String::from_str("0.0.0.0"),
        ports: Vec::new(),
        server_name: None,
        error_pages: HashMap::new(),
        client_max_body_size: 1048576,
        routes: Vec::new(),
    };
    assert(s@.error_pages =~= Map::<u16, Seq<char>>::empty());
    assert(s@.routes =~= Seq::<RouteView>::empty());
    s
}

fn words_from(parts: &Vec<Vec<char>>, start: usize) -> (r: Vec<String>)
    requires
        start <= parts.len(),
    ensures
        r.deep_view() =~= Seq::new(
            (parts@.len() - start) as nat,
            |i: int| parts@[start + i]@,
        ),
{
    let mut out: Vec<String> = Vec::new();
    let mut i = start;
    while i < parts.len()
        invariant
            start <= i <= parts.len(),
            out@.len() == i - start,
            forall|k: int| 0 <= k < out@.len() ==> #[trigger] out@[k]@ == parts@[start + k]@,
        decreases parts.len() - i,
    {
        out.push(string_from_chars(parts[i].as_slice()));
        i = i + 1;
    }
    out
}

fn ports_from(parts: &Vec<Vec<char>>) -> (r: Option<Vec<u16>>)
    requires
        parts.len() >= 1,
    ensures
        match r {
            Some(v) => parse_ports(Seq::new((parts@.len() - 1) as nat, |i: int| parts@[1 + i]@))
                == Some(v@),
            None => parse_ports(Seq::new((parts@.len() - 1) as nat, |i: int| parts@[1 + i]@)) is None,
        },
{
    let ghost ws = Seq::new((parts@.len() - 1) as nat, |i: int| parts@[1 + i]@);
    let mut out: Vec<u16> = Vec::new();
    let mut i: usize = 1;
    while i < parts.len()
        invariant
            1 <= i <= parts.len(),
            ws == Seq::new((parts@.len() - 1) as nat, |i: int| parts@[1 + i]@),
            parse_ports(ws.take(i - 1)) == Some(out@),
        decreases parts.len() - i,
    {
        assert(ws.take(i as int).drop_last() =~= ws.take(i - 1));
        match parse_u16(parts[i].as_slice()) {
            Some(n) => {
                out.push(n);
            },
            None => {
                proof {
                    lemma_parse_ports_none(ws, i as int);
                }
                return None;
            },
        }
        i = i + 1;
    }
    assert(ws.take(parts.len() - 1) =~= ws);
    Some(out)
}

proof fn lemma_parse_ports_none(ws: Seq<Seq<char>>, n: int)
    requires
        0 <= n <= ws.len(),
        parse_ports(ws.take(n)) is None,
    ensures
        parse_ports(ws) is None,
    decreases ws.len() - n,
{
    if n < ws.len() {
        assert(ws.take(n + 1).drop_last() =~= ws.take(n));
        lemma_parse_ports_none(ws, n + 1);
    } else {
        assert(ws.take(n) =~= ws);
    }
}

/// The words of a line, as character sequences.
pub open spec fn words_view(parts: Seq<Vec<char>>) -> Seq<Seq<char>> {
    Seq::new(parts.len(), |i: int| parts[i]@)
}

/// What a directive inside a server block does to the server being read.
enum ServerStep {
    Keep(ServerConfig),
    OpenRoute(ServerConfig, Route),
    Malformed,
}

/// Applies one directive (its words `parts`, at least one) to the server
/// being read.
fn parse_server(sv: ServerConfig, parts: &Vec<Vec<char>>) -> (r: ServerStep)
    requires
        parts.len() >= 1,
    ensures
        match (r, server_directive(sv@, words_view(parts@))) {
            (ServerStep::Keep(s), ServerLine::Keep(v)) => s@ == v,
            (ServerStep::OpenRoute(s, rt), ServerLine::OpenRoute(rv)) => s@ == sv@ && rt@ == rv,
            (ServerStep::Malformed, ServerLine::Malformed) => true,
            _ => false,
        },
{
    let ghost ws = words_view(parts@);
    assert(ws[0] == parts@[0]@);
    let mut sv = sv;
    let key = &parts[0];
    if is_word(key, "host") {
        if parts.len() < 2 {
            return ServerStep::Malformed;
        }
        sv.host = string_from_chars(parts[1].as_slice());
        ServerStep::Keep(sv)
    } else if is_word(key, "ports") {
        match ports_from(parts) {
            None => {
                assert(ws.skip(1) =~= Seq::new((parts@.len() - 1) as nat, |i: int| parts@[1 + i]@));
                ServerStep::Malformed
            },
            Some(ps) => {
                assert(ws.skip(1) =~= Seq::new((parts@.len() - 1) as nat, |i: int| parts@[1 + i]@));
                sv.ports = ps;
                ServerStep::Keep(sv)
            },
        }
    } else if is_word(key, "server_name") {
        if parts.len() < 2 {
            return ServerStep::Malformed;
        }
        sv.server_name = Some(string_from_chars(parts[1].as_slice()));
        ServerStep::Keep(sv)
    } else if is_word(key, "client_max_body_size") {
        if parts.len() < 2 {
            return ServerStep::Malformed;
        }
        match parse_usize(parts[1].as_slice(), 10) {
            None => ServerStep::Malformed,
            Some(n) => {
                sv.client_max_body_size = n;
                ServerStep::Keep(sv)
            },
        }
    } else if is_word(key, "error_page") {
        if parts.len() < 2 {
            return ServerStep::Malformed;
        }
        match parse_u16(parts[1].as_slice()) {
            None => ServerStep::Malformed,
            Some(code) => {
                if parts.len() < 3 {
                    return ServerStep::Malformed;
                }
                let ghost before = sv.error_pages@;
                let page = string_from_chars(parts[2].as_slice());
                sv.error_pages.insert(code, page);
                proof {
                    assert(sv.error_pages@ == before.insert(code, page));
                    assert(sv.error_pages@.map_values(|s: String| s@) =~= before.map_values(
                        |s: String| s@,
                    ).insert(code, parts@[2]@));
                }
                ServerStep::Keep(sv)
            },
        }
    } else if is_word(key, "route") {
        if parts.len() < 3 {
            return ServerStep::Malformed;
        }
        if is_word(&parts[2], "{") {
            let rt = Route {
                path: string_from_chars(parts[1].as_slice()),
                methods: Vec::new(),
                redirect: None,
                index: None,
                cgi_extension: None,
                cgi_path: None,
                root: None,
                autoindex: false,
            };
            assert(rt@.methods =~= Seq::<Seq<char>>::empty());
            ServerStep::OpenRoute(sv, rt)
        } else {
            ServerStep::Keep(sv)
        }
    } else {
        ServerStep::Keep(sv)
    }
}

/// Applies one directive (its words `parts`, at least one) to the route
/// being read; `None` where it lacks its argument.
fn parse_route(r: Route, parts: &Vec<Vec<char>>) -> (out: Option<Route>)
    requires
        parts.len() >= 1,
    ensures
        match out {
            Some(x) => route_directive(r@, words_view(parts@)) == Some(x@),
            None => route_directive(r@, words_view(parts@)) is None,
        },
{
    let ghost ws = words_view(parts@);
    assert(ws[0] == parts@[0]@);
    let mut r = r;
    let key = &parts[0];
    if is_word(key, "methods") {
        r.methods = words_from(parts, 1);
        assert(r@.methods =~= ws.skip(1));
        return Some(r);
    }
    let redirect = is_word(key, "redirect");
    let page = is_word(key, "page");
    let cgi_ext = is_word(key, "cgi_ext");
    let cgi_path = is_word(key, "cgi_path");
    if redirect || page || cgi_ext || cgi_path {
        if parts.len() < 2 {
            return None;
        }
        let v = Some(string_from_chars(parts[1].as_slice()));
        if redirect {
            r.redirect = v;
        } else if page {
            r.index = v;
        } else if cgi_ext {
            r.cgi_extension = v;
        } else {
            r.cgi_path = v;
        }
        Some(r)
    } else {
        Some(r)
    }
}

/// The server with one more route.
fn add_route(sv: ServerConfig, r: Route) -> (out: ServerConfig)
    ensures
        out@ == with_route(sv@, r@),
{
    let ghost before = sv@;
    let ghost rv = r@;
    let mut sv = sv;
    sv.routes.push(r);
    assert(sv@.routes =~= before.routes.push(rv));
    assert(sv@.error_pages =~= before.error_pages);
    sv
}

/// What the route block lacks, if anything.
fn check_route(r: &Route) -> (e: Option<ConfigError>)
    ensures
        e == route_error(r@),
{
    if r.methods.len() == 0 {
        Some(ConfigError::MissingMethods)
    } else if r.cgi_extension.is_some() != r.cgi_path.is_some() {
        Some(ConfigError::IncompleteCgi)
    } else {
        None
    }
}

/// The text of a line before its `#` comment.
fn strip_comment_chars(line: &[char]) -> (r: Vec<char>)
    ensures
        r@ == strip_comment(line@),
{
    let mut i: usize = 0;
    while i < line.len()
        invariant
            i <= line.len(),
            forall|j: int| 0 <= j < i ==> !comment_start(line@, j),
        decreases line.len() - i,
    {
        if line[i] == '#' && (i == 0 || crate::text::char_is_ws(line[i - 1])) {
            proof {
                lemma_strip_comment_at(line@, i as int);
            }
            let r = crate::text::copy_chars(line, 0, i);
            assert(r@ =~= line@.take(i as int));
            return r;
        }
        i = i + 1;
    }
    let r = crate::text::copy_chars(line, 0, line.len());
    assert(r@ =~= line@);
    r
}

/// Reads one line of the configuration file, without its comment and trimmed.
fn config_line(servers: &mut Vec<ServerConfig>, phase: Phase, line: &[char]) -> (p: Phase)
    ensures
        (servers_view(final(servers)@), p@) == config_step(
            servers_view(old(servers)@),
            phase@,
            line@,
        ),
{
    if line.len() == 0 {
        return phase;
    }
    let parts = split_whitespace(line);
    let ghost ws = words(line@);
    assert(words_view(parts@) =~= ws);
    let lv = crate::text::copy_chars(line, 0, line.len());
    assert(lv@ =~= line@);
    match phase {
        Phase::Top => {
            if is_word(&lv, "server {") {
                Phase::Server(default_server_config())
            } else {
                Phase::Failed(ConfigError::ExpectedServer)
            }
        },
        Phase::Server(sv) => {
            if is_word(&lv, "}") {
                let ghost before = servers_view(servers@);
                let ghost v = sv@;
                servers.push(sv);
                assert(servers_view(servers@) =~= before.push(v));
                Phase::Top
            } else if parts.len() == 0 {
                Phase::Server(sv)
            } else {
                match parse_server(sv, &parts) {
                    ServerStep::Keep(s2) => Phase::Server(s2),
                    ServerStep::OpenRoute(s2, r) => Phase::Route(s2, r),
                    ServerStep::Malformed => Phase::Malformed,
                }
            }
        },
        Phase::Route(sv, r) => {
            if is_word(&lv, "}") {
                match check_route(&r) {
                    Some(e) => Phase::Failed(e),
                    None => Phase::Server(add_route(sv, r)),
                }
            } else if parts.len() == 0 {
                Phase::Route(sv, r)
            } else {
                match parse_route(r, &parts) {
                    Some(r2) => Phase::Route(sv, r2),
                    None => Phase::Malformed,
                }
            }
        },
        Phase::Failed(e) => Phase::Failed(e),
        Phase::Malformed => Phase::Malformed,
    }
}

fn parse_core(content: &str) -> (r: Option<Result<Config, ConfigError>>)
    ensures
        match r {
            Some(Ok(c)) => config_outcome(content@) == Some(
                Ok::<Seq<ServerView>, ConfigError>(servers_view(c.servers@)),
            ),
            Some(Err(e)) => config_outcome(content@) == Some(Err::<Seq<ServerView>, ConfigError>(e)),
            None => config_outcome(content@) is None,
        },
{
    let chars = chars_of(content);
    let lines = split_char(chars.as_slice(), '\n');
    let ghost ls = split_on(content@, '\n');
    let mut servers: Vec<ServerConfig> = Vec::new();
    let mut phase = Phase::Top;
    let mut i: usize = 0;
    assert(servers_view(servers@) =~= Seq::<ServerView>::empty());
    while i < lines.len()
        invariant
            i <= lines.len(),
            ls == split_on(content@, '\n'),
            lines@.len() == ls.len(),
            forall|k: int| 0 <= k < lines@.len() ==> #[trigger] lines@[k]@ == ls[k],
            (servers_view(servers@), phase@) == config_run(ls.take(i as int)),
        decreases lines.len() - i,
    {
        assert(ls.take(i + 1).drop_last() =~= ls.take(i as int));
        assert(ls.take(i + 1).last() == ls[i as int]);
        let bare = strip_comment_chars(lines[i].as_slice());
        let t = trim_chars(bare.as_slice());
        phase = config_line(&mut servers, phase, t.as_slice());
        i = i + 1;
    }
    assert(ls.take(lines.len() as int) =~= ls);
    match phase {
        Phase::Top => Some(Ok(Config { servers })),
        Phase::Server(sv) => {
            let ghost before = servers_view(servers@);
            let ghost v = sv@;
            servers.push(sv);
            assert(servers_view(servers@) =~= before.push(v));
            Some(Ok(Config { servers }))
        },
        Phase::Route(sv, r) => {
            if let Some(e) = check_route(&r) {
                return Some(Err(e));
            }
            let s2 = add_route(sv, r);
            let ghost before = servers_view(servers@);
            let ghost v = s2@;
            servers.push(s2);
            assert(servers_view(servers@) =~= before.push(v));
            Some(Ok(Config { servers }))
        },
        Phase::Failed(e) => Some(Err(e)),
        Phase::Malformed => None,
    }
}

impl Config {
    /// Parses the text of a configuration file.
    pub fn parse(content: &str) -> (r: Result<Config, ConfigError>)
        requires
            config_outcome(content@) is Some,
        ensures
            match r {
                Ok(c) => config_outcome(content@) == Some(
                    Ok::<Seq<ServerView>, ConfigError>(servers_view(c.servers@)),
                ),
                Err(e) => config_outcome(content@) == Some(Err::<Seq<ServerView>, ConfigError>(e)),
            },
    {
        match parse_core(content) {
            Some(r) => r,
            None => Err(ConfigError::ExpectedServer),
        }
    }

    /// Parses the text of a configuration file as [`Config::parse`] does;
    /// `None` where a directive lacks an argument or has a malformed number.
    pub fn parse_checked(content: &str) -> (r: Option<Result<Config, ConfigError>>)
        ensures
            match r {
                Some(Ok(c)) => config_outcome(content@) == Some(
                    Ok::<Seq<ServerView>, ConfigError>(servers_view(c.servers@)),
                ),
                Some(Err(e)) => config_outcome(content@) == Some(
                    Err::<Seq<ServerView>, ConfigError>(e),
                ),
                None => config_outcome(content@) is None,
            },
    {
        parse_core(content)
    }
}

fn clone_opt(o: &Option<String>) -> (r: Option<String>)
    ensures
        r.deep_view() == o.deep_view(),
{
    match o {
        Some(x) => Some(x.clone()),
        None => None,
    }
}

fn clone_strings(v: &Vec<String>) -> (r: Vec<String>)
    ensures
        r.deep_view() == v.deep_view(),
{
    let mut out: Vec<String> = Vec::new();
    let mut i: usize = 0;
    while i < v.len()
        invariant
            i <= v.len(),
            out@.len() == i,
            forall|k: int| 0 <= k < i ==> #[trigger] out@[k]@ == v@[k]@,
        decreases v.len() - i,
    {
        out.push(v[i].clone());
        i = i + 1;
    }
    assert(out.deep_view() =~= v.deep_view());
    out
}

impl Clone for Route {
    fn clone(&self) -> (r: Self)
        ensures
            r@ == self@,
    {
        Route {
            path: self.path.clone(),
            methods: clone_strings(&self.methods),
            redirect: clone_opt(&self.redirect),
            index: clone_opt(&self.index),
            cgi_extension: clone_opt(&self.cgi_extension),
            cgi_path: clone_opt(&self.cgi_path),
            root: clone_opt(&self.root),
            autoindex: self.autoindex,
        }
    }
}

impl Clone for ServerConfig {
    fn clone(&self) -> (r: Self)
        ensures
            r@ == self@,
    {
        let mut routes: Vec<Route> = Vec::new();
        let mut i: usize = 0;
        while i < self.routes.len()
            invariant
                i <= self.routes.len(),
                routes@.len() == i,
                forall|k: int| 0 <= k < i ==> #[trigger] routes@[k]@ == self.routes@[k]@,
            decreases self.routes.len() - i,
        {
            routes.push(self.routes[i].clone());
            i = i + 1;
        }
        let r = ServerConfig {
            host: self.host.clone(),
            ports: self.ports.clone(),
            server_name: clone_opt(&self.server_name),
            error_pages: self.error_pages.clone(),
            client_max_body_size: self.client_max_body_size,
            routes,
        };
        assert(r.ports@ =~= self.ports@);
        assert(r@.routes =~= self@.routes);
        r
    }
}

impl Clone for Config {
    fn clone(&self) -> (r: Self)
        ensures
            servers_view(r.servers@) == servers_view(self.servers@),
    {
        let mut servers: Vec<ServerConfig> = Vec::new();
        let mut i: usize = 0;
        while i < self.servers.len()
            invariant
                i <= self.servers.len(),
                servers@.len() == i,
                forall|k: int| 0 <= k < i ==> #[trigger] servers@[k]@ == self.servers@[k]@,
            decreases self.servers.len() - i,
        {
            servers.push(self.servers[i].clone());
            i = i + 1;
        }
        let r = Config { servers };
        assert(servers_view(r.servers@) =~= servers_view(self.servers@));
        r
    }
}

} // verus!
