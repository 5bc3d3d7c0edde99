use webserv::config::{Config, ServerConfig};
use webserv::request::{BodyMode, ParsedRequest};
use webserv::router::{
    finish_lookup, http_error, push_path, redirect_301, route_checked, router, ResponseAction,
    RouteOutcome,
};
use webserv::utils::get_cookie;

fn servers(text: &str) -> Vec<ServerConfig> {
    Config::parse(text).expect("parses").servers
}

fn site() -> Vec<ServerConfig> {
    let mut s = servers(
        "server {\nserver_name localhost\nports 8080 8081\nclient_max_body_size 10\nroute / {\nmethods GET POST\npage index.html\n}\nroute /old {\nmethods GET\nredirect /new\n}\nroute /cgi {\nmethods GET POST\ncgi_ext .py\ncgi_path /usr/bin/python3\n}\n}\n",
    );
    s[0].routes[0].root = Some("www".to_string());
    s[0].routes[2].root = Some("cgi-bin/".to_string());
    s
}

fn req(method: &str, path: &str, headers: &[(&str, &[u8])], body: &[u8]) -> ParsedRequest {
    ParsedRequest {
        method: Some(method.to_string()),
        path: Some(path.to_string()),
        version: Some(1),
        headers: Some(headers.iter().map(|(k, v)| (k.to_string(), v.to_vec())).collect()),
        body: body.to_vec(),
        body_mode: BodyMode::NoBody,
    }
}

fn status(o: &RouteOutcome) -> (u16, &'static str) {
    match o {
        RouteOutcome::Respond(r) => (r.status_code, r.status_text),
        RouteOutcome::Lookup(_) => (0, "lookup"),
    }
}

#[test]
fn http_error_texts() {
    let expected = [
        (400, "Bad Request"),
        (403, "Forbidden"),
        (404, "Not Found"),
        (405, "Method Not Allowed"),
        (413, "Payload Too Large"),
        (429, "Too Many Requests"),
        (500, "Internal Server Error"),
        (418, "Error"),
    ];
    for (code, text) in expected {
        let r = http_error(code, None);
        assert_eq!(r.status_code, code);
        assert_eq!(r.status_text, text);
        assert!(matches!(r.action, ResponseAction::Error { server: None }));
    }
}

#[test]
fn redirect_301_location() {
    let r = redirect_301("/elsewhere");
    assert_eq!(r.status_code, 301);
    assert_eq!(r.status_text, "Moved Permanently");
    match r.action {
        ResponseAction::Redirect { location } => assert_eq!(location, "/elsewhere"),
        _ => panic!("expected a redirect"),
    }
}

#[test]
fn router_missing_parts_are_bad_requests() {
    let s = site();
    let mut r = req("GET", "/", &[("Host", b"localhost")], b"");
    r.path = None;
    assert_eq!(status(&router(&s, 8080, r)), (400, "Bad Request"));
    let r = req("GET", "/", &[], b"");
    assert_eq!(status(&router(&s, 8080, r)), (400, "Bad Request"));
    let r = req("GET", "/", &[("Host", b"localhost:http")], b"");
    assert_eq!(status(&router(&s, 8080, r)), (400, "Bad Request"));
    let r = req("GET", "/", &[("Host", &[0xff])], b"");
    assert_eq!(status(&router(&s, 8080, r)), (400, "Bad Request"));
}

#[test]
fn router_unknown_host_or_port_is_not_found() {
    let s = site();
    let r = req("GET", "/", &[("Host", b"example.org")], b"");
    assert_eq!(status(&router(&s, 8080, r)), (404, "Not Found"));
    let r = req("GET", "/", &[("Host", b"localhost:9000")], b"");
    assert_eq!(status(&router(&s, 8080, r)), (404, "Not Found"));
    let r = req("GET", "/", &[("host", b"localhost")], b"");
    assert_eq!(status(&router(&s, 9000, r)), (404, "Not Found"));
}

#[test]
fn router_body_too_large() {
    let s = site();
    let r = req("POST", "/", &[("Host", b"localhost")], b"01234567890");
    assert_eq!(status(&router(&s, 8080, r)), (413, "Payload Too Large"));
}

#[test]
fn router_method_not_allowed() {
    let s = site();
    let r = req("DELETE", "/index.html", &[("Host", b"localhost:8081")], b"");
    assert_eq!(status(&router(&s, 8080, r)), (405, "Method Not Allowed"));
}

#[test]
fn router_redirect_route() {
    let s = site();
    let r = req("GET", "/old/page", &[("Host", b"localhost")], b"");
    match router(&s, 8080, r) {
        RouteOutcome::Respond(resp) => {
            assert_eq!(resp.status_code, 301);
            match resp.action {
                ResponseAction::Redirect { location } => assert_eq!(location, "/new"),
                _ => panic!("expected a redirect"),
            }
        }
        _ => panic!("expected a response"),
    }
}

#[test]
fn router_upload() {
    let s = site();
    let r = req(
        "POST",
        "/",
        &[("Host", b"localhost"), ("content-type", b"multipart/form-data; boundary=xyz")],
        b"data",
    );
    match router(&s, 8080, r) {
        RouteOutcome::Respond(resp) => {
            assert_eq!((resp.status_code, resp.status_text), (201, "Created"));
            match resp.action {
                ResponseAction::Upload { body, content_type } => {
                    assert_eq!(body, b"data".to_vec());
                    assert_eq!(content_type, "multipart/form-data; boundary=xyz");
                }
                _ => panic!("expected an upload"),
            }
        }
        _ => panic!("expected a response"),
    }
}

#[test]
fn router_cgi_script() {
    let s = site();
    let r = req(
        "POST",
        "/cgi//run.py",
        &[("Host", b"localhost"), ("Cookie", b"a=1; session=abc=d; x")],
        b"q=1",
    );
    match router(&s, 8080, r) {
        RouteOutcome::Respond(resp) => {
            assert_eq!((resp.status_code, resp.status_text), (200, "OK"));
            match resp.action {
                ResponseAction::Cgi { interpreter, path, method, body, server, session } => {
                    assert_eq!(interpreter, "/usr/bin/python3");
                    assert_eq!(path, "cgi-bin/run.py");
                    assert_eq!(method, "POST");
                    assert_eq!(body, b"q=1".to_vec());
                    assert_eq!(server.unwrap().server_name.as_deref(), Some("localhost"));
                    assert_eq!(session.as_deref(), Some("abc=d"));
                }
                _ => panic!("expected a CGI action"),
            }
        }
        _ => panic!("expected a response"),
    }
}

#[test]
fn router_get_file_lookup_and_finish() {
    let s = site();
    let r = req("GET", "/docs/a.txt", &[("Host", b"localhost")], b"");
    match router(&s, 8080, r) {
        RouteOutcome::Lookup(l) => {
            assert_eq!(l.fs_path, "www/docs/a.txt");
            assert_eq!(l.index_path.as_deref(), Some("www/docs/a.txt/index.html"));
            assert_eq!(l.route_path, "/");
            let resp = finish_lookup(l, true, false, false);
            assert_eq!(resp.status_code, 200);
            match resp.action {
                ResponseAction::ServeFile { path } => assert_eq!(path, "www/docs/a.txt"),
                _ => panic!("expected a file"),
            }
        }
        _ => panic!("expected a lookup"),
    }
}

#[test]
fn router_lookup_directory_cases() {
    let s = site();
    let mk = || match router(&s, 8080, req("GET", "/", &[("Host", b"localhost")], b"")) {
        RouteOutcome::Lookup(l) => l,
        _ => panic!("expected a lookup"),
    };
    let l = mk();
    assert_eq!(l.fs_path, "www/");
    let resp = finish_lookup(l, false, true, true);
    match resp.action {
        ResponseAction::ServeFile { path } => assert_eq!(path, "www/index.html"),
        _ => panic!("expected the default page"),
    }
    assert_eq!(finish_lookup(mk(), false, true, false).status_code, 403);
    let mut l = mk();
    l.autoindex = true;
    let resp = finish_lookup(l, false, true, false);
    match resp.action {
        ResponseAction::AutoIndex { dir, path } => {
            assert_eq!(dir, "www/");
            assert_eq!(path, "/");
        }
        _ => panic!("expected a listing"),
    }
    assert_eq!(finish_lookup(mk(), false, false, false).status_code, 404);
}

#[test]
fn router_post_without_cgi_is_not_found() {
    let s = site();
    let r = req("POST", "/form", &[("Host", b"localhost")], b"");
    assert_eq!(status(&router(&s, 8080, r)), (404, "Not Found"));
}

#[test]
fn router_route_without_root_is_reported() {
    let mut s = site();
    s[0].routes[0].root = None;
    let r = req("GET", "/", &[("Host", b"localhost")], b"");
    assert!(route_checked(&s, 8080, r).is_none());
    let r = req("GET", "/old", &[("Host", b"localhost")], b"");
    assert!(route_checked(&s, 8080, r).is_some());
}

#[test]
fn router_longest_prefix_last_among_ties() {
    let mut s = servers(
        "server {\nserver_name h\nports 1\nroute / {\nmethods GET\n}\nroute /a {\nmethods GET\nredirect first\n}\nroute /a {\nmethods GET\nredirect second\n}\nroute /ab {\nmethods GET\nredirect third\n}\n}\n",
    );
    s[0].routes[0].root = Some("r".to_string());
    let loc = |p: &str| match router(&s, 1, req("GET", p, &[("Host", b"h")], b"")) {
        RouteOutcome::Respond(r) => match r.action {
            ResponseAction::Redirect { location } => location,
            _ => String::new(),
        },
        _ => String::from("lookup"),
    };
    assert_eq!(loc("/a/x"), "second");
    assert_eq!(loc("/abc"), "third");
    assert_eq!(loc("/b"), "lookup");
}

#[test]
fn push_path_cases() {
    let c = |s: &str| s.chars().collect::<Vec<char>>();
    let s = |v: Vec<char>| v.into_iter().collect::<String>();
    assert_eq!(s(push_path(&c("www"), &c("a.txt"))), "www/a.txt");
    assert_eq!(s(push_path(&c("www/"), &c("a.txt"))), "www/a.txt");
    assert_eq!(s(push_path(&c("www"), &c(""))), "www/");
    assert_eq!(s(push_path(&c(""), &c("a"))), "a");
    assert_eq!(s(push_path(&c("www"), &c("/abs"))), "/abs");
}

#[test]
fn cookie_lookup() {
    let r = req("GET", "/", &[("Cookie", b"a=1;  session = x"), ("cookie", b"session=late")], b"");
    assert_eq!(get_cookie(&r, "a").as_deref(), Some("1"));
    assert_eq!(get_cookie(&r, "session").as_deref(), Some("late"));
    assert_eq!(get_cookie(&r, "session ").as_deref(), Some(" x"));
    let r2 = req("GET", "/", &[("Cookie", b"flag; session=v")], b"");
    assert_eq!(get_cookie(&r2, "flag"), None);
    assert_eq!(get_cookie(&r2, "session").as_deref(), Some("v"));
    let r3 = req("GET", "/", &[("Cookie", &[0xff]), ("Cookie", b"session=v")], b"");
    assert_eq!(get_cookie(&r3, "session"), None);
    let mut r4 = req("GET", "/", &[], b"");
    r4.headers = None;
    assert_eq!(get_cookie(&r4, "session"), None);
}
