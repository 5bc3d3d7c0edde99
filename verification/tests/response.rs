use webserv::config::Config;
use webserv::response::{
    error_page_path, fallback_error_body, header_line, location_header, plan_cgi, render_response,
    CgiReply, PlannedBody,
};
use webserv::text::{parse_u16, parse_usize, render_decimal, trim_chars, split_whitespace};

#[test]
fn render_response_exact_bytes() {
    let r = render_response(200, "OK", b"X-A: 1\r\n", b"hello");
    let expected = b"HTTP/1.1 200 OK\r\nContent-Length: 5\r\nContent-Type: text/html; charset=UTF-8\r\nConnection: close\r\nX-A: 1\r\n\r\nhello";
    assert_eq!(r, expected.to_vec());
}

#[test]
fn render_response_empty_body() {
    let r = render_response(404, "Not Found", b"", b"");
    let expected = b"HTTP/1.1 404 Not Found\r\nContent-Length: 0\r\nContent-Type: text/html; charset=UTF-8\r\nConnection: close\r\n\r\n";
    assert_eq!(r, expected.to_vec());
}

#[test]
fn render_response_content_length_matches_body() {
    let body = vec![b'x'; 1234];
    let r = render_response(200, "OK", b"", &body);
    let text = String::from_utf8_lossy(&r);
    assert!(text.contains("Content-Length: 1234\r\n"));
    assert!(r.ends_with(&body));
}

#[test]
fn header_and_location_lines() {
    assert_eq!(header_line("Set-Cookie", "a=b"), b"Set-Cookie: a=b\r\n".to_vec());
    assert_eq!(location_header("/new"), b"Location: /new\r\n".to_vec());
}

#[test]
fn fallback_error_page() {
    assert_eq!(
        fallback_error_body(429, "Too Many Requests"),
        b"<html><head><title>429 Too Many Requests</title></head><body><h1>429 Too Many Requests</h1></body></html>".to_vec()
    );
}

#[test]
fn error_page_configured() {
    let cfg = Config::parse("server {\nerror_page 404 errors/404.html\n}\n").unwrap();
    let s = &cfg.servers[0];
    assert_eq!(error_page_path(404, Some(s)).as_deref(), Some("errors/404.html"));
    assert_eq!(error_page_path(500, Some(s)), None);
    assert_eq!(error_page_path(404, None), None);
}

fn reply(headers: &[(&str, &str)], error: Option<(u16, &str)>, status: Option<u16>, body: &str) -> CgiReply {
    CgiReply {
        headers: headers.iter().map(|(k, v)| (k.to_string(), v.to_string())).collect(),
        error: error.map(|(c, m)| (c, m.to_string())),
        status,
        body: body.to_string(),
    }
}

#[test]
fn cgi_plan_without_reply() {
    let p = plan_cgi(None);
    assert_eq!((p.status_code, p.status_text), (500, "CGI Error"));
    assert!(p.extra_headers.is_empty());
    match p.body {
        PlannedBody::ErrorPage { code, text } => {
            assert_eq!(code, 500);
            assert_eq!(text, "CGI Error");
        }
        _ => panic!("expected an error page"),
    }
}

#[test]
fn cgi_plan_error() {
    let p = plan_cgi(Some(reply(&[("A", "b")], Some((403, "nope")), Some(302), "x")));
    assert_eq!((p.status_code, p.status_text), (403, "Error"));
    assert!(p.extra_headers.is_empty());
    match p.body {
        PlannedBody::ErrorPage { code, text } => {
            assert_eq!(code, 403);
            assert_eq!(text, "nope");
        }
        _ => panic!("expected an error page"),
    }
}

#[test]
fn cgi_plan_statuses() {
    let cases = [
        (None, 200, "OK"),
        (Some(301), 301, "Moved Permanently"),
        (Some(302), 302, "Found"),
        (Some(303), 303, "See Other"),
        (Some(418), 418, "OK"),
    ];
    for (st, code, text) in cases {
        let p = plan_cgi(Some(reply(&[("Location", "/x"), ("X-B", "2")], None, st, "body")));
        assert_eq!((p.status_code, p.status_text), (code, text));
        assert_eq!(p.extra_headers, b"Location: /x\r\nX-B: 2\r\n".to_vec());
        match p.body {
            PlannedBody::Bytes(b) => assert_eq!(b, b"body".to_vec()),
            _ => panic!("expected bytes"),
        }
    }
}

fn chars(s: &str) -> Vec<char> {
    s.chars().collect()
}

#[test]
fn text_number_parsing() {
    assert_eq!(parse_u16(&chars("8080")), Some(8080));
    assert_eq!(parse_u16(&chars("+1")), Some(1));
    assert_eq!(parse_u16(&chars("65535")), Some(65535));
    assert_eq!(parse_u16(&chars("65536")), None);
    assert_eq!(parse_u16(&chars("")), None);
    assert_eq!(parse_u16(&chars("+")), None);
    assert_eq!(parse_u16(&chars("-1")), None);
    assert_eq!(parse_u16(&chars("1 ")), None);
    assert_eq!(parse_usize(&chars("ff"), 16), Some(255));
    assert_eq!(parse_usize(&chars("FF"), 16), Some(255));
    assert_eq!(parse_usize(&chars("ff"), 10), None);
    assert_eq!(parse_usize(&chars("99999999999999999999999"), 10), None);
}

#[test]
fn text_decimal_rendering() {
    assert_eq!(render_decimal(0), b"0".to_vec());
    assert_eq!(render_decimal(7), b"7".to_vec());
    assert_eq!(render_decimal(1048576), b"1048576".to_vec());
    assert_eq!(render_decimal(u64::MAX), u64::MAX.to_string().into_bytes());
}

#[test]
fn text_trim_and_words() {
    assert_eq!(trim_chars(&chars(" \t a b \u{a0}\r")), chars("a b"));
    assert_eq!(trim_chars(&chars("   ")), chars(""));
    let w = split_whitespace(&chars("  route /x {\u{3000}y "));
    let w: Vec<String> = w.into_iter().map(|v| v.into_iter().collect()).collect();
    assert_eq!(w, vec!["route", "/x", "{", "y"]);
}

#[test]
fn plan_redirect_and_error() {
    let p = webserv::response::plan_response(webserv::router::redirect_301("/new"));
    assert_eq!(p.status_code, 301);
    assert_eq!(p.status_text, "Moved Permanently");
    assert_eq!(p.extra_headers, b"Location: /new\r\n".to_vec());
    assert!(matches!(p.task, webserv::response::BodyTask::Empty));
    let p = webserv::response::plan_response(webserv::router::http_error(404, None));
    assert_eq!(p.status_code, 404);
    assert!(p.extra_headers.is_empty());
    match p.task {
        webserv::response::BodyTask::ErrorPage { code, text, server } => {
            assert_eq!(code, 404);
            assert_eq!(text, "Not Found");
            assert!(server.is_none());
        }
        _ => panic!("expected an error page"),
    }
}
