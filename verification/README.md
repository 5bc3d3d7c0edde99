# webserv

An epoll-driven HTTP/1.1 server with virtual hosts, routes, CGI scripts and
multipart uploads. Everything the server decides is a verified Verus
library; the program around it only does the input and output.

## Layout

- `src/` — the library, verified by Verus:
  - `text.rs`: whitespace, trimming, splitting, case-insensitive comparison,
    decimal and hexadecimal numbers, UTF-8 conversions;
  - `config.rs`: the configuration file format and its parser;
  - `request.rs`: body modes and the chunked transfer decoder;
  - `head.rs`: the request head, as the `httparse` crate reads it;
  - `client.rs`: one connection, from the bytes read to a complete request;
  - `router.rs`: from a request to the status and content of the response;
  - `response.rs`: response bytes, error pages and CGI replies;
  - `upload.rs`: multipart bodies and the names of stored files;
  - `setup.rs`: which servers share a listening socket;
  - `utils.rs`: header lookup and cookies;
  - `event.rs`: the rate limiter and what to do with a ready descriptor.
- `app/main.rs` — the program: sockets, epoll, files, processes and JSON.
- `tests/` — tests of the library on concrete inputs.

## Configuration

```conf
server {
	host 0.0.0.0
	ports 8080 8081
	server_name localhost
	client_max_body_size 1048576
	error_page 404 errors/404.html
	route / {
		methods GET POST DELETE
		page index.html
	}
	route /program {
		methods GET
		cgi_ext .py
		cgi_path /usr/bin/python3
	}
}
```

A `#` that begins a word starts a comment that runs to the end of its line
(a `#` inside a word is kept). Each line is
read without its comment and trimmed; empty lines are skipped. A line
outside a server block that is not `server {` makes the file invalid, and
so does a route without `methods`, or with only one of `cgi_ext` and
`cgi_path`.
