use webserv::config::{Config, ConfigError};
use webserv::setup::group_servers;

const README_CONFIG: &str = "# Virtual host
server {
\t# Base config
\thost 0.0.0.0 \t\t\t\t\t# IP adress where the server will listen
\tports 8080 8081 \t\t\t\t# Ports that will be opened to listen on
\tserver_name localhost \t\t\t# Domain name
\tclient_max_body_size 1048576 \t# Max request size

\t# Errors
\terror_page 404 errors/404.html
\terror_page 500 errors/500.html

\t# Routing
\troute / { \t\t\t\t\t\t# Index route with methods
\t\tmethods GET POST DELETE
\t\tpage index.html
\t}
\troute /program { \t\t\t\t# Program route with CGI in python
\t\tmethods GET
\t\tcgi_ext .py
\t\tcgi_path /usr/bin/python3
\t}
}
";

fn check_readme_server(cfg: &Config) {
    assert_eq!(cfg.servers.len(), 1);
    let s = &cfg.servers[0];
    assert_eq!(s.host, "0.0.0.0");
    assert_eq!(s.ports, vec![8080, 8081]);
    assert_eq!(s.server_name.as_deref(), Some("localhost"));
    assert_eq!(s.client_max_body_size, 1048576);
    assert_eq!(s.error_pages.len(), 2);
    assert_eq!(s.error_pages.get(&404).map(|x| x.as_str()), Some("errors/404.html"));
    assert_eq!(s.error_pages.get(&500).map(|x| x.as_str()), Some("errors/500.html"));
    assert_eq!(s.routes.len(), 2);
    assert_eq!(s.routes[0].path, "/");
    assert_eq!(s.routes[0].methods, vec!["GET", "POST", "DELETE"]);
    assert_eq!(s.routes[0].index.as_deref(), Some("index.html"));
    assert_eq!(s.routes[0].redirect, None);
    assert_eq!(s.routes[0].cgi_extension, None);
    assert_eq!(s.routes[0].cgi_path, None);
    assert_eq!(s.routes[1].path, "/program");
    assert_eq!(s.routes[1].methods, vec!["GET"]);
    assert_eq!(s.routes[1].index, None);
    assert_eq!(s.routes[1].redirect, None);
    assert_eq!(s.routes[1].cgi_extension.as_deref(), Some(".py"));
    assert_eq!(s.routes[1].cgi_path.as_deref(), Some("/usr/bin/python3"));
}

#[test]
fn config_readme_example_parses() {
    let cfg = Config::parse(README_CONFIG).expect("parses");
    check_readme_server(&cfg);
}

#[test]
fn config_readme_server_block_parses() {
    // The server block alone, from `server {` to its closing brace.
    let text = README_CONFIG.trim_start_matches("# Virtual host\n");
    let cfg = Config::parse(text).expect("parses");
    check_readme_server(&cfg);
}

#[test]
fn config_comments_end_at_line_end() {
    let text = "# leading\nserver { # opens\nports 8080 # comment\nroute /a { #x\nmethods GET\t#POST\n} # done\n}\n";
    let cfg = Config::parse(text).expect("parses");
    assert_eq!(cfg.servers[0].ports, vec![8080]);
    assert_eq!(cfg.servers[0].routes[0].methods, vec!["GET"]);
}

#[test]
fn config_hash_inside_a_word_is_kept() {
    let text = "server {\nserver_name my#site\nroute /a#b {\nmethods GET#POST\nredirect /docs#intro # moved\n}\n}\n";
    let cfg = Config::parse(text).expect("parses");
    let s = &cfg.servers[0];
    assert_eq!(s.server_name.as_deref(), Some("my#site"));
    assert_eq!(s.routes.len(), 1);
    assert_eq!(s.routes[0].path, "/a#b");
    assert_eq!(s.routes[0].methods, vec!["GET#POST"]);
    assert_eq!(s.routes[0].redirect.as_deref(), Some("/docs#intro"));
}

#[test]
fn config_route_needs_methods() {
    let r = Config::parse("server {\nroute / {\npage index.html\n}\n}\n");
    assert!(matches!(r, Err(ConfigError::MissingMethods)));
    let r = Config::parse("server {\nroute / {\nmethods\n}\n}\n");
    assert!(matches!(r, Err(ConfigError::MissingMethods)));
    let r = Config::parse("server {\nroute / {\npage index.html");
    assert!(matches!(r, Err(ConfigError::MissingMethods)));
}

#[test]
fn config_cgi_options_come_together() {
    let r = Config::parse("server {\nroute /p {\nmethods GET\ncgi_ext .py\n}\n}\n");
    assert!(matches!(r, Err(ConfigError::IncompleteCgi)));
    let r = Config::parse("server {\nroute /p {\nmethods GET\ncgi_path /usr/bin/python3\n}\n}\n");
    assert!(matches!(r, Err(ConfigError::IncompleteCgi)));
    let r = Config::parse("server {\nroute /p {\nmethods GET\ncgi_path /bin/sh");
    assert!(matches!(r, Err(ConfigError::IncompleteCgi)));
}

#[test]
fn config_full_server_block() {
    let text = "server {\n  host 127.0.0.1\n  ports 8080 8081\n  server_name localhost\n  client_max_body_size 100\n  error_page 404 errors/404.html\n  error_page 404 errors/other.html\n  route / {\n    methods GET POST DELETE\n    page index.html\n  }\n  route /program {\n    methods GET\n    cgi_ext .py\n    cgi_path /usr/bin/python3\n  }\n}\n";
    let cfg = Config::parse(text).expect("parses");
    assert_eq!(cfg.servers.len(), 1);
    let s = &cfg.servers[0];
    assert_eq!(s.host, "127.0.0.1");
    assert_eq!(s.ports, vec![8080, 8081]);
    assert_eq!(s.server_name.as_deref(), Some("localhost"));
    assert_eq!(s.client_max_body_size, 100);
    assert_eq!(s.error_pages.len(), 1);
    assert_eq!(s.error_pages.get(&404).map(|x| x.as_str()), Some("errors/other.html"));
    assert_eq!(s.routes.len(), 2);
    assert_eq!(s.routes[0].path, "/");
    assert_eq!(s.routes[0].methods, vec!["GET", "POST", "DELETE"]);
    assert_eq!(s.routes[0].index.as_deref(), Some("index.html"));
    assert_eq!(s.routes[0].cgi_extension, None);
    assert_eq!(s.routes[0].root, None);
    assert!(!s.routes[0].autoindex);
    assert_eq!(s.routes[1].path, "/program");
    assert_eq!(s.routes[1].cgi_extension.as_deref(), Some(".py"));
    assert_eq!(s.routes[1].cgi_path.as_deref(), Some("/usr/bin/python3"));
}

#[test]
fn config_defaults() {
    let cfg = Config::parse("server {\n}\n").expect("parses");
    let s = &cfg.servers[0];
    assert_eq!(s.host, "0.0.0.0");
    assert!(s.ports.is_empty());
    assert_eq!(s.server_name, None);
    assert_eq!(s.client_max_body_size, 1048576);
    assert!(s.error_pages.is_empty());
    assert!(s.routes.is_empty());
}

#[test]
fn config_empty_text_has_no_server() {
    let cfg = Config::parse("").expect("parses");
    assert!(cfg.servers.is_empty());
    let cfg2 = Config::parse("\n   \n\t\n").expect("parses");
    assert!(cfg2.servers.is_empty());
}

#[test]
fn config_unclosed_blocks_count_as_closed() {
    let cfg = Config::parse("server {\nroute /a {\nmethods GET").expect("parses");
    assert_eq!(cfg.servers.len(), 1);
    assert_eq!(cfg.servers[0].routes.len(), 1);
    assert_eq!(cfg.servers[0].routes[0].methods, vec!["GET"]);
}

#[test]
fn config_two_servers_and_crlf_lines() {
    let cfg = Config::parse("server {\r\nports 1\r\n}\r\nserver {\r\nports 2 3\r\n}\r\n").expect("parses");
    assert_eq!(cfg.servers.len(), 2);
    assert_eq!(cfg.servers[0].ports, vec![1]);
    assert_eq!(cfg.servers[1].ports, vec![2, 3]);
}

#[test]
fn config_text_outside_server_is_an_error() {
    assert!(matches!(Config::parse("listen 80\n"), Err(ConfigError::ExpectedServer)));
    assert!(matches!(Config::parse("server{\n}\n"), Err(ConfigError::ExpectedServer)));
    assert!(matches!(Config::parse("server {\n}\nhost x\n"), Err(ConfigError::ExpectedServer)));
}

#[test]
fn config_missing_arguments_are_malformed() {
    assert!(Config::parse_checked("server {\nhost\n}\n").is_none());
    assert!(Config::parse_checked("server {\nerror_page 404\n}\n").is_none());
    assert!(Config::parse_checked("server {\nerror_page x y\n}\n").is_none());
    assert!(Config::parse_checked("server {\nports 70000\n}\n").is_none());
    assert!(Config::parse_checked("server {\nclient_max_body_size -1\n}\n").is_none());
    assert!(Config::parse_checked("server {\nroute /\n}\n").is_none());
    assert!(Config::parse_checked("server {\nroute / {\npage\n}\n}\n").is_none());
}

#[test]
fn config_route_without_brace_is_ignored() {
    let cfg = Config::parse("server {\nroute / x\nunknown directive\n}\n").expect("parses");
    assert!(cfg.servers[0].routes.is_empty());
}

#[test]
fn config_error_outside_after_malformed_stays_malformed() {
    assert!(Config::parse_checked("server {\nhost\n}\nnot a server\n").is_none());
}

#[test]
fn config_clone_keeps_everything() {
    let cfg = Config::parse("server {\nports 80\nroute / {\nmethods GET\n}\n}\n").unwrap();
    let c2 = cfg.clone();
    assert_eq!(c2.servers[0].ports, vec![80]);
    assert_eq!(c2.servers[0].routes[0].methods, vec!["GET"]);
}

#[test]
fn setup_groups_by_host_and_port() {
    let cfg = Config::parse(
        "server {\nserver_name a\nports 80 81\n}\nserver {\nserver_name b\nports 81\n}\nserver {\nhost 127.0.0.1\nports 81\n}\n",
    )
    .unwrap();
    let groups = group_servers(&cfg);
    assert_eq!(groups.len(), 3);
    assert_eq!((groups[0].host.as_str(), groups[0].port), ("0.0.0.0", 80));
    assert_eq!(groups[0].servers.len(), 1);
    assert_eq!((groups[1].host.as_str(), groups[1].port), ("0.0.0.0", 81));
    assert_eq!(groups[1].servers.len(), 2);
    assert_eq!(groups[1].servers[0].server_name.as_deref(), Some("a"));
    assert_eq!(groups[1].servers[1].server_name.as_deref(), Some("b"));
    assert_eq!((groups[2].host.as_str(), groups[2].port), ("127.0.0.1", 81));
}

#[test]
fn setup_duplicate_port_adds_server_twice() {
    let cfg = Config::parse("server {\nports 80 80\n}\n").unwrap();
    let groups = group_servers(&cfg);
    assert_eq!(groups.len(), 1);
    assert_eq!(groups[0].servers.len(), 2);
}

#[test]
fn config_joined_files_give_both_server_lists() {
    let first = "server {\nserver_name a\nports 80\n}";
    let second = "server {\nserver_name b\nports 81 82\nroute /x {\nmethods GET\n}\n}";
    let joined = format!("{}\n{}", first, second);
    let a = Config::parse(first).unwrap();
    let b = Config::parse(second).unwrap();
    let both = Config::parse(&joined).unwrap();
    assert_eq!(both.servers.len(), a.servers.len() + b.servers.len());
    assert_eq!(both.servers[0].server_name.as_deref(), Some("a"));
    assert_eq!(both.servers[0].ports, vec![80]);
    assert_eq!(both.servers[1].server_name.as_deref(), Some("b"));
    assert_eq!(both.servers[1].ports, vec![81, 82]);
    assert_eq!(both.servers[1].routes.len(), 1);
    assert_eq!(both.servers[1].routes[0].path, "/x");
    let refused = format!("{}\n{}", first, "oops");
    assert!(matches!(Config::parse(&refused), Err(ConfigError::ExpectedServer)));
}
