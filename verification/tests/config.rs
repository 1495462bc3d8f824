//! Configuration files.

use localhost::config::{known_method, parse, ConfigError};

const GOOD: &str = "
        server {
            host 127.0.0.1
            port 8080 8081
            server_name example.com
            error_page 404 www/errors/404.html
            client_max_body_size 2048
            route / {
                root www/site
                index index.html
                methods GET POST
                directory_listing on
            }
            route /old {
                redirect /new
            }
        }";

fn texts(errors: &[ConfigError]) -> Vec<&str> {
    errors.iter().map(|error| error.0.as_str()).collect()
}

#[test]
fn parses_a_full_server_block() {
    let (servers, errors) = parse(GOOD);
    assert!(errors.is_empty(), "{errors:?}");
    assert_eq!(servers.len(), 1);
    let server = &servers[0];
    assert_eq!(server.ports, vec![8080, 8081]);
    assert_eq!(server.server_name.as_deref(), Some("example.com"));
    assert_eq!(server.max_body_size, 2048);
    assert_eq!(server.routes.len(), 2);
    assert!(server.routes[0].directory_listing);
    assert_eq!(server.routes[1].redirect.as_deref(), Some("/new"));
}

#[test]
fn duplicate_port_in_one_server_is_an_error() {
    let source = "server { port 8080 8080 route / { root www } }";
    let (servers, errors) = parse(source);
    assert!(servers.is_empty());
    assert!(errors[0].0.contains("configured twice"), "{errors:?}");
}

#[test]
fn broken_server_does_not_kill_the_valid_one() {
    let source = format!(
        "server {{ port 9999 route / {{ bad_directive x }} }}\n{GOOD}"
    );
    let (servers, errors) = parse(&source);
    assert_eq!(servers.len(), 1, "the valid server must survive");
    assert_eq!(errors.len(), 1);
}

#[test]
fn route_without_root_or_redirect_is_invalid() {
    let source = "server { port 8080 route / { methods GET } }";
    let (servers, errors) = parse(source);
    assert!(servers.is_empty());
    assert!(errors[0].0.contains("root or a redirect"));
}

#[test]
fn the_same_port_twice_across_servers_is_an_error() {
    let source = "
            server { port 8080 route / { root a } }
            server { port 8080 route / { root b } }";
    let (servers, errors) = parse(source);
    assert_eq!(servers.len(), 1, "only the first server may survive");
    assert!(errors[0].0.contains("already taken"), "{errors:?}");
}

#[test]
fn the_same_port_with_different_server_names_is_allowed() {
    let source = "
            server { port 8080 server_name a.com route / { root a } }
            server { port 8080 server_name b.com route / { root b } }";
    let (servers, errors) = parse(source);
    assert_eq!(servers.len(), 2, "virtual hosts may share a port");
    assert!(errors.is_empty(), "{errors:?}");
}

#[test]
fn head_is_allowed_wherever_get_is() {
    let (servers, _) = parse("server { port 1 route / { root a methods GET } }");
    let route = &servers[0].routes[0];
    assert!(route.allows("HEAD"));
    assert!(!route.allows("DELETE"));
}

#[test]
fn longest_route_prefix_wins() {
    let (servers, _) = parse(
        "server { port 1 route / { root a } route /files { root b } }",
    );
    let server = &servers[0];
    assert_eq!(server.route_for("/files/x.txt").unwrap().root.as_deref(), Some("b"));
    assert_eq!(server.route_for("/other").unwrap().root.as_deref(), Some("a"));
    assert_eq!(server.route_for("/filesystem").unwrap().root.as_deref(), Some("a"));
}

#[test]
fn every_field_is_read() {
    let (servers, errors) = parse(GOOD);
    assert!(errors.is_empty());
    let server = &servers[0];
    assert_eq!(server.host, "127.0.0.1");
    assert_eq!(server.error_pages.len(), 1);
    assert_eq!(
        server.error_pages.get(&404).map(String::as_str),
        Some("www/errors/404.html")
    );
    let site = &server.routes[0];
    assert_eq!(site.prefix, "/");
    assert_eq!(site.root.as_deref(), Some("www/site"));
    assert_eq!(site.index.as_deref(), Some("index.html"));
    assert_eq!(site.methods, vec!["GET", "POST"]);
    assert_eq!(site.redirect, None);
    assert!(!site.upload);
    let old = &server.routes[1];
    assert_eq!(old.prefix, "/old");
    assert_eq!(old.root, None);
    assert_eq!(old.methods, vec!["GET", "POST", "DELETE"]);
    assert!(!old.directory_listing);
}

#[test]
fn what_is_not_said_has_a_default() {
    let (servers, errors) = parse("server { port 80 route / { root . } }");
    assert!(errors.is_empty(), "{errors:?}");
    assert_eq!(servers[0].host, "127.0.0.1");
    assert_eq!(servers[0].max_body_size, 1_048_576);
    assert_eq!(servers[0].server_name, None);
    assert!(servers[0].error_pages.is_empty());
}

#[test]
fn comments_and_glued_braces_are_tolerated() {
    let source = "# a comment\nserver { # another\r\n port 80\n route /x{\nroot a}}\n#server {";
    let (servers, errors) = parse(source);
    assert!(errors.is_empty(), "{errors:?}");
    assert_eq!(servers[0].routes[0].prefix, "/x");
    assert_eq!(servers[0].routes[0].root.as_deref(), Some("a"));
    let (servers, errors) = parse("server {port 80 route /y {root b{c}d}}");
    assert!(errors.is_empty(), "{errors:?}");
    assert_eq!(servers[0].routes[0].root.as_deref(), Some("b{c}d"));
}

#[test]
fn cgi_and_switches_are_read() {
    let source = "server { port 80 route / { root a cgi .py python3 cgi .sh sh cgi .py pypy \
        upload on directory_listing off methods get Head put } }";
    let (servers, errors) = parse(source);
    assert!(errors.is_empty(), "{errors:?}");
    let route = &servers[0].routes[0];
    assert_eq!(route.cgi.get(".py").map(String::as_str), Some("pypy"));
    assert_eq!(route.cgi.get(".sh").map(String::as_str), Some("sh"));
    assert_eq!(route.cgi.get(".rb"), None);
    assert!(route.upload);
    assert!(!route.directory_listing);
    assert_eq!(route.methods, vec!["GET", "HEAD", "PUT"]);
}

#[test]
fn every_error_says_what_is_wrong() {
    let errors: Vec<(&str, &str)> = vec![
        ("junk", "expected 'server', found 'junk'"),
        ("server", "expected '{', found ''"),
        ("server x", "expected '{', found 'x'"),
        ("server {", "unexpected end of file in server block"),
        ("server { host", "missing value for 'host'"),
        ("server { host }", "missing value for 'host'"),
        ("server { server_name {", "missing value for 'server_name'"),
        ("server { port }", "port expects at least one number"),
        ("server { port 65536 }", "port expects at least one number"),
        ("server { port 7 8 7 }", "port 7 is configured twice in the same server"),
        ("server { error_page x y }", "error_page expects a status code"),
        ("server { error_page 404 }", "missing value for 'error_page'"),
        (
            "server { client_max_body_size big }",
            "client_max_body_size expects a number of bytes",
        ),
        ("server { colour red }", "unknown server directive 'colour'"),
        ("server { route", "missing value for 'route'"),
        ("server { route x {", "route prefix 'x' must start with '/'"),
        ("server { route / root", "expected '{', found 'root'"),
        ("server { route / {", "unexpected end of file in route block"),
        ("server { route / { root }", "missing value for 'root'"),
        ("server { route / { methods }", "methods expects at least one method"),
        ("server { route / { methods PATCH }", "methods expects at least one method"),
        ("server { route / { cgi .py }", "missing value for 'cgi'"),
        ("server { route / { cgi py python3 }", "cgi extension must start with '.'"),
        ("server { route / { upload }", "missing value for 'upload'"),
        ("server { route / { size 3 }", "unknown route directive 'size'"),
        ("server { route / { root a } }", "server has no port"),
        ("server { port 1 }", "server has no route"),
        (
            "server { port 1 route /a { root a } route /b { } }",
            "route '/b' needs either a root or a redirect",
        ),
    ];
    for (source, why) in errors {
        let (servers, found) = parse(source);
        assert!(servers.is_empty(), "{source}");
        assert_eq!(texts(&found)[0], why, "{source}");
    }
}

#[test]
fn a_clash_names_the_address_and_the_server() {
    let source = "
        server { host H port 1 2 server_name A.com route / { root a } }
        server { host h port 3 2 server_name a.COM route / { root b } }
        server { host h port 3 route / { root c } }
        server { host h port 3 route / { root d } }";
    let (servers, errors) = parse(source);
    assert_eq!(servers.len(), 2);
    assert_eq!(
        texts(&errors),
        vec![
            "h:2 is already taken by server_name 'a.COM'; a host:port may only be repeated \
             with a different server_name",
            "h:3 is already taken by server_name '<default>'; a host:port may only be repeated \
             with a different server_name",
        ]
    );
}

#[test]
fn recovery_goes_on_at_the_next_server() {
    let source = "
        server { port 1 route / { root } } server { port 2 route / { root b } }
        stray
        server { port } }
        server { port 3 route / { root c } }";
    let (servers, errors) = parse(source);
    let ports: Vec<u16> = servers.iter().map(|server| server.ports[0]).collect();
    assert_eq!(ports, vec![2, 3]);
    assert_eq!(
        texts(&errors),
        vec![
            "missing value for 'root'",
            "expected 'server', found 'stray'",
            "port expects at least one number",
        ]
    );
}

#[test]
fn accepted_servers_are_sound() {
    let sources = [
        GOOD,
        "server { port 1 1 } server { port 1 route / { redirect /x } } server { port 1 }",
        "server server { port 4 port 5 route /a { root b } route /c { } }",
        "} { server { port 9 route / { root a cgi .x y } } }",
    ];
    for source in sources {
        for server in parse(source).0 {
            assert!(!server.ports.is_empty());
            for (i, port) in server.ports.iter().enumerate() {
                assert!(!server.ports[..i].contains(port));
            }
            assert!(!server.routes.is_empty());
            for route in &server.routes {
                assert!(route.prefix.starts_with('/'));
                assert!(route.root.is_some() || route.redirect.is_some());
                assert!(!route.methods.is_empty());
            }
        }
    }
}

#[test]
fn routes_match_whole_segments() {
    let (servers, _) = parse(
        "server { port 1 route /a { root 1 } route /a/b { root 2 } route /a { root 3 } \
         route /\u{e9} { root 4 } }",
    );
    let server = &servers[0];
    let root = |path: &str| server.route_for(path).map(|route| route.root.clone().unwrap());
    assert_eq!(root("/a").as_deref(), Some("3"));
    assert_eq!(root("/a/x").as_deref(), Some("3"));
    assert_eq!(root("/a/b").as_deref(), Some("2"));
    assert_eq!(root("/a/b/").as_deref(), Some("2"));
    assert_eq!(root("/a/bc").as_deref(), Some("3"));
    assert_eq!(root("/\u{e9}/x").as_deref(), Some("4"));
    assert_eq!(root("/ab"), None);
    assert_eq!(root("/"), None);
    assert_eq!(root(""), None);
}

#[test]
fn only_listed_methods_are_allowed() {
    let (servers, _) = parse(
        "server { port 1 route / { root a methods HEAD } route /b { root a methods POST } }",
    );
    let head_only = &servers[0].routes[0];
    assert!(head_only.allows("HEAD"));
    assert!(!head_only.allows("GET"));
    let post_only = &servers[0].routes[1];
    assert!(post_only.allows("POST"));
    assert!(!post_only.allows("HEAD"));
    assert!(!post_only.allows("post"));
}

#[test]
fn five_methods_are_known() {
    for name in ["GET", "POST", "DELETE", "PUT", "HEAD"] {
        assert!(known_method(name), "{name}");
    }
    for name in ["get", "PATCH", "", "GETS"] {
        assert!(!known_method(name), "{name}");
    }
}

#[test]
fn layout_and_comments_do_not_matter() {
    let spread = "# a site
        server { # the only one
            port 8080 8081
            error_page 404 lost.html # and found
            client_max_body_size 7
            route /files { methods get PUT cgi .py python3
                root www directory_listing on upload off }
            route /old { redirect /new }
        }";
    let words: Vec<&str> = spread
        .lines()
        .flat_map(|line| line.split('#').next().unwrap_or("").split_whitespace())
        .collect();
    let (servers, errors) = parse(&words.join("\n"));
    assert_eq!(format!("{:?}", parse(spread)), format!("{:?}", (&servers, &errors)));
    assert!(errors.is_empty());
    let server = &servers[0];
    assert_eq!(server.host, "127.0.0.1");
    assert_eq!(server.ports, vec![8080, 8081]);
    assert_eq!(server.max_body_size, 7);
    let files = &server.routes[0];
    assert_eq!(files.prefix, "/files");
    assert_eq!(files.methods, vec!["GET", "PUT"]);
    assert_eq!(files.root.as_deref(), Some("www"));
    assert!(files.directory_listing && !files.upload);
    assert_eq!(files.cgi.get(".py").map(|program| program.as_str()), Some("python3"));
    assert_eq!(server.routes[1].redirect.as_deref(), Some("/new"));
}

#[test]
fn a_block_without_its_end_leaves_the_next_one_alone() {
    let second = "server { port 2 route / { root b } }";
    let broken = [
        ("server { port 1 route / { root a }", "unknown server directive 'server'"),
        ("server { port 1 route / { root a", "unknown route directive 'server'"),
        ("server { port 1 route / { root", "missing value for 'root'"),
        ("server { port 1 route", "missing value for 'route'"),
        ("server { port 1 route / { cgi .py", "missing value for 'cgi'"),
        ("server { error_page 404", "missing value for 'error_page'"),
        ("server { port 1", "unknown server directive 'server'"),
        ("server {", "unknown server directive 'server'"),
        ("server", "expected '{', found 'server'"),
    ];
    for (first, why) in broken {
        let (servers, errors) = parse(&format!("{first}\n{second}"));
        assert_eq!(servers.len(), 1, "{first}");
        assert_eq!(servers[0].ports, vec![2], "{first}");
        let messages: Vec<String> = errors.iter().map(|error| error.message()).collect();
        assert_eq!(messages, vec![why], "{first}");
    }
    let (servers, errors) = parse("server { server_name server port 1 route / { root server } }");
    assert!(errors.is_empty());
    assert_eq!(servers[0].server_name.as_deref(), Some("server"));
    assert_eq!(servers[0].routes[0].root.as_deref(), Some("server"));
}
