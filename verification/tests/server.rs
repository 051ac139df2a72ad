use std::collections::HashMap;

use localserver::config::{Config, RouteConfig, ServerConfig};
use localserver::connection::{timed_out_tokens, SizedBody};
use localserver::router::Router;
use localserver::server::{Action, BodyPlan, Server};
use vstd::hash_map::StringHashMap;

fn route(path: &str, root: &str, methods: &[&str], default_file: Option<&str>, cgi: Option<&[&str]>) -> RouteConfig {
    RouteConfig {
        path: path.to_string(),
        root: Some(root.to_string()),
        methods: Some(methods.iter().map(|s| s.to_string()).collect()),
        default_file: default_file.map(|s| s.to_string()),
        directory_listing: false,
        cgi_extensions: cgi.map(|c| c.iter().map(|s| s.to_string()).collect()),
        redirect: None,
    }
}

fn server() -> Server {
    Server::new(Config {
        server: ServerConfig {
            host: "127.0.0.1".to_string(),
            ports: vec![8080],
            client_max_body_size: 1024,
            error_pages: HashMap::new(),
        },
        routes: vec![
            route("/", "./public", &["GET", "DELETE"], Some("index.html"), None),
            route("/cgi-bin", "./cgi-bin", &["GET", "POST"], None, Some(&[".py", "sh"])),
        ],
    })
}

#[test]
fn new_server_keeps_its_configuration() {
    let s = server();
    assert_eq!(s.config().server.host, "127.0.0.1");
    assert_eq!(s.config().routes.len(), 2);
}

#[test]
fn static_files_are_served_and_deleted() {
    let mut s = server();
    match s.handle_request_at("GET /a.txt HTTP/1.1\r\n\r\n", 0, 1) {
        Action::Serve(p) => assert_eq!(p, "./public/a.txt"),
        _ => panic!("expected a file to serve"),
    }
    match s.handle_request_at("get / HTTP/1.1\r\n\r\n", 0, 1) {
        Action::Serve(p) => assert_eq!(p, "./public/index.html"),
        _ => panic!("expected a file to serve"),
    }
    match s.handle_request_at("delete /a.txt HTTP/1.1\r\n\r\n", 0, 1) {
        Action::Delete(p) => assert_eq!(p, "./public/a.txt"),
        _ => panic!("expected a deletion"),
    }
}

#[test]
fn refused_methods_and_unparsed_requests() {
    let mut s = server();
    match s.handle_request_at("POST /index.html HTTP/1.1\r\n\r\n", 0, 1) {
        Action::Error(code, msg) => {
            assert_eq!(code, 405);
            assert_eq!(msg, "Method Not Allowed");
        },
        _ => panic!("expected 405"),
    }
    assert!(matches!(s.handle_request_at("garbage", 0, 1), Action::Close));
}

#[test]
fn unmatched_targets_are_not_found() {
    let mut s = Server::new(Config {
        server: ServerConfig {
            host: "h".to_string(),
            ports: vec![],
            client_max_body_size: 0,
            error_pages: HashMap::new(),
        },
        routes: vec![route("/api", "./api", &["GET"], None, None)],
    });
    match s.handle_request_at("GET /x HTTP/1.1\r\n\r\n", 0, 1) {
        Action::Error(code, msg) => {
            assert_eq!(code, 404);
            assert_eq!(msg, "Not Found");
        },
        _ => panic!("expected 404"),
    }
}

#[test]
fn scripts_are_run_with_their_body_plan() {
    let mut s = server();
    match s.handle_request_at("POST /cgi-bin/run.py?a=1 HTTP/1.1\r\n\r\n", 0, 1) {
        Action::Serve(p) => assert_eq!(p, "./cgi-bin/run.py?a=1"),
        _ => panic!("a target with a query is resolved whole"),
    }
    match s.handle_request_at("GET /cgi-bin/run?x=.py HTTP/1.1\r\n\r\n", 0, 1) {
        Action::RunCgi(run) => assert_eq!(run.query_string.as_deref(), Some("x=.py")),
        _ => panic!("expected a script run"),
    }
    match s.handle_request_at("POST /cgi-bin/run.py HTTP/1.1\r\nContent-Length: 5\r\n\r\nhello", 0, 1) {
        Action::RunCgi(run) => {
            assert_eq!(run.script_path, "./cgi-bin/run.py");
            assert_eq!(run.query_string, None);
            match run.body {
                BodyPlan::Sized(start, len) => {
                    assert_eq!(start, "hello");
                    assert_eq!(len, 5);
                },
                _ => panic!("expected a sized body"),
            }
        },
        _ => panic!("expected a script run"),
    }
    let text = "POST /cgi-bin/run.sh HTTP/1.1\r\nTransfer-Encoding: chunked\r\n\r\n3\r\nabc\r\n0\r\n\r\n";
    match s.handle_request_at(text, 0, 1) {
        Action::RunCgi(run) => {
            assert_eq!(run.method, "POST");
            assert_eq!(run.query_string, None);
            match run.body {
                BodyPlan::Chunked(at) => assert_eq!(at, Some(text.find("\r\n\r\n").unwrap())),
                _ => panic!("expected a chunked body"),
            }
        },
        _ => panic!("expected a script run"),
    }
    match s.handle_request_at("GET /cgi-bin/run.py HTTP/1.1\r\nContent-Length: 5\r\n\r\nhello", 0, 1) {
        Action::RunCgi(run) => assert!(matches!(run.body, BodyPlan::Absent)),
        _ => panic!("expected a script run"),
    }
}

#[test]
fn login_then_profile_finds_the_session() {
    let mut s = server();
    let cookie = match s.handle_request_at("GET /login HTTP/1.1\r\n\r\n", 1_000, 0xabc) {
        Action::Respond(text) => {
            assert!(text.starts_with("HTTP/1.1 200 OK\r\nContent-Type: text/html\r\nSet-Cookie: session_id=abc; Path=/; HttpOnly; Max-Age=3600\r\n"));
            assert!(text.ends_with("Session Created & Cookie Set Successfully!</h1></body></html>"));
            "session_id=abc"
        },
        _ => panic!("expected a login answer"),
    };
    let request = format!("GET /profile HTTP/1.1\r\nCookie: {}\r\n\r\n", cookie);
    match s.handle_request_at(&request, 2_000, 0) {
        Action::Respond(text) => assert!(text.contains("Valid Session Found!")),
        _ => panic!("expected a profile answer"),
    }
    let late = 1_000 + 3600 * 1_000_000_000u128;
    match s.handle_request_at("GET /profile HTTP/1.1\r\nCookie: session_id=abc\r\n\r\n", 2_000 + 3600 * 1_000_000_000u128, 0) {
        Action::Respond(text) => assert!(text.contains("Unauthorized")),
        _ => panic!("expected a profile answer"),
    }
    assert!(late > 0);
    match s.handle_request_at("GET /profile HTTP/1.1\r\n\r\n", 0, 0) {
        Action::Respond(text) => assert!(text.contains("Unauthorized")),
        _ => panic!("expected a profile answer"),
    }
}

#[test]
fn session_routes_through_the_router() {
    let mut router = Router::new(Config {
        server: ServerConfig { host: String::new(), ports: vec![], client_max_body_size: 0, error_pages: HashMap::new() },
        routes: vec![],
    });
    let headers = StringHashMap::new();
    let (cookie, body) = router.handle_session_route("/login", &headers).unwrap();
    assert!(cookie.starts_with("Set-Cookie: session_id="));
    assert!(body.contains("Session Created"));
    let id = cookie["Set-Cookie: session_id=".len()..].split(';').next().unwrap().to_string();
    let mut headers = StringHashMap::new();
    headers.insert("Cookie".to_string(), format!("session_id={}", id));
    let (cookie, body) = router.handle_session_route("/profile", &headers).unwrap();
    assert_eq!(cookie, "");
    assert!(body.contains("Valid Session Found!"));
    assert!(router.handle_session_route("/other", &headers).is_none());
}

#[test]
fn idle_connections_time_out_after_five_seconds() {
    let idle = vec![(3usize, 5_000_000_000u128), (4, 5_000_000_001), (7, 0), (9, u128::MAX)];
    assert_eq!(timed_out_tokens(&idle), vec![4, 9]);
    assert!(timed_out_tokens(&Vec::new()).is_empty());
}

#[test]
fn sized_bodies_are_read_in_pieces_until_complete() {
    let mut body = SizedBody::new(b"ab".to_vec(), 20_000);
    assert_eq!(body.next_read(), Some(8192));
    body.on_read(&[1u8; 8192]);
    assert_eq!(body.next_read(), Some(8192));
    body.on_read(&[2u8; 8192]);
    assert_eq!(body.next_read(), Some(3614));
    body.on_read(&[3u8; 3614]);
    assert_eq!(body.next_read(), None);
    let all = body.into_body();
    assert_eq!(all.len(), 20_000);
    assert_eq!(&all[..3], &[b'a', b'b', 1]);
    assert_eq!(all[19_999], 3);

    let mut body = SizedBody::new(b"hello".to_vec(), 9);
    assert_eq!(body.next_read(), Some(4));
    body.on_read(b"wo");
    assert_eq!(body.next_read(), Some(2));
    body.on_read(b"");
    assert_eq!(body.next_read(), None);
    assert_eq!(body.into_body(), b"hellowo".to_vec());

    let mut body = SizedBody::new(b"x".to_vec(), 3);
    body.on_error();
    assert_eq!(body.next_read(), None);
    assert_eq!(body.into_body(), b"x".to_vec());

    let body = SizedBody::new(b"enough".to_vec(), 3);
    assert_eq!(body.next_read(), None);
}
