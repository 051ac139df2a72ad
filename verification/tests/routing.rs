use std::collections::HashMap;

use localserver::config::{Config, RouteConfig, ServerConfig};
use localserver::router::Router;

fn strings(items: &[&str]) -> Vec<String> {
    items.iter().map(|s| s.to_string()).collect()
}

fn server_config(ports: Vec<u16>) -> ServerConfig {
    let mut error_pages = HashMap::new();
    error_pages.insert(404u16, "error_pages/404.html".to_string());
    error_pages.insert(500u16, "error_pages/500.html".to_string());
    ServerConfig {
        host: "127.0.0.1".to_string(),
        ports,
        client_max_body_size: 1048576,
        error_pages,
    }
}

fn route(path: &str, root: &str, methods: &[&str], default_file: Option<&str>, cgi: Option<&[&str]>) -> RouteConfig {
    RouteConfig {
        path: path.to_string(),
        root: Some(root.to_string()),
        methods: Some(strings(methods)),
        default_file: default_file.map(|s| s.to_string()),
        directory_listing: false,
        cgi_extensions: cgi.map(strings),
        redirect: None,
    }
}

fn yaml_str(v: &serde_yaml::Value, key: &str) -> Option<String> {
    v.get(key).and_then(|x| x.as_str()).map(|s| s.to_string())
}

fn yaml_strings(v: &serde_yaml::Value, key: &str) -> Option<Vec<String>> {
    v.get(key).and_then(|x| x.as_sequence()).map(|seq| {
        seq.iter().filter_map(|x| x.as_str().map(|s| s.to_string())).collect()
    })
}

fn config_from_yaml(text: &str) -> Config {
    let doc: serde_yaml::Value = serde_yaml::from_str(text).expect("Failed to parse config yaml");
    let server = doc.get("server").expect("server");
    let mut error_pages = HashMap::new();
    if let Some(pages) = server.get("error_pages").and_then(|p| p.as_mapping()) {
        for (k, v) in pages {
            error_pages.insert(k.as_u64().unwrap() as u16, v.as_str().unwrap().to_string());
        }
    }
    let server = ServerConfig {
        host: yaml_str(server, "host").unwrap(),
        ports: server
            .get("ports")
            .and_then(|p| p.as_sequence())
            .unwrap()
            .iter()
            .map(|p| p.as_u64().unwrap() as u16)
            .collect(),
        client_max_body_size: server.get("client_max_body_size").and_then(|x| x.as_u64()).unwrap() as usize,
        error_pages,
    };
    let routes = doc
        .get("routes")
        .and_then(|r| r.as_sequence())
        .unwrap()
        .iter()
        .map(|r| RouteConfig {
            path: yaml_str(r, "path").unwrap(),
            root: yaml_str(r, "root"),
            methods: yaml_strings(r, "methods"),
            default_file: yaml_str(r, "default_file"),
            directory_listing: r.get("directory_listing").and_then(|x| x.as_bool()).unwrap(),
            cgi_extensions: yaml_strings(r, "cgi_extensions"),
            redirect: yaml_str(r, "redirect"),
        })
        .collect();
    Config { server, routes }
}

#[test]
fn test_config_parsing() {
    let yaml_data = "
server:
  host: \"127.0.0.1\"
  ports: [8080, 8081]
  client_max_body_size: 1048576
  error_pages:
    404: \"error_pages/404.html\"
    500: \"error_pages/500.html\"
routes:
  - path: \"/\"
    root: \"./public\"
    methods: [\"GET\"]
    default_file: \"index.html\"
    directory_listing: false
";
    let config: Config = config_from_yaml(yaml_data);
    assert_eq!(config.server.host, "127.0.0.1");
    assert_eq!(config.server.ports, vec![8080, 8081]);
    assert_eq!(config.server.client_max_body_size, 1048576);
}

#[test]
fn test_route_matching() {
    let yaml_data = "
server:
  host: \"127.0.0.1\"
  ports: [8080]
  client_max_body_size: 1048576
  error_pages:
    404: \"error_pages/404.html\"
    500: \"error_pages/500.html\"
routes:
  - path: \"/\"
    root: \"./public\"
    methods: [\"GET\", \"DELETE\"]
    default_file: \"index.html\"
    directory_listing: false
  - path: \"/cgi-bin\"
    root: \"./cgi-bin\"
    methods: [\"GET\", \"POST\"]
    directory_listing: false
    cgi_extensions: [\".py\"]
";
    let config: Config = config_from_yaml(yaml_data);
    let router = Router::new(config);

    // Verify correct route match
    let matched = router.match_route("/");
    assert!(matched.is_some());

    let matched_cgi = router.match_route("/cgi-bin/script.py");
    assert!(matched_cgi.is_some());

    // Verify fallback route behavior for unmatched paths
    let fallback = router.match_route("/nonexistent");
    assert!(fallback.is_some());
    assert_eq!(fallback.unwrap().path, "/");
}

fn sample_config() -> Config {
    Config {
        server: server_config(vec![8080]),
        routes: vec![
            route("/", "./public", &["GET", "DELETE"], Some("index.html"), None),
            route("/cgi-bin", "./cgi-bin", &["GET", "POST"], None, Some(&[".py"])),
        ],
    }
}

#[test]
fn longest_prefix_wins() {
    let router = Router::new(sample_config());
    assert_eq!(router.match_route("/cgi-bin/script.py").unwrap().path, "/cgi-bin");
    assert_eq!(router.match_route("/cgi-binary").unwrap().path, "/cgi-bin");
    assert_eq!(router.match_route("/index.html").unwrap().path, "/");
}

#[test]
fn no_route_without_a_matching_prefix() {
    let config = Config {
        server: server_config(vec![8080]),
        routes: vec![route("/api", "./api", &["GET"], None, None)],
    };
    let router = Router::new(config);
    assert!(router.match_route("/other").is_none());
    assert!(router.match_route("api").is_none());
}

#[test]
fn last_of_equal_routes_wins() {
    let config = Config {
        server: server_config(vec![8080]),
        routes: vec![
            route("/a", "./first", &["GET"], None, None),
            route("/a", "./second", &["GET"], None, None),
        ],
    };
    let router = Router::new(config);
    assert_eq!(router.match_route("/a/b").unwrap().root.as_deref(), Some("./second"));
}

#[test]
fn methods_match_without_regard_to_case() {
    let router = Router::new(sample_config());
    let r = router.match_route("/").unwrap();
    assert!(router.is_method_allowed(r, "get"));
    assert!(router.is_method_allowed(r, "Delete"));
    assert!(!router.is_method_allowed(r, "POST"));
    let mut open = route("/", "./public", &[], None, None);
    open.methods = None;
    assert!(!router.is_method_allowed(&open, "GET"));
}

#[test]
fn file_paths_resolve_under_the_root() {
    let router = Router::new(sample_config());
    let root = router.match_route("/").unwrap();
    assert_eq!(router.resolve_file_path(root, "/"), "./public/index.html");
    assert_eq!(router.resolve_file_path(root, "/index.html"), "./public/index.html");
    assert_eq!(router.resolve_file_path(root, "/a/b.txt"), "./public/a/b.txt");
    let cgi = router.match_route("/cgi-bin/x.py").unwrap();
    assert_eq!(router.resolve_file_path(cgi, "/cgi-bin/x.py"), "./cgi-bin/x.py");
    assert_eq!(router.resolve_file_path(cgi, "/cgi-bin"), "./cgi-bin");
    assert_eq!(router.resolve_file_path(cgi, "/cgi-bin/"), "./cgi-bin");
}

#[test]
fn file_paths_follow_path_joining() {
    let router = Router::new(sample_config());
    let mut r = route("/docs", "/srv/", &["GET"], None, None);
    assert_eq!(router.resolve_file_path(&r, "/docs/x"), "/srv/x");
    assert_eq!(router.resolve_file_path(&r, "/docs//etc/passwd"), "/etc/passwd");
    r.root = None;
    assert_eq!(router.resolve_file_path(&r, "/docs/x"), "./public/x");
    assert_eq!(router.resolve_file_path(&r, "/elsewhere"), "./public/elsewhere");
}

#[test]
fn cgi_requests_go_by_extension() {
    let router = Router::new(sample_config());
    let cgi = router.match_route("/cgi-bin/x.py").unwrap();
    assert!(router.is_cgi_request(cgi, "./cgi-bin/x.py"));
    assert!(!router.is_cgi_request(cgi, "./cgi-bin/x.sh"));
    assert!(!router.is_cgi_request(cgi, "./cgi-bin/.py"));
    assert!(!router.is_cgi_request(cgi, "./cgi-bin/x"));
    assert!(router.is_cgi_request(cgi, "./cgi-bin/a.b.py"));
    let root = router.match_route("/").unwrap();
    assert!(!router.is_cgi_request(root, "./public/x.py"));
}

#[test]
fn redirection_is_read_from_the_route() {
    let router = Router::new(sample_config());
    let mut r = route("/old", "./public", &["GET"], None, None);
    assert!(router.get_redirection(&r).is_none());
    r.redirect = Some("/new".to_string());
    assert_eq!(router.get_redirection(&r).map(|s| s.as_str()), Some("/new"));
}
