use sysadmin::monitor_server::response::Response;
use sysadmin::monitor_server::server::{
    is_absolute, mime_type, request_text_is_readable, web_file_path, Action, Server,
};

#[test]
fn response_message_has_status_headers_and_body() {
    let mut res = Response::new();
    res.header("Content-Type", "application/json").body("{}");
    assert_eq!(res.http_status, 200);
    assert_eq!(res.message(), "HTTP/1.1 200 \r\nContent-Type: application/json\r\n\r\n{}");
}

#[test]
fn response_without_headers_or_body() {
    assert_eq!(Response::new().message(), "HTTP/1.1 0 \r\n\r\n\r\n");
}

#[test]
fn response_body_keeps_a_status_already_set() {
    let mut res = Response::new();
    res.status(404).body("missing");
    assert_eq!(res.http_status, 404);
    assert_eq!(res.body, "missing");
}

#[test]
fn response_header_set_again_replaces_the_value() {
    let mut res = Response::new();
    res.header("A", "1").header("B", "2").header("A", "3");
    assert_eq!(res.message(), "HTTP/1.1 0 \r\nA: 3\r\nB: 2\r\n\r\n");
}

#[test]
fn server_routes_and_address() {
    let mut server: Server<u32> = Server::new(8888);
    assert_eq!(server.address(), "127.0.0.1:8888");
    server.route("/sar", 1);
    server.route("/journal", 2);
    server.route("/sar", 3);
    assert_eq!(server.routes.len(), 2);
    assert_eq!(server.handler_for("/sar"), Some(0));
    assert_eq!(server.routes[0].1, 3);
    assert_eq!(server.handler_for("/journal"), Some(1));
    assert_eq!(server.handler_for("/other"), None);
}

#[test]
fn server_reads_request_text() {
    let server: Server<u32> = Server::new(8888);
    let req = server.to_request("GET /sar HTTP/1.1\r\nHost: localhost\r\nAccept: */*\r\n\r\nignored: yes\0\0\0");
    assert_eq!(req.method, "GET");
    assert_eq!(req.path, "/sar");
    assert_eq!(
        req.headers,
        vec![
            ("Host".to_string(), "localhost".to_string()),
            ("Accept".to_string(), "*/*".to_string()),
        ]
    );
}

#[test]
fn server_refuses_unreadable_request_text() {
    assert!(!request_text_is_readable(""));
    assert!(!request_text_is_readable("   \r\n"));
    assert!(!request_text_is_readable("GET"));
    assert!(!request_text_is_readable(" /x HTTP/1.1"));
    assert!(!request_text_is_readable("GET  HTTP/1.1"));
    assert!(request_text_is_readable("GET /x"));
}

#[test]
fn server_maps_paths_to_web_files() {
    assert!(is_absolute("/a"));
    assert!(!is_absolute("a/b"));
    assert_eq!(web_file_path("/"), "./web/index.html");
    assert_eq!(web_file_path("/docs/"), "./web/docs/index.html");
    assert_eq!(web_file_path("/style.css"), "./web/style.css");
    assert_eq!(mime_type("html").as_deref(), Some("text/html"));
    assert_eq!(mime_type("css").as_deref(), Some("text/css"));
    assert_eq!(mime_type("js").as_deref(), Some("text/javascript"));
    assert_eq!(mime_type("png"), None);
}

#[test]
fn server_checked_request_reading() {
    let server: Server<u32> = Server::new(1);
    assert!(server.try_to_request("GET").is_none());
    let req = server.try_to_request("POST /x HTTP/1.1\nA: b: c\nnocolon\n\nB: d").unwrap();
    assert_eq!((req.method.as_str(), req.path.as_str()), ("POST", "/x"));
    assert_eq!(req.headers, vec![("A".to_string(), "b: c".to_string())]);
}

#[test]
fn server_plans_routes_files_and_refusals() {
    let mut server: Server<u8> = Server::new(8888);
    server.route("/sar", 1);
    server.route("/journal", 2);
    assert!(matches!(server.plan("/journal"), Action::Handle { route: 1 }));
    assert!(matches!(server.plan("/sar"), Action::Handle { route: 0 }));
    assert!(matches!(server.plan("sar"), Action::RefuseRelative));
    match server.plan("/css/") {
        Action::ServeFile { file } => assert_eq!(file, "./web/css/index.html"),
        _ => panic!("a file was expected"),
    }
}
