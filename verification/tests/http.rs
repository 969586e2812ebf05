use sysadmin::file_sharing::http::{
    file_response, HttpMethod, HttpRequest, HttpRequestTarget, Server, NOT_FOUND_STATUS_LINE,
    OK_STATUS_LINE,
};

fn lines(ls: &[&str]) -> Vec<String> {
    ls.iter().map(|l| l.to_string()).collect()
}

#[test]
fn http_methods_are_read_by_name() {
    assert_eq!(HttpMethod::parse("GET"), Some(HttpMethod::GET));
    assert_eq!(HttpMethod::parse("POST"), Some(HttpMethod::POST));
    assert_eq!(HttpMethod::parse("PUT"), Some(HttpMethod::PUT));
    assert_eq!(HttpMethod::from("DELETE"), HttpMethod::DELETE);
    assert_eq!(HttpMethod::parse("get"), None);
    assert_eq!(HttpMethod::parse("PATCH"), None);
}

#[test]
fn http_targets_split_at_the_question_mark() {
    let t = HttpRequestTarget::from("/a?x=1");
    assert_eq!((t.path.as_str(), t.query.as_str()), ("/a", "x=1"));
    let t = HttpRequestTarget::from("/a");
    assert_eq!((t.path.as_str(), t.query.as_str()), ("/a", ""));
    let t = HttpRequestTarget::from("/a?b?c");
    assert_eq!((t.path.as_str(), t.query.as_str()), ("", ""));
}

#[test]
fn http_requests_are_read_from_their_lines() {
    let req = HttpRequest::from(&lines(&[
        "GET /index.html?x=1 HTTP/1.1",
        "Host: example.com",
        "Content-Type: text/html",
        "host: other",
    ]));
    assert_eq!(req.method, HttpMethod::GET);
    assert_eq!(req.target.path, "/index.html");
    assert_eq!(req.target.query, "x=1");
    assert_eq!(
        req.headers,
        vec![
            ("host".to_string(), " other".to_string()),
            ("content-type".to_string(), " text/html".to_string()),
        ]
    );
}

#[test]
fn http_request_line_with_colon_gives_a_header() {
    let req = HttpRequest::from(&lines(&["GET http://x/ HTTP/1.1"]));
    assert_eq!(req.target.path, "http://x/");
    assert_eq!(req.headers, vec![("get http".to_string(), "//x/ HTTP/1.1".to_string())]);
}

#[test]
fn http_headers_stop_at_a_crlf_line() {
    let req = HttpRequest::from(&lines(&["PUT / HTTP/1.1", "A: 1", "\r\n", "B: 2"]));
    assert_eq!(req.headers, vec![("a".to_string(), " 1".to_string())]);
}

#[test]
fn http_unreadable_requests_are_refused() {
    assert!(HttpRequest::parse(&lines(&[])).is_none());
    assert!(HttpRequest::parse(&lines(&["GET"])).is_none());
    assert!(HttpRequest::parse(&lines(&["FETCH / HTTP/1.1"])).is_none());
    assert!(HttpRequest::parse(&lines(&["GET / HTTP/1.1", "é: v"])).is_none());
    assert!(HttpRequest::parse(&lines(&["GET / HTTP/1.1", "x: é"])).is_some());
}

#[test]
fn http_routes_pick_the_first_match() {
    let mut server: Server<u32> = Server::new(8080);
    server.add(HttpMethod::GET, "/", 1);
    server.add(HttpMethod::CatchAll, "/", 2);
    server.add(HttpMethod::GET, "/", 3);
    assert_eq!(server.port, 8080);
    assert_eq!(server.route(HttpMethod::GET, "/"), Some(0));
    assert_eq!(server.route(HttpMethod::CatchAll, "/"), Some(1));
    assert_eq!(server.route(HttpMethod::POST, "/"), None);
    assert_eq!(server.route(HttpMethod::GET, "/x"), None);
}

#[test]
fn http_file_responses_carry_the_byte_length() {
    assert_eq!(
        file_response(OK_STATUS_LINE, "héllo"),
        "HTTP/1.1 200 OK\r\nContent-Length: 6\r\n\r\nhéllo"
    );
    assert_eq!(
        file_response(NOT_FOUND_STATUS_LINE, ""),
        "HTTP/1.1 404 NOT FOUND\r\nContent-Length: 0\r\n\r\n"
    );
}

#[test]
fn http_requests_are_described_by_method_and_path() {
    assert_eq!(HttpMethod::CatchAll.label(), "CatchAll");
    assert_eq!(HttpMethod::DELETE.label(), format!("{:?}", HttpMethod::DELETE));
    let req = HttpRequest::from(&lines(&["POST /upload?x=1 HTTP/1.1"]));
    let d = req.describe();
    assert!(d == "POST /upload" || d == "\u{1b}[1mPOST\u{1b}[0m /upload", "{:?}", d);
}
