use mini_http::headers::Headers;
use mini_http::http::Response;
use mini_http::router::{not_found, Route, Router};
use mini_http::tcpserver::{Action, Connection, Event, Server};

fn home() -> Response {
    let mut h = Headers::new();
    h.insert("Content-Length".to_string(), "4".to_string());
    Response::new("HTTP/1.1 200 OK\r\n".to_string(), h, b"home".to_vec())
}

fn icon() -> Response {
    let mut h = Headers::new();
    h.insert("Content-Length".to_string(), "2".to_string());
    Response::new("HTTP/1.1 200 OK\r\n".to_string(), h, vec![0x89, 0x50])
}

fn routes() -> Router<fn() -> Response> {
    Router::new(vec![
        Route::new("/".to_string(), home as fn() -> Response),
        Route::new("/home".to_string(), home as fn() -> Response),
        Route::new("/favicon.ico".to_string(), icon as fn() -> Response),
    ])
}

fn is_read(a: &Action, n: usize) -> bool {
    matches!(a, Action::Read(m) if *m == n)
}

fn is_close(a: &Action) -> bool {
    matches!(a, Action::Close)
}

fn written(a: Action) -> Vec<u8> {
    match a {
        Action::Write(w) => w,
        _ => panic!("nothing to write"),
    }
}

#[test]
fn a_server_keeps_address_and_table() {
    let s = Server::new("127.0.0.1:8080".to_string(), routes());
    assert_eq!(s.addr(), "127.0.0.1:8080");
    assert_eq!(s.router().len(), 3);
}

#[test]
fn a_connection_starts_by_reading_a_chunk() {
    let mut c = Connection::new();
    assert!(!c.is_closed());
    assert!(!c.is_end());
    assert!(is_read(&c.first_read(), 8192));
    c.set_buf_size(64);
    assert!(is_read(&c.first_read(), 64));
}

#[test]
fn a_registered_path_yields_its_handlers_response() {
    let r = routes();
    let mut c = Connection::new();
    let a = c.step(&r, Event::Chunk(b"GET /home HTTP/1.1\r\nHost: x\r\n\r\n".to_vec()));
    let i = match a {
        Action::Invoke(i) => i,
        _ => panic!("no handler was chosen"),
    };
    assert_eq!(i, 1);
    let response = (r.handler(i))();
    let expected = response.as_bytes();
    let a = c.step(&r, Event::Handled(response));
    assert_eq!(written(a), expected);
    assert_eq!(expected, b"HTTP/1.1 200 OK\r\nContent-Length: 4\r\n\r\nhome".to_vec());
    let a = c.step(&r, Event::Written);
    assert!(is_read(&a, 8192));
    assert!(!c.is_closed());
}

#[test]
fn an_unknown_path_yields_the_fixed_answer() {
    let r = routes();
    let mut c = Connection::new();
    let a = c.step(&r, Event::Chunk(b"GET /nope HTTP/1.1\r\nHost: x\r\n\r\n".to_vec()));
    assert_eq!(
        written(a),
        b"HTTP/1.1 404 NOT-FOUND\r\nContent-Length: 38\r\n\r\n<html><div>Page Not Found</div></html>".to_vec()
    );
    let a = c.step(&r, Event::Written);
    assert!(is_read(&a, 8192));
}

#[test]
fn a_read_without_bytes_ends_the_connection() {
    let r = routes();
    let mut c = Connection::new();
    let a = c.step(&r, Event::Chunk(vec![]));
    assert!(is_close(&a));
    assert!(c.is_closed());
    assert!(c.is_end());
    let a = c.step(&r, Event::Chunk(b"GET / HTTP/1.1\r\n\r\n".to_vec()));
    assert!(is_close(&a));
    assert!(c.is_closed());
}

#[test]
fn a_body_is_awaited_then_dispatched() {
    let r = routes();
    let mut c = Connection::new();
    let a = c.step(&r, Event::Chunk(b"POST / HTTP/1.1\r\nContent-Length: 6\r\n\r\nab".to_vec()));
    assert!(matches!(a, Action::ReadExact(4)));
    let a = c.step(&r, Event::Body(b"cdef".to_vec()));
    assert!(matches!(a, Action::Invoke(0)));
    let a = c.step(&r, Event::Handled(icon()));
    assert_eq!(written(a), icon().as_bytes());
}

#[test]
fn a_short_body_closes_without_an_answer() {
    let r = routes();
    let mut c = Connection::new();
    let a = c.step(&r, Event::Chunk(b"POST / HTTP/1.1\r\nContent-Length: 6\r\n\r\nab".to_vec()));
    assert!(matches!(a, Action::ReadExact(4)));
    let a = c.step(&r, Event::Body(b"cd".to_vec()));
    assert!(is_close(&a));
    assert!(c.is_closed());
    assert!(!c.is_end());
}

#[test]
fn a_malformed_request_closes_without_an_answer() {
    let r = routes();
    for bytes in [
        b"GET /home\r\n\r\n".to_vec(),
        b"GET /home HTTP/1.1\r\nHost x\r\n\r\n".to_vec(),
        b"GET /home HTTP/1.1\r\nHost: x\r\n".to_vec(),
        b"GET /home HTTP/1.1\r\nHost: \xFF\r\n\r\n".to_vec(),
    ] {
        let mut c = Connection::new();
        let a = c.step(&r, Event::Chunk(bytes));
        assert!(is_close(&a));
        assert!(c.is_closed());
    }
}

#[test]
fn a_transport_failure_closes_in_every_phase() {
    let r = routes();
    let mut c = Connection::new();
    assert!(is_close(&c.step(&r, Event::Failed)));
    assert!(c.is_closed());

    let mut c = Connection::new();
    let _ = c.step(&r, Event::Chunk(b"POST / HTTP/1.1\r\nContent-Length: 6\r\n\r\n".to_vec()));
    assert!(is_close(&c.step(&r, Event::Failed)));

    let mut c = Connection::new();
    let _ = c.step(&r, Event::Chunk(b"GET / HTTP/1.1\r\n\r\n".to_vec()));
    let _ = c.step(&r, Event::Handled(home()));
    assert!(is_close(&c.step(&r, Event::Failed)));
    assert!(c.is_closed());
}

#[test]
fn an_event_out_of_turn_closes() {
    let r = routes();
    let mut c = Connection::new();
    assert!(is_close(&c.step(&r, Event::Written)));
    let mut c = Connection::new();
    assert!(is_close(&c.step(&r, Event::Handled(not_found()))));
    let mut c = Connection::new();
    assert!(is_close(&c.step(&r, Event::Body(vec![1]))));
    let mut c = Connection::new();
    let _ = c.step(&r, Event::Chunk(b"GET / HTTP/1.1\r\n\r\n".to_vec()));
    assert!(is_close(&c.step(&r, Event::Chunk(b"GET / HTTP/1.1\r\n\r\n".to_vec()))));
}

#[test]
fn requests_on_one_connection_are_served_in_turn() {
    let r = routes();
    let mut c = Connection::new();
    c.set_buf_size(1024);
    for path in ["/", "/favicon.ico", "/missing", "/home"] {
        let text = format!("GET {} HTTP/1.1\r\nHost: x\r\n\r\n", path);
        let a = match c.step(&r, Event::Chunk(text.into_bytes())) {
            Action::Invoke(i) => c.step(&r, Event::Handled((r.handler(i))())),
            other => other,
        };
        assert!(!written(a).is_empty());
        assert!(is_read(&c.step(&r, Event::Written), 1024));
    }
}
