use mini_http::headers::Headers;
use mini_http::http::{Request, Response};
use mini_http::router::{not_found, Dispatch, Route, Router};

fn table() -> Router<u32> {
    Router::new(vec![
        Route::new("/".to_string(), 10),
        Route::new("/home".to_string(), 20),
        Route::new("/favicon.ico".to_string(), 30),
        Route::new("/home".to_string(), 40),
    ])
}

fn index_of(d: Dispatch) -> Option<usize> {
    match d {
        Dispatch::Handler(i) => Some(i),
        Dispatch::Reply(_) => None,
    }
}

fn reply_of(d: Dispatch) -> Response {
    match d {
        Dispatch::Handler(_) => panic!("a route answered"),
        Dispatch::Reply(r) => r,
    }
}

fn request_for(path: &str) -> Request {
    Request::new(
        vec!["GET".to_string(), path.to_string(), "HTTP/1.1".to_string()],
        Headers::new(),
        vec![],
    )
}

#[test]
fn a_route_keeps_path_and_handler() {
    let r = Route::new("/x".to_string(), 7u8);
    assert_eq!(r.path(), "/x");
    assert_eq!(*r.handler(), 7);
}

#[test]
fn a_path_is_answered_by_its_route() {
    let t = table();
    assert_eq!(t.len(), 4);
    assert_eq!(index_of(t.route("/")), Some(0));
    assert_eq!(index_of(t.route("/favicon.ico")), Some(2));
    assert_eq!(*t.handler(2), 30);
}

#[test]
fn the_first_registration_of_a_path_wins() {
    let t = table();
    for _ in 0..3 {
        assert_eq!(index_of(t.route("/home")), Some(1));
    }
    assert_eq!(*t.handler(1), 20);
}

#[test]
fn paths_are_matched_exactly() {
    let t = table();
    for path in ["/home/", "/Home", "/home?x=1", "home", " /home", "/hom", "", "/favicon"] {
        assert_eq!(index_of(t.route(path)), None);
    }
}

#[test]
fn an_unmatched_path_gets_the_fixed_answer() {
    let r = reply_of(table().route("/nope"));
    assert_eq!(r.status_line(), "HTTP/1.1 404 NOT-FOUND\r\n");
    assert_eq!(r.body(), &b"<html><div>Page Not Found</div></html>".to_vec());
    assert_eq!(r.headers().len(), 1);
    assert_eq!(r.headers().get("Content-Length").map(|v| v.as_str()), Some("38"));
    assert_eq!(r.body().len(), 38);
}

#[test]
fn the_fixed_answer_on_the_wire() {
    assert_eq!(
        not_found().as_bytes(),
        b"HTTP/1.1 404 NOT-FOUND\r\nContent-Length: 38\r\n\r\n<html><div>Page Not Found</div></html>".to_vec()
    );
}

#[test]
fn an_empty_table_answers_nothing() {
    let t: Router<u32> = Router::new(vec![]);
    assert_eq!(t.len(), 0);
    let r = reply_of(t.route("/"));
    assert_eq!(r.status_line(), "HTTP/1.1 404 NOT-FOUND\r\n");
}

#[test]
fn create_response_routes_by_the_target() {
    let t = table();
    assert_eq!(index_of(t.create_response(&request_for("/home"))), Some(1));
    assert_eq!(index_of(t.create_response(&request_for("/"))), Some(0));
    let r = reply_of(t.create_response(&request_for("/nope")));
    assert_eq!(r.as_bytes(), not_found().as_bytes());
}

#[test]
fn create_response_ignores_the_method() {
    let t = table();
    let rq = Request::new(
        vec!["DELETE".to_string(), "/home".to_string(), "HTTP/1.0".to_string()],
        Headers::new(),
        vec![],
    );
    assert_eq!(index_of(t.create_response(&rq)), Some(1));
}

#[test]
fn a_request_without_target_gets_the_fixed_answer() {
    let t = table();
    let rq = Request::new(vec!["GET".to_string()], Headers::new(), vec![]);
    let r = reply_of(t.create_response(&rq));
    assert_eq!(r.as_bytes(), not_found().as_bytes());
    let rq = Request::new(vec![], Headers::new(), vec![]);
    let r = reply_of(t.create_response(&rq));
    assert_eq!(r.as_bytes(), not_found().as_bytes());
}
