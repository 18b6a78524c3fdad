//! Exact-path routing over a fixed, ordered table of routes.

use crate::headers::{Headers, Pair};
use crate::http::{Request, Response};
use crate::text::{decimal_string, numeral};
use vstd::prelude::*;
use vstd::slice::slice_to_vec;
use vstd::utf8::encode_utf8;

verus! {

/// A path with the handler that answers it. The table does not look into
/// a handler: whoever runs the server invokes it.
pub struct Route<H> {
    path: String,
    func: H,
}

impl<H> Route<H> {
    /// The path that the route answers.
    pub closed spec fn path_text(&self) -> Seq<char> {
        self.path@
    }

    /// The route's handler.
    pub closed spec fn handler_value(&self) -> H {
        self.func
    }

    /// A route from `path` to `func`.
    pub fn new(path: String, func: H) -> (r: Route<H>)
        ensures
            r.path_text() == path@,
            r.handler_value() == func,
    {
        Route { path, func }
    }

    /// The path that the route answers.
    pub fn path(&self) -> (r: &String)
        ensures
            r@ == self.path_text(),
    {
        &self.path
    }

    /// The route's handler.
    pub fn handler(&self) -> (r: &H)
        ensures
            *r == self.handler_value(),
    {
        &self.func
    }
}

/// `i` is the first route whose path is `path`.
pub open spec fn is_first_match(paths: Seq<Seq<char>>, path: Seq<char>, i: int) -> bool {
    &&& 0 <= i < paths.len()
    &&& paths[i] == path
    &&& forall|j: int| 0 <= j < i ==> paths[j] != path
}

/// No route has the path `path`.
pub open spec fn no_match(paths: Seq<Seq<char>>, path: Seq<char>) -> bool {
    forall|j: int| 0 <= j < paths.len() ==> paths[j] != path
}

/// The status line of the answer to a path that no route has.
pub open spec fn not_found_status() -> Seq<char> {
    "HTTP/1.1 404 NOT-FOUND\r\n"@
}

/// The body of the answer to a path that no route has.
pub open spec fn not_found_body() -> Seq<u8> {
    encode_utf8("<html><div>Page Not Found</div></html>"@)
}

/// The headers of the answer to a path that no route has: the length of
/// its body.
pub open spec fn not_found_headers() -> Seq<Pair> {
    seq![("Content-Length"@, numeral(not_found_body().len()))]
}

/// `r` is the answer to a path that no route has.
pub open spec fn is_not_found(r: Response) -> bool {
    &&& r.status() == not_found_status()
    &&& r.header_pairs() == not_found_headers()
    &&& r.body_bytes() == not_found_body()
}

/// What the table decides for a request.
pub enum Dispatch {
    /// The route at this index answers: its handler is to be invoked, and
    /// what it returns is the response.
    Handler(usize),
    /// No route answers: this is the response.
    Reply(Response),
}

/// The answer to a path that no route has.
pub fn not_found() -> (r: Response)
    ensures
        is_not_found(r),
{
    let body: Vec<u8> = slice_to_vec("<html><div>Page Not Found</div></html>".as_bytes());
    let mut headers = Headers::new();
    headers.insert("Content-Length".to_owned(), decimal_string(body.len()));
    proof {
        assert(headers.pairs() =~= not_found_headers());
    }
    Response::new("HTTP/1.1 404 NOT-FOUND\r\n".to_owned(), headers, body)
}

/// The route table, fixed once it is made.
pub struct Router<H> {
    routes: Vec<Route<H>>,
}

impl<H> Router<H> {
    /// The paths of the routes, in the order of their registration.
    pub closed spec fn paths(&self) -> Seq<Seq<char>> {
        self.routes@.map_values(|r: Route<H>| r.path_text())
    }

    /// The handlers of the routes, in the order of their registration.
    pub closed spec fn handlers(&self) -> Seq<H> {
        self.routes@.map_values(|r: Route<H>| r.handler_value())
    }

    /// A table of `routes`, in their order.
    pub fn new(routes: Vec<Route<H>>) -> (r: Router<H>)
        ensures
            r.paths() == routes@.map_values(|x: Route<H>| x.path_text()),
            r.handlers() == routes@.map_values(|x: Route<H>| x.handler_value()),
    {
        Router { routes }
    }

    /// The number of routes.
    pub fn len(&self) -> (n: usize)
        ensures
            n == self.paths().len(),
            n == self.handlers().len(),
    {
        self.routes.len()
    }

    /// The handler of the route at `i`.
    pub fn handler(&self, i: usize) -> (r: &H)
        requires
            i < self.paths().len(),
        ensures
            i < self.handlers().len(),
            *r == self.handlers()[i as int],
    {
        self.routes[i].handler()
    }

    /// Decides who answers a request: the first route whose path is the
    /// request's target, compared as it stands. A request without a target
    /// and a target that no route has get the fixed answer.
    pub fn create_response(&self, rq: &Request) -> (r: Dispatch)
        ensures
            match r {
                Dispatch::Handler(i) => rq.tokens().len() > 1 && is_first_match(
                    self.paths(),
                    rq.tokens()[1],
                    i as int,
                ),
                Dispatch::Reply(a) => is_not_found(a) && (rq.tokens().len() <= 1 || no_match(
                    self.paths(),
                    rq.tokens()[1],
                )),
            },
    {
        match rq.get_path() {
            Some(path) => self.route(path.as_str()),
            None => Dispatch::Reply(not_found()),
        }
    }

    /// Decides who answers a path: the first route that has exactly this
    /// path, and the fixed answer where there is none.
    pub fn route(&self, path: &str) -> (r: Dispatch)
        ensures
            match r {
                Dispatch::Handler(i) => is_first_match(self.paths(), path@, i as int),
                Dispatch::Reply(a) => is_not_found(a) && no_match(self.paths(), path@),
            },
    {
        let wanted: String = path.to_owned();
        let n: usize = self.routes.len();
        let mut i: usize = 0;
        while i < n
            invariant
                n == self.routes@.len(),
                i <= n,
                wanted@ == path@,
                forall|j: int| 0 <= j < i ==> self.paths()[j] != path@,
            decreases n - i,
        {
            if *self.routes[i].path() == wanted {
                return Dispatch::Handler(i);
            }
            i = i + 1;
        }
        Dispatch::Reply(not_found())
    }
}

/// Dispatch depends on the path alone: a path has at most one first
/// match, and none where no route has it.
pub proof fn law_dispatch_is_a_function(paths: Seq<Seq<char>>, path: Seq<char>, i: int, j: int)
    requires
        is_first_match(paths, path, i),
    ensures
        !no_match(paths, path),
        is_first_match(paths, path, j) ==> i == j,
{
}

/// Of two routes with one path the one registered first answers: the
/// later one is never the match, and the match is no later than the
/// earlier one.
pub proof fn law_first_registration_wins(
    paths: Seq<Seq<char>>,
    path: Seq<char>,
    a: int,
    b: int,
    i: int,
)
    requires
        0 <= a < b < paths.len(),
        paths[a] == path,
        paths[b] == path,
    ensures
        !is_first_match(paths, path, b),
        is_first_match(paths, path, i) ==> i <= a,
{
}

/// The fixed answer declares the length of its own body, which is 38
/// bytes long.
pub proof fn law_not_found_length(a: Response)
    requires
        is_not_found(a),
    ensures
        a.body_bytes().len() == 38,
        crate::headers::pairs_map(a.header_pairs()).contains_key("Content-Length"@),
        crate::http::declared_length(crate::headers::pairs_map(a.header_pairs()))
            == a.body_bytes().len(),
{
    let text = "<html><div>Page Not Found</div></html>"@;
    reveal_strlit("<html><div>Page Not Found</div></html>");
    assert(vstd::utf8::is_ascii_chars(text));
    vstd::utf8::is_ascii_chars_encode_utf8(text);
    assert(not_found_body().len() == 38);
    crate::text::lemma_numeral(38);
    let pairs = not_found_headers();
    assert(pairs.drop_last() =~= Seq::<Pair>::empty());
    assert(crate::headers::pairs_map(pairs.drop_last()) =~= Map::<Seq<char>, Seq<char>>::empty());
    assert(pairs.last() == ("Content-Length"@, numeral(38)));
    assert(crate::headers::pairs_map(pairs) =~= Map::<Seq<char>, Seq<char>>::empty().insert(
        "Content-Length"@,
        numeral(38),
    ));
}

} // verus!
