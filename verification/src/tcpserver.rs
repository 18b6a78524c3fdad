//! The server's configuration and the state machine of one connection.
//!
//! The machine decides; whoever owns the socket acts. Each `Action` names
//! one operation on the transport or one handler to invoke, and its
//! outcome comes back as the next `Event`.

use crate::http::{assemble, frame, wire, Head, Parser, Pending, Request, Response};
use crate::router::{is_first_match, is_not_found, no_match, Dispatch, Router};
use vstd::prelude::*;

verus! {

/// A listening address with the route table that every connection shares.
pub struct Server<H> {
    router: Router<H>,
    socket_addr: String,
}

impl<H> Server<H> {
    /// The address to listen on, as `host:port`.
    pub closed spec fn addr_text(&self) -> Seq<char> {
        self.socket_addr@
    }

    /// The route table.
    pub closed spec fn table(&self) -> Router<H> {
        self.router
    }

    /// A server for `addr` that answers with `router`.
    pub fn new(addr: String, router: Router<H>) -> (r: Server<H>)
        ensures
            r.addr_text() == addr@,
            r.table() == router,
    {
        Server { router, socket_addr: addr }
    }

    /// The address to listen on.
    pub fn addr(&self) -> (r: &String)
        ensures
            r@ == self.addr_text(),
    {
        &self.socket_addr
    }

    /// The route table.
    pub fn router(&self) -> (r: &Router<H>)
        ensures
            *r == self.table(),
    {
        &self.router
    }
}

/// What happened on the connection since the last action.
pub enum Event {
    /// One read brought these bytes; none means that the peer closed.
    Chunk(Vec<u8>),
    /// The read for the rest of a body brought these bytes.
    Body(Vec<u8>),
    /// The invoked handler returned this response.
    Handled(Response),
    /// The response was written.
    Written,
    /// A read or a write failed.
    Failed,
}

/// What is to be done on the connection next.
pub enum Action {
    /// Read up to this many bytes in one operation.
    Read(usize),
    /// Read this many bytes, the rest of a body.
    ReadExact(usize),
    /// Invoke the handler of the route at this index.
    Invoke(usize),
    /// Write these bytes.
    Write(Vec<u8>),
    /// Close the connection; nothing more is written.
    Close,
}

/// Where a connection stands.
pub enum Phase {
    /// Waiting for the chunk that holds the next request's head.
    Reading,
    /// Waiting for the rest of a body.
    Body(Pending),
    /// Waiting for a handler's response.
    Handling,
    /// Waiting for the response to be written.
    Writing,
    /// Done.
    Closed,
}

/// The connection ends here.
pub open spec fn closes(after: Phase, action: Action) -> bool {
    after is Closed && action is Close
}

/// A complete request is handed to the first route that has its target,
/// or answered at once where none has.
pub open spec fn dispatches(paths: Seq<Seq<char>>, head: Head, after: Phase, action: Action)
    -> bool {
    match action {
        Action::Invoke(i) => {
            &&& after is Handling
            &&& head.tokens.len() > 1
            &&& is_first_match(paths, head.tokens[1], i as int)
        },
        Action::Write(w) => {
            &&& after is Writing
            &&& head.tokens.len() <= 1 || no_match(paths, head.tokens[1])
            &&& exists|a: Response|
                is_not_found(a) && w@ == wire(a.status(), a.header_pairs(), a.body_bytes())
        },
        _ => false,
    }
}

/// One step of a connection with the route paths `paths` and chunks of
/// `chunk` bytes: in phase `before`, `event` leads to phase `after` and
/// asks for `action`.
pub open spec fn steps(
    before: Phase,
    chunk: usize,
    paths: Seq<Seq<char>>,
    event: Event,
    after: Phase,
    action: Action,
) -> bool {
    match (before, event) {
        (Phase::Reading, Event::Chunk(c)) => match frame(c@) {
            Err(_) => closes(after, action),
            Ok(f) => if f.remaining > 0 {
                &&& after matches Phase::Body(p) && p.framed() == f
                &&& action == Action::ReadExact(f.remaining as usize)
            } else {
                dispatches(paths, f.head, after, action)
            },
        },
        (Phase::Body(p), Event::Body(b)) => match assemble(p.framed(), b@) {
            Err(_) => closes(after, action),
            Ok(q) => dispatches(paths, q.0, after, action),
        },
        (Phase::Handling, Event::Handled(r)) => {
            &&& after is Writing
            &&& action matches Action::Write(w) && w@ == wire(
                r.status(),
                r.header_pairs(),
                r.body_bytes(),
            )
        },
        (Phase::Writing, Event::Written) => after is Reading && action == Action::Read(chunk),
        _ => closes(after, action),
    }
}

/// In phase `before`, `event` is the read that shows that the peer closed.
pub open spec fn sees_close(before: Phase, event: Event) -> bool {
    before is Reading && match event {
        Event::Chunk(c) => c@.len() == 0,
        _ => false,
    }
}

/// One accepted connection.
pub struct Connection {
    parser: Parser,
    phase: Phase,
}

impl Connection {
    /// Where the connection stands.
    pub closed spec fn phase(&self) -> Phase {
        self.phase
    }

    /// The number of bytes to ask of one read.
    pub closed spec fn chunk_size(&self) -> usize {
        self.parser.chunk_size()
    }

    /// Whether a read has shown that the peer closed the connection.
    pub closed spec fn peer_closed(&self) -> bool {
        self.parser.ended()
    }

    /// A connection that waits for its first request, with chunks of 8192
    /// bytes.
    pub fn new() -> (r: Connection)
        ensures
            r.phase() is Reading,
            r.chunk_size() == 8192,
            !r.peer_closed(),
    {
        Connection { parser: Parser::new(), phase: Phase::Reading }
    }

    /// Sets the number of bytes to ask of one read.
    pub fn set_buf_size(&mut self, bsz: usize)
        ensures
            final(self).chunk_size() == bsz,
            final(self).phase() == old(self).phase(),
            final(self).peer_closed() == old(self).peer_closed(),
    {
        self.parser.set_buf_size(bsz);
    }

    /// The first action of a connection: the read for the first request.
    pub fn first_read(&self) -> (r: Action)
        ensures
            r == Action::Read(self.chunk_size()),
    {
        Action::Read(self.parser.buf_size())
    }

    /// Whether the connection is done.
    pub fn is_closed(&self) -> (r: bool)
        ensures
            r == (self.phase() is Closed),
    {
        match self.phase {
            Phase::Closed => true,
            _ => false,
        }
    }

    /// Whether a read has shown that the peer closed the connection.
    pub fn is_end(&self) -> (r: bool)
        ensures
            r == self.peer_closed(),
    {
        self.parser.is_end()
    }

    /// Takes the outcome of the last action and decides the next one.
    #[verifier::rlimit(40)]
    pub fn step<H>(&mut self, router: &Router<H>, event: Event) -> (action: Action)
        ensures
            steps(
                old(self).phase(),
                old(self).chunk_size(),
                router.paths(),
                event,
                final(self).phase(),
                action,
            ),
            final(self).chunk_size() == old(self).chunk_size(),
            final(self).peer_closed() == (old(self).peer_closed() || sees_close(
                old(self).phase(),
                event,
            )),
    {
        let mut phase = Phase::Closed;
        std::mem::swap(&mut self.phase, &mut phase);
        match (phase, event) {
            (Phase::Reading, Event::Chunk(c)) => match self.parser.parse(Some(c.as_slice())) {
                Err(_) => Action::Close,
                Ok(p) => {
                    let owed: usize = p.remaining();
                    if owed > 0 {
                        self.phase = Phase::Body(p);
                        Action::ReadExact(owed)
                    } else {
                        let none: Vec<u8> = Vec::new();
                        match p.complete(Some(none.as_slice())) {
                            Ok(rq) => self.dispatch(router, &rq),
                            Err(_) => Action::Close,
                        }
                    }
                },
            },
            (Phase::Body(p), Event::Body(b)) => match p.complete(Some(b.as_slice())) {
                Ok(rq) => self.dispatch(router, &rq),
                Err(_) => Action::Close,
            },
            (Phase::Handling, Event::Handled(r)) => {
                self.phase = Phase::Writing;
                Action::Write(r.as_bytes())
            },
            (Phase::Writing, Event::Written) => {
                self.phase = Phase::Reading;
                Action::Read(self.parser.buf_size())
            },
            _ => Action::Close,
        }
    }

    /// Hands a complete request to the route table.
    fn dispatch<H>(&mut self, router: &Router<H>, rq: &Request) -> (action: Action)
        ensures
            dispatches(router.paths(), rq.head(), final(self).phase(), action),
            final(self).chunk_size() == old(self).chunk_size(),
            final(self).peer_closed() == old(self).peer_closed(),
    {
        match router.create_response(rq) {
            Dispatch::Handler(i) => {
                self.phase = Phase::Handling;
                Action::Invoke(i)
            },
            Dispatch::Reply(a) => {
                self.phase = Phase::Writing;
                Action::Write(a.as_bytes())
            },
        }
    }
}

/// A read without bytes ends the connection, and nothing is written.
pub proof fn law_peer_close(
    chunk: usize,
    paths: Seq<Seq<char>>,
    event: Event,
    after: Phase,
    action: Action,
)
    requires
        event matches Event::Chunk(c) && c@.len() == 0,
        steps(Phase::Reading, chunk, paths, event, after, action),
    ensures
        after is Closed,
        action is Close,
{
}

/// A request that gives no head, a body that falls short and a failure of
/// the transport end the connection, and nothing is written.
pub proof fn law_errors_close(
    before: Phase,
    chunk: usize,
    paths: Seq<Seq<char>>,
    event: Event,
    after: Phase,
    action: Action,
)
    requires
        steps(before, chunk, paths, event, after, action),
        match (before, event) {
            (Phase::Reading, Event::Chunk(c)) => frame(c@) is Err,
            (Phase::Body(p), Event::Body(b)) => assemble(p.framed(), b@) is Err,
            (_, Event::Failed) => true,
            _ => false,
        },
    ensures
        after is Closed,
        action is Close,
{
}

} // verus!
