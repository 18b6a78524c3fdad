//! Requests, responses and the incremental request parser.

use crate::headers::{pairs_map, Headers, Pair};
use crate::text::{
    chars_of, decimal_usize, decode_text, find, find_bytes, find_chars, lemma_find_sound,
    parse_decimal, split, split_chars, split_words, string_of, trim, trim_chars, views, words,
};
use vstd::prelude::*;
use vstd::slice::{slice_subrange, slice_to_vec};
use vstd::utf8::{decode_utf8, encode_utf8, valid_utf8};

verus! {

/// The views of a vector of strings, in order.
pub open spec fn texts(v: Seq<String>) -> Seq<Seq<char>> {
    v.map_values(|t: String| t@)
}

/// A parsed request.
pub struct Request {
    start_line: Vec<String>,
    headers: Headers,
    body: Vec<u8>,
}

impl Request {
    /// The tokens of the start line: method, target path and version.
    pub closed spec fn tokens(&self) -> Seq<Seq<char>> {
        texts(self.start_line@)
    }

    /// The header table, as entries in insertion order.
    pub closed spec fn header_pairs(&self) -> Seq<Pair> {
        self.headers.pairs()
    }

    /// The body bytes.
    pub closed spec fn body_bytes(&self) -> Seq<u8> {
        self.body@
    }

    /// What the request's header block said.
    pub open spec fn head(&self) -> Head {
        Head { tokens: self.tokens(), headers: pairs_map(self.header_pairs()) }
    }

    /// A request made of its three parts.
    pub fn new(start_line: Vec<String>, headers: Headers, body: Vec<u8>) -> (r: Request)
        ensures
            r.tokens() == texts(start_line@),
            r.header_pairs() == headers.pairs(),
            r.body_bytes() == body@,
    {
        Request { start_line, headers, body }
    }

    /// The target path: the second token of the start line.
    pub fn get_path(&self) -> (r: Option<String>)
        ensures
            match r {
                Some(p) => self.tokens().len() > 1 && p@ == self.tokens()[1],
                None => self.tokens().len() <= 1,
            },
    {
        if self.start_line.len() > 1 {
            Some(self.start_line[1].clone())
        } else {
            None
        }
    }

    /// The tokens of the start line.
    pub fn start_line(&self) -> (r: &Vec<String>)
        ensures
            texts(r@) == self.tokens(),
    {
        &self.start_line
    }

    /// The header table.
    pub fn headers(&self) -> (r: &Headers)
        ensures
            r.pairs() == self.header_pairs(),
    {
        &self.headers
    }

    /// The body.
    pub fn body(&self) -> (r: &Vec<u8>)
        ensures
            r@ == self.body_bytes(),
    {
        &self.body
    }
}

/// The bytes of one header line on the wire: name, colon, space, value and
/// the line end.
pub open spec fn header_line_bytes(p: Pair) -> Seq<u8> {
    encode_utf8(p.0) + seq![0x3Au8, 0x20u8] + encode_utf8(p.1) + seq![0x0Du8, 0x0Au8]
}

/// The bytes of the header lines of `pairs`, in order.
pub open spec fn header_bytes(pairs: Seq<Pair>) -> Seq<u8>
    decreases pairs.len(),
{
    if pairs.len() == 0 {
        Seq::<u8>::empty()
    } else {
        header_bytes(pairs.drop_last()) + header_line_bytes(pairs.last())
    }
}

/// A response on the wire: the status line as it stands, the header lines,
/// an empty line, and the body.
pub open spec fn wire(status: Seq<char>, pairs: Seq<Pair>, body: Seq<u8>) -> Seq<u8> {
    encode_utf8(status) + header_bytes(pairs) + seq![0x0Du8, 0x0Au8] + body
}

/// A response to be written.
pub struct Response {
    status_line: String,
    headers: Headers,
    body: Vec<u8>,
}

impl Response {
    /// The status line, with its line end.
    pub closed spec fn status(&self) -> Seq<char> {
        self.status_line@
    }

    /// The header table, as entries in insertion order.
    pub closed spec fn header_pairs(&self) -> Seq<Pair> {
        self.headers.pairs()
    }

    /// The body bytes.
    pub closed spec fn body_bytes(&self) -> Seq<u8> {
        self.body@
    }

    /// A response made of its three parts. The status line is taken as it
    /// stands and has to carry its own line end; no header is added.
    pub fn new(status_line: String, headers: Headers, body: Vec<u8>) -> (r: Response)
        ensures
            r.status() == status_line@,
            r.header_pairs() == headers.pairs(),
            r.body_bytes() == body@,
    {
        Response { status_line, headers, body }
    }

    /// The status line.
    pub fn status_line(&self) -> (r: &String)
        ensures
            r@ == self.status(),
    {
        &self.status_line
    }

    /// The header table.
    pub fn headers(&self) -> (r: &Headers)
        ensures
            r.pairs() == self.header_pairs(),
    {
        &self.headers
    }

    /// The body.
    pub fn body(&self) -> (r: &Vec<u8>)
        ensures
            r@ == self.body_bytes(),
    {
        &self.body
    }

    /// The response as it goes on the wire, headers in insertion order.
    #[verifier::rlimit(40)]
    pub fn as_bytes(&self) -> (r: Vec<u8>)
        ensures
            r@ == wire(self.status(), self.header_pairs(), self.body_bytes()),
    {
        let mut bytes: Vec<u8> = Vec::new();
        bytes.extend_from_slice(self.status_line.as_str().as_bytes());
        assert(bytes@ =~= encode_utf8(self.status()));
        let n: usize = self.headers.len();
        let ghost pairs = self.headers.pairs();
        let mut i: usize = 0;
        while i < n
            invariant
                n == pairs.len(),
                pairs == self.headers.pairs(),
                i <= n,
                bytes@ == encode_utf8(self.status()) + header_bytes(pairs.take(i as int)),
            decreases n - i,
        {
            let ghost before = bytes@;
            bytes.extend_from_slice(self.headers.name_at(i).as_str().as_bytes());
            bytes.push(0x3Au8);
            bytes.push(0x20u8);
            bytes.extend_from_slice(self.headers.value_at(i).as_str().as_bytes());
            bytes.push(0x0Du8);
            bytes.push(0x0Au8);
            proof {
                assert(pairs.take(i + 1).drop_last() =~= pairs.take(i as int));
                assert(pairs.take(i + 1).last() == pairs[i as int]);
                assert(bytes@ =~= before + header_line_bytes(pairs[i as int]));
                assert(bytes@ =~= encode_utf8(self.status()) + header_bytes(pairs.take(i + 1)));
            }
            i = i + 1;
        }
        proof {
            assert(pairs.take(n as int) =~= pairs);
        }
        let ghost head = bytes@;
        bytes.push(0x0Du8);
        bytes.push(0x0Au8);
        bytes.extend_from_slice(self.body.as_slice());
        proof {
            assert(bytes@ =~= head + seq![0x0Du8, 0x0Au8] + self.body@);
        }
        bytes
    }
}

/// Why no request came out of a read.
#[derive(Debug, Clone, Copy, PartialEq, Eq)]
pub enum ParserErr {
    /// The start line has not exactly three tokens, or a header line has
    /// no colon.
    UnKnown,
    /// The peer closed the connection: the read gave no bytes.
    SockClose,
    /// The chunk holds no empty line that ends the header block.
    NoEnd,
    /// The second read gave fewer body bytes than were still owed.
    DataLoss,
    /// A read on the transport failed.
    ReadFail,
    /// The chunk is not UTF-8.
    InvalidUtf8,
}

/// The four bytes that end a header block.
pub open spec fn delimiter() -> Seq<u8> {
    seq![0x0Du8, 0x0Au8, 0x0Du8, 0x0Au8]
}

/// The two characters that end a line.
pub open spec fn line_end() -> Seq<char> {
    seq!['\r', '\n']
}

/// The character between a header's name and its value.
pub open spec fn separator() -> Seq<char> {
    seq![':']
}

/// The header that a line states: what stands before its first colon and
/// what stands after it, each without the white space around it.
pub open spec fn header_of(line: Seq<char>) -> Option<Pair> {
    match find(line, separator()) {
        Some(i) => Some(
            (trim(line.subrange(0, i)), trim(line.subrange(i + 1, line.len() as int))),
        ),
        None => None,
    }
}

/// Every line states a header.
pub open spec fn all_headers(lines: Seq<Seq<char>>) -> bool {
    forall|i: int| 0 <= i < lines.len() ==> header_of(#[trigger] lines[i]) is Some
}

/// The headers that the lines state, in order.
pub open spec fn stated_pairs(lines: Seq<Seq<char>>) -> Seq<Pair> {
    lines.map_values(|l: Seq<char>| header_of(l).unwrap())
}

/// What a header block says.
pub ghost struct Head {
    /// The three tokens of the start line.
    pub tokens: Seq<Seq<char>>,
    /// The header mapping; of two lines with one name the later counts.
    pub headers: Map<Seq<char>, Seq<char>>,
}

/// Reads a header block: its first line has to hold exactly three words,
/// and each further line has to state a header.
pub open spec fn head_of(block: Seq<char>) -> Option<Head> {
    let lines = split(block, line_end());
    let tokens = words(lines[0]);
    let rest = lines.drop_first();
    if tokens.len() == 3 && all_headers(rest) {
        Some(Head { tokens, headers: pairs_map(stated_pairs(rest)) })
    } else {
        None
    }
}

/// The body length that the headers declare: the number that the value
/// of `Content-Length` writes, and 0 where there is none.
pub open spec fn declared_length(headers: Map<Seq<char>, Seq<char>>) -> usize {
    if headers.contains_key("Content-Length"@) {
        match decimal_usize(headers["Content-Length"@]) {
            Some(n) => n,
            None => 0,
        }
    } else {
        0
    }
}

/// A request whose head is read, with the part of the body that came in
/// the same chunk.
pub ghost struct Framed {
    /// What the header block says.
    pub head: Head,
    /// The body bytes at hand.
    pub seed: Seq<u8>,
    /// The number of body bytes that another read has to bring.
    pub remaining: nat,
}

/// The body bytes that a chunk brings: of what follows the header block,
/// no more than the declared length.
pub open spec fn seed_of(after: Seq<u8>, declared: usize) -> Seq<u8> {
    if declared <= after.len() {
        after.take(declared as int)
    } else {
        after
    }
}

/// What one chunk, read in one operation, amounts to.
pub open spec fn frame(chunk: Seq<u8>) -> Result<Framed, ParserErr> {
    if chunk.len() == 0 {
        Err(ParserErr::SockClose)
    } else if !valid_utf8(chunk) {
        Err(ParserErr::InvalidUtf8)
    } else {
        match find(chunk, delimiter()) {
            None => Err(ParserErr::NoEnd),
            Some(i) => match head_of(decode_utf8(chunk.subrange(0, i))) {
                None => Err(ParserErr::UnKnown),
                Some(head) => {
                    let seed = seed_of(
                        chunk.subrange(i + 4, chunk.len() as int),
                        declared_length(head.headers),
                    );
                    Ok(
                        Framed {
                            head,
                            seed,
                            remaining: (declared_length(head.headers) - seed.len()) as nat,
                        },
                    )
                },
            },
        }
    }
}

/// The outcome of the second read: the request, where the read brought
/// the bytes that were owed, and the loss of data where it did not.
pub open spec fn assemble(f: Framed, extra: Seq<u8>) -> Result<(Head, Seq<u8>), ParserErr> {
    if extra.len() < f.remaining {
        Err(ParserErr::DataLoss)
    } else {
        Ok((f.head, f.seed + extra.take(f.remaining as int)))
    }
}

/// Reads one header line.
#[verifier::rlimit(40)]
pub fn parse_header_line(line: &[char]) -> (r: Option<(String, String)>)
    ensures
        match r {
            Some(p) => header_of(line@) == Some((p.0@, p.1@)),
            None => header_of(line@) is None,
        },
{
    let mut sep: Vec<char> = Vec::new();
    sep.push(':');
    proof {
        assert(sep@ =~= separator());
        lemma_find_sound(line@, separator());
    }
    let n: usize = line.len();
    match find_chars(line, sep.as_slice()) {
        Some(i) => {
            assert(crate::text::occurs_at(line@, separator(), i as int));
            let name = trim_chars(slice_subrange(line, 0, i));
            let value = trim_chars(slice_subrange(line, i + 1, n));
            Some((string_of(name.as_slice()), string_of(value.as_slice())))
        },
        None => None,
    }
}

/// Reads a header block into the tokens of its start line and its headers.
#[verifier::rlimit(40)]
pub fn parse_head(block: &[char]) -> (r: Option<(Vec<String>, Headers)>)
    ensures
        match r {
            Some(h) => head_of(block@) == Some(Head { tokens: texts(h.0@), headers: h.1@ }),
            None => head_of(block@) is None,
        },
{
    let mut end: Vec<char> = Vec::new();
    end.push('\r');
    end.push('\n');
    proof {
        assert(end@ =~= line_end());
    }
    let lines = split_chars(block, end.as_slice());
    let ghost all = views(lines@);
    let ghost rest = all.drop_first();
    proof {
        assert(all.len() >= 1);
        assert(all[0] == lines@[0]@);
    }
    let toks = split_words(lines[0].as_slice());
    if toks.len() != 3 {
        return None;
    }
    let mut start_line: Vec<String> = Vec::new();
    let mut k: usize = 0;
    while k < 3
        invariant
            toks@.len() == 3,
            k <= 3,
            texts(start_line@) == views(toks@).take(k as int),
        decreases 3 - k,
    {
        let ghost before = texts(start_line@);
        start_line.push(string_of(toks[k].as_slice()));
        proof {
            assert(texts(start_line@) =~= before.push(toks@[k as int]@));
            assert(views(toks@).take(k + 1) =~= views(toks@).take(k as int).push(
                toks@[k as int]@,
            ));
        }
        k = k + 1;
    }
    proof {
        assert(views(toks@).take(3) =~= views(toks@));
    }
    let mut headers = Headers::new();
    let n: usize = lines.len();
    let mut i: usize = 1;
    proof {
        assert(stated_pairs(rest.take(0)) =~= Seq::<Pair>::empty());
    }
    while i < n
        invariant
            n == lines@.len(),
            1 <= i <= n,
            all == views(lines@),
            all == split(block@, line_end()),
            rest == all.drop_first(),
            all_headers(rest.take(i - 1)),
            headers@ == pairs_map(stated_pairs(rest.take(i - 1))),
        decreases n - i,
    {
        let ghost line = lines@[i as int]@;
        proof {
            assert(rest[i - 1] == line);
        }
        match parse_header_line(lines[i].as_slice()) {
            Some(p) => {
                let (name, value) = p;
                proof {
                    let done = rest.take(i - 1);
                    let next = rest.take(i as int);
                    assert(next =~= done.push(line));
                    assert(stated_pairs(next) =~= stated_pairs(done).push((name@, value@)));
                    crate::headers::lemma_push(stated_pairs(done), name@, value@);
                    assert forall|j: int| 0 <= j < next.len() implies header_of(
                        #[trigger] next[j],
                    ) is Some by {
                        if j < i - 1 {
                            assert(done[j] == next[j]);
                        }
                    }
                }
                headers.insert(name, value);
            },
            None => {
                proof {
                    assert(header_of(rest[i - 1]) is None);
                    assert(!all_headers(rest));
                }
                return None;
            },
        }
        i = i + 1;
    }
    proof {
        assert(rest.take(n - 1) =~= rest);
    }
    Some((start_line, headers))
}

/// Reads the body length that the headers declare.
pub fn content_length(headers: &Headers) -> (r: usize)
    ensures
        r == declared_length(headers@),
{
    match headers.get("Content-Length") {
        Some(v) => {
            let digits = chars_of(v.as_str());
            match parse_decimal(digits.as_slice()) {
                Some(n) => n,
                None => 0,
            }
        },
        None => 0,
    }
}

/// A request whose head is read. Its body is complete once `remaining`
/// more bytes have been handed to `complete`.
pub struct Pending {
    request: Request,
    remaining: usize,
}

impl Pending {
    /// The head, the body bytes at hand and the number still owed.
    pub closed spec fn framed(&self) -> Framed {
        Framed {
            head: self.request.head(),
            seed: self.request.body_bytes(),
            remaining: self.remaining as nat,
        }
    }

    /// The number of body bytes that the next read has to bring, all at
    /// once.
    pub fn remaining(&self) -> (r: usize)
        ensures
            r == self.framed().remaining,
    {
        self.remaining
    }

    /// Completes the request with the outcome of the second read: its
    /// bytes, or `None` where the read failed. A failed read gives
    /// `ReadFail`. A read that brought fewer bytes than were owed loses the
    /// request; of a longer one the bytes owed are taken.
    pub fn complete(self, read: Option<&[u8]>) -> (r: Result<Request, ParserErr>)
        ensures
            match read {
                None => r is Err && r->Err_0 == ParserErr::ReadFail,
                Some(extra) => match r {
                    Ok(q) => assemble(self.framed(), extra@) == Ok::<(Head, Seq<u8>), ParserErr>(
                        (q.head(), q.body_bytes()),
                    ),
                    Err(e) => assemble(self.framed(), extra@) == Err::<(Head, Seq<u8>), ParserErr>(
                        e,
                    ),
                },
            },
    {
        let extra: &[u8] = match read {
            Some(extra) => extra,
            None => {
                return Err(ParserErr::ReadFail);
            },
        };
        if extra.len() < self.remaining {
            return Err(ParserErr::DataLoss);
        }
        let mut request = self.request;
        let ghost seed = request.body@;
        request.body.extend_from_slice(slice_subrange(extra, 0, self.remaining));
        proof {
            assert(request.body@ =~= seed + extra@.take(self.remaining as int));
        }
        Ok(request)
    }
}

/// The state of one connection's parser.
pub struct Parser {
    header_buf_size: usize,
    is_end: bool,
}

impl Parser {
    /// The number of bytes to ask of one read.
    pub closed spec fn chunk_size(&self) -> usize {
        self.header_buf_size
    }

    /// Whether a read has shown that the peer closed the connection.
    pub closed spec fn ended(&self) -> bool {
        self.is_end
    }

    /// A parser for a fresh connection, with chunks of 8192 bytes.
    pub fn new() -> (r: Parser)
        ensures
            r.chunk_size() == 8192,
            !r.ended(),
    {
        Parser { header_buf_size: 8192, is_end: false }
    }

    /// Sets the number of bytes to ask of one read.
    pub fn set_buf_size(&mut self, bsz: usize)
        ensures
            final(self).chunk_size() == bsz,
            final(self).ended() == old(self).ended(),
    {
        self.header_buf_size = bsz;
    }

    /// The number of bytes to ask of one read.
    pub fn buf_size(&self) -> (r: usize)
        ensures
            r == self.chunk_size(),
    {
        self.header_buf_size
    }

    /// Whether a read has shown that the peer closed the connection.
    pub fn is_end(&self) -> (r: bool)
        ensures
            r == self.ended(),
    {
        self.is_end
    }

    /// Takes the outcome of one read: the bytes it brought, or `None`
    /// where it failed. A failed read gives `ReadFail`. An empty chunk marks
    /// the connection as ended; any other is framed into a request head and
    /// the body bytes that came with it.
    pub fn parse(&mut self, read: Option<&[u8]>) -> (r: Result<Pending, ParserErr>)
        ensures
            final(self).chunk_size() == old(self).chunk_size(),
            final(self).ended() == (old(self).ended() || (read matches Some(c) && c@.len() == 0)),
            match read {
                None => r is Err && r->Err_0 == ParserErr::ReadFail,
                Some(chunk) => match r {
                    Ok(p) => frame(chunk@) == Ok::<Framed, ParserErr>(p.framed()),
                    Err(e) => frame(chunk@) == Err::<Framed, ParserErr>(e),
                },
            },
    {
        let chunk: &[u8] = match read {
            Some(chunk) => chunk,
            None => {
                return Err(ParserErr::ReadFail);
            },
        };
        if chunk.len() == 0 {
            self.is_end = true;
            return Err(ParserErr::SockClose);
        }
        match decode_text(chunk) {
            None => Err(ParserErr::InvalidUtf8),
            Some(_) => Self::build_req(chunk),
        }
    }

    /// Frames a chunk of UTF-8 text: finds the end of the header block,
    /// reads the block, and seeds the body with what follows it.
    #[verifier::rlimit(40)]
    fn build_req(chunk: &[u8]) -> (r: Result<Pending, ParserErr>)
        requires
            chunk@.len() > 0,
            valid_utf8(chunk@),
        ensures
            match r {
                Ok(p) => frame(chunk@) == Ok::<Framed, ParserErr>(p.framed()),
                Err(e) => frame(chunk@) == Err::<Framed, ParserErr>(e),
            },
    {
        let mut mark: Vec<u8> = Vec::new();
        mark.push(0x0Du8);
        mark.push(0x0Au8);
        mark.push(0x0Du8);
        mark.push(0x0Au8);
        proof {
            assert(mark@ =~= delimiter());
            lemma_find_sound(chunk@, delimiter());
        }
        let n: usize = chunk.len();
        let id_end: usize = match find_bytes(chunk, mark.as_slice()) {
            Some(i) => i,
            None => {
                return Err(ParserErr::NoEnd);
            },
        };
        proof {
            assert(crate::text::occurs_at(chunk@, delimiter(), id_end as int));
            assert(chunk@[id_end + 0] == delimiter()[0]);
            vstd::utf8::is_char_boundary_iff_not_is_continuation_byte(chunk@, id_end as int);
            vstd::utf8::valid_utf8_split(chunk@, id_end as int);
        }
        let block: Vec<char> = match decode_text(slice_subrange(chunk, 0, id_end)) {
            Some(t) => chars_of(t),
            None => {
                return Err(ParserErr::InvalidUtf8);
            },
        };
        let (start_line, headers) = match parse_head(block.as_slice()) {
            Some(h) => h,
            None => {
                return Err(ParserErr::UnKnown);
            },
        };
        let declared: usize = content_length(&headers);
        let after = slice_subrange(chunk, id_end + 4, n);
        let at_hand: usize = if declared <= after.len() {
            declared
        } else {
            after.len()
        };
        let body = slice_to_vec(slice_subrange(after, 0, at_hand));
        proof {
            assert(body@ =~= seed_of(after@, declared));
        }
        Ok(Pending { request: Request::new(start_line, headers, body), remaining: declared - at_hand })
    }
}

/// The bytes of a chunk that follow the header block that ends at `i`.
pub open spec fn after_head(chunk: Seq<u8>, i: int) -> Seq<u8> {
    chunk.subrange(i + 4, chunk.len() as int)
}

/// A body that came whole with its head: where the chunk holds at least
/// as many bytes after the header block as the headers declare, nothing
/// more is to be read, and the body is exactly the declared number of
/// bytes that follow the block.
pub proof fn law_body_in_first_chunk(chunk: Seq<u8>, i: int, f: Framed)
    requires
        frame(chunk) == Ok::<Framed, ParserErr>(f),
        find(chunk, delimiter()) == Some(i),
        declared_length(f.head.headers) <= after_head(chunk, i).len(),
    ensures
        f.remaining == 0,
        f.seed == after_head(chunk, i).take(declared_length(f.head.headers) as int),
        f.seed.len() == declared_length(f.head.headers),
        assemble(f, Seq::<u8>::empty()) == Ok::<(Head, Seq<u8>), ParserErr>((f.head, f.seed)),
{
    assert(f.seed + Seq::<u8>::empty().take(0) =~= f.seed);
}

/// A body that came in two reads: where the chunk holds fewer bytes after
/// the header block than the headers declare and the second read brings
/// what is owed, the body is the bytes of both reads, one after the
/// other, and has the declared length.
pub proof fn law_body_in_two_reads(chunk: Seq<u8>, i: int, f: Framed, extra: Seq<u8>)
    requires
        frame(chunk) == Ok::<Framed, ParserErr>(f),
        find(chunk, delimiter()) == Some(i),
        declared_length(f.head.headers) > after_head(chunk, i).len(),
        extra.len() == f.remaining,
    ensures
        f.remaining == declared_length(f.head.headers) - after_head(chunk, i).len(),
        assemble(f, extra) == Ok::<(Head, Seq<u8>), ParserErr>(
            (f.head, after_head(chunk, i) + extra),
        ),
        (after_head(chunk, i) + extra).len() == declared_length(f.head.headers),
{
    assert(extra.take(f.remaining as int) =~= extra);
}

/// A second read that brings fewer bytes than are owed loses the request.
pub proof fn law_short_body(f: Framed, extra: Seq<u8>)
    requires
        extra.len() < f.remaining,
    ensures
        assemble(f, extra) == Err::<(Head, Seq<u8>), ParserErr>(ParserErr::DataLoss),
{
}

/// A chunk of text in which no empty line ends the header block gives no
/// request.
pub proof fn law_no_terminator(chunk: Seq<u8>)
    requires
        chunk.len() > 0,
        valid_utf8(chunk),
        forall|j: int| !crate::text::occurs_at(chunk, delimiter(), j),
    ensures
        frame(chunk) == Err::<Framed, ParserErr>(ParserErr::NoEnd),
{
    crate::text::lemma_find_none(chunk, delimiter());
}

/// The first line of a header block.
pub open spec fn start_line_of(block: Seq<char>) -> Seq<char> {
    split(block, line_end())[0]
}

/// A header block whose first line has not exactly three words is no
/// head, and a chunk of text with such a block gives no request.
pub proof fn law_malformed_start_line(chunk: Seq<u8>, i: int)
    requires
        chunk.len() > 0,
        valid_utf8(chunk),
        find(chunk, delimiter()) == Some(i),
        words(start_line_of(decode_utf8(chunk.subrange(0, i)))).len() != 3,
    ensures
        head_of(decode_utf8(chunk.subrange(0, i))) is None,
        frame(chunk) == Err::<Framed, ParserErr>(ParserErr::UnKnown),
{
}

/// A header block with a line after the first that has no colon is no
/// head, and a chunk of text with such a block gives no request.
pub proof fn law_malformed_header_line(chunk: Seq<u8>, i: int, k: int)
    requires
        chunk.len() > 0,
        valid_utf8(chunk),
        find(chunk, delimiter()) == Some(i),
        1 <= k < split(decode_utf8(chunk.subrange(0, i)), line_end()).len(),
        find(split(decode_utf8(chunk.subrange(0, i)), line_end())[k], separator()) is None,
    ensures
        head_of(decode_utf8(chunk.subrange(0, i))) is None,
        frame(chunk) == Err::<Framed, ParserErr>(ParserErr::UnKnown),
{
    let lines = split(decode_utf8(chunk.subrange(0, i)), line_end());
    assert(header_of(lines.drop_first()[k - 1]) is None);
}

} // verus!
