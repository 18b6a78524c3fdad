//! A rendered response reads back: the parser recovers the header mapping
//! and the body of what `Response::as_bytes` wrote.

use crate::headers::{pairs_map, Pair};
use crate::http::{
    declared_length, delimiter, frame, head_of, header_bytes, header_line_bytes, header_of,
    line_end, separator, stated_pairs, wire, Framed, Head, ParserErr,
};
use crate::text::{find, is_first, is_space, lemma_find_some, occurs_at, split, trim, words};
use vstd::prelude::*;
use vstd::utf8::{encode_scalar, encode_utf8, valid_utf8};

verus! {

/// The bytes of one character: an ASCII character is its own single byte,
/// and every byte of any other character is 0x80 or more.
pub proof fn lemma_scalar_bytes(c: char)
    ensures
        encode_scalar(c as u32).len() >= 1,
        c as u32 <= 0x7F ==> encode_scalar(c as u32) == seq![(c as u32) as u8],
        c as u32 > 0x7F ==> forall|k: int|
            0 <= k < encode_scalar(c as u32).len() ==> #[trigger] encode_scalar(c as u32)[k]
                >= 0x80,
{
    let v = c as u32;
    if v <= 0x7F {
        assert((v & 0x7F) as u8 == v as u8) by (bit_vector)
            requires
                v <= 0x7F,
        ;
        assert(encode_scalar(v) =~= seq![v as u8]);
    } else {
        let a = ((v >> 6) & 0x1F) as u8;
        let b = ((v >> 12) & 0x0F) as u8;
        let d = ((v >> 18) & 0x7) as u8;
        let e = (v & 0x3F) as u8;
        let f = ((v >> 6) & 0x3F) as u8;
        let g = ((v >> 12) & 0x3F) as u8;
        assert(0xC0u8 | a >= 0x80) by (bit_vector);
        assert(0xE0u8 | b >= 0x80) by (bit_vector);
        assert(0xF0u8 | d >= 0x80) by (bit_vector);
        assert(0x80u8 | e >= 0x80) by (bit_vector);
        assert(0x80u8 | f >= 0x80) by (bit_vector);
        assert(0x80u8 | g >= 0x80) by (bit_vector);
    }
}

/// Encoding goes piece by piece.
pub proof fn lemma_encode_concat(a: Seq<char>, b: Seq<char>)
    ensures
        encode_utf8(a + b) == encode_utf8(a) + encode_utf8(b),
    decreases a.len(),
{
    if a.len() == 0 {
        assert(a + b =~= b);
        assert(encode_utf8(a) + encode_utf8(b) =~= encode_utf8(b));
    } else {
        assert((a + b).drop_first() =~= a.drop_first() + b);
        lemma_encode_concat(a.drop_first(), b);
        assert(encode_utf8(a + b) =~= encode_utf8(a) + encode_utf8(b));
    }
}

/// The index of the first byte of character `j` in the encoding of `x`.
pub open spec fn offset(x: Seq<char>, j: int) -> int {
    encode_utf8(x.take(j)).len() as int
}

/// The encoding of a prefix is a prefix of the encoding, and a character
/// moves the offset by the length of its own encoding.
pub proof fn lemma_offset_step(x: Seq<char>, j: int)
    requires
        0 <= j < x.len(),
    ensures
        encode_utf8(x.take(j + 1)) == encode_utf8(x.take(j)) + encode_scalar(x[j] as u32),
        offset(x, j + 1) == offset(x, j) + encode_scalar(x[j] as u32).len(),
        offset(x, j + 1) > offset(x, j),
{
    let one = seq![x[j]];
    assert(x.take(j + 1) =~= x.take(j) + one);
    lemma_encode_concat(x.take(j), one);
    assert(one.drop_first() =~= Seq::<char>::empty());
    assert(encode_utf8(one.drop_first()) =~= Seq::<u8>::empty());
    assert(one[0] == x[j]);
    assert(encode_utf8(one) =~= encode_scalar(x[j] as u32));
    lemma_scalar_bytes(x[j]);
}

/// Offsets grow with the index.
pub proof fn lemma_offset_grows(x: Seq<char>, i: int, j: int)
    requires
        0 <= i <= j <= x.len(),
    ensures
        offset(x, i) <= offset(x, j),
        i < j ==> offset(x, i) < offset(x, j),
    decreases j - i,
{
    if i < j {
        lemma_offset_grows(x, i, j - 1);
        lemma_offset_step(x, j - 1);
    }
}

/// The encoding of `x` splits at the offset of each index.
pub proof fn lemma_offset_split(x: Seq<char>, j: int)
    requires
        0 <= j <= x.len(),
    ensures
        encode_utf8(x) == encode_utf8(x.take(j)) + encode_utf8(x.skip(j)),
        offset(x, x.len() as int) == encode_utf8(x).len(),
{
    assert(x =~= x.take(j) + x.skip(j));
    lemma_encode_concat(x.take(j), x.skip(j));
    assert(x.take(x.len() as int) =~= x);
}

/// A byte below 0x80 in an encoding is a character of its own: it stands
/// at the offset of some index, and the character there is that byte.
#[verifier::rlimit(40)]
pub proof fn lemma_ascii_byte(x: Seq<char>, b: int) -> (j: int)
    requires
        0 <= b < encode_utf8(x).len(),
        encode_utf8(x)[b] < 0x80,
    ensures
        0 <= j < x.len(),
        offset(x, j) == b,
        offset(x, j + 1) == b + 1,
        x[j] as u32 == encode_utf8(x)[b] as u32,
    decreases x.len(),
{
    assert(x.len() > 0);
    let last = x.len() - 1;
    let front = x.drop_last();
    assert(front =~= x.take(last));
    lemma_offset_step(x, last);
    lemma_offset_split(x, x.len() as int);
    assert(x.take(last + 1) =~= x);
    lemma_scalar_bytes(x[last]);
    if b < encode_utf8(front).len() {
        let j = lemma_ascii_byte(front, b);
        assert(front.take(j) =~= x.take(j));
        assert(front.take(j + 1) =~= x.take(j + 1));
        assert(front[j] == x[j]);
        assert(encode_utf8(x)[b] == encode_utf8(front)[b]);
        j
    } else {
        let k = b - encode_utf8(front).len();
        let c = x[last];
        assert(encode_utf8(x)[b] == encode_scalar(c as u32)[k]);
        assert(c as u32 <= 0x7F);
        assert(k == 0);
        assert(encode_scalar(c as u32)[0] == (c as u32) as u8);
        last
    }
}

/// A line end stands in `x` at `i`.
pub open spec fn crlf_at(x: Seq<char>, i: int) -> bool {
    0 <= i && i + 1 < x.len() && x[i] == '\r' && x[i + 1] == '\n'
}

/// No line end stands in `x`.
pub open spec fn line_free(x: Seq<char>) -> bool {
    forall|i: int| !crlf_at(x, i)
}

/// `crlf_at` says that the pattern of a line end occurs.
pub proof fn lemma_crlf_at(x: Seq<char>, i: int)
    ensures
        crlf_at(x, i) <==> occurs_at(x, line_end(), i),
{
    assert(line_end()[0] == '\r');
    assert(line_end()[1] == '\n');
    assert(line_end().len() == 2);
    if crlf_at(x, i) {
        assert forall|k: int| 0 <= k < line_end().len() implies x[i + k]
            == #[trigger] line_end()[k] by {
            if k == 0 {
            } else {
                assert(k == 1);
            }
        }
    }
}

/// A text without line end is a single line.
pub proof fn lemma_split_one(x: Seq<char>)
    requires
        line_free(x),
    ensures
        find(x, line_end()) is None,
        split(x, line_end()) == seq![x],
{
    assert forall|j: int| !occurs_at(x, line_end(), j) by {
        lemma_crlf_at(x, j);
        assert(!crlf_at(x, j));
    }
    crate::text::lemma_find_none(x, line_end());
}

/// The line that states a header.
pub open spec fn line_text(p: Pair) -> Seq<char> {
    p.0 + seq![':', ' '] + p.1
}

/// A header that a line can state and give back: neither name nor value
/// holds a line end or has white space at an end, and the name holds no
/// colon.
pub open spec fn clean(p: Pair) -> bool {
    &&& line_free(p.0)
    &&& line_free(p.1)
    &&& forall|i: int| 0 <= i < p.0.len() ==> p.0[i] != ':'
    &&& trim(p.0) == p.0
    &&& trim(p.1) == p.1
}

/// The line of a clean header holds no line end and states that header.
#[verifier::rlimit(40)]
pub proof fn lemma_line_of_clean(p: Pair)
    requires
        clean(p),
    ensures
        line_free(line_text(p)),
        line_text(p).len() >= 2,
        header_of(line_text(p)) == Some(p),
{
    let line = line_text(p);
    let n = p.0.len() as int;
    assert(line.len() == n + 2 + p.1.len());
    assert(line[n] == ':');
    assert(line[n + 1] == ' ');
    assert forall|i: int| !crlf_at(line, i) by {
        if crlf_at(line, i) {
            if i + 1 < n {
                assert(line[i] == p.0[i]);
                assert(line[i + 1] == p.0[i + 1]);
                assert(crlf_at(p.0, i));
            } else if i >= n + 2 {
                assert(line[i] == p.1[i - n - 2]);
                assert(line[i + 1] == p.1[i - n - 2 + 1]);
                assert(crlf_at(p.1, i - n - 2));
            }
        }
    }
    assert(separator()[0] == ':');
    assert(separator().len() == 1);
    assert(occurs_at(line, separator(), n)) by {
        assert forall|k: int| 0 <= k < separator().len() implies line[n + k]
            == #[trigger] separator()[k] by {
            assert(k == 0);
        }
    }
    assert forall|j: int| 0 <= j < n implies !occurs_at(line, separator(), j) by {
        assert(line[j] == p.0[j]);
        assert(line[j + 0] != separator()[0]);
    }
    assert(is_first(line, separator(), n));
    lemma_find_some(line, separator(), n);
    assert(line.subrange(0, n) =~= p.0);
    let tail = line.subrange(n + 1, line.len() as int);
    assert(tail =~= seq![' '] + p.1);
    assert(is_space(' '));
    assert(tail[0] == ' ');
    assert(tail.drop_first() =~= p.1);
    assert(crate::text::trim_start(tail) == crate::text::trim_start(p.1));
}

/// The first line end of a text stays the first when more text follows.
pub proof fn lemma_first_end_stays(x: Seq<char>, tail: Seq<char>, i: int)
    requires
        is_first(x, line_end(), i),
    ensures
        find(x + tail, line_end()) == Some(i),
{
    let e = line_end();
    let y = x + tail;
    lemma_crlf_at(x, i);
    lemma_crlf_at(y, i);
    assert(y[i] == x[i] && y[i + 1] == x[i + 1]);
    assert forall|j: int| 0 <= j < i implies !occurs_at(y, e, j) by {
        lemma_crlf_at(x, j);
        lemma_crlf_at(y, j);
        assert(y[j] == x[j] && y[j + 1] == x[j + 1]);
        assert(!occurs_at(x, e, j));
    }
    assert(is_first(y, e, i));
    lemma_find_some(y, e, i);
}

/// Behind a text without line end, the first line end is the one that
/// follows it.
pub proof fn lemma_first_end_follows(x: Seq<char>, tail: Seq<char>)
    requires
        line_free(x),
    ensures
        find(x + line_end() + tail, line_end()) == Some(x.len() as int),
{
    let e = line_end();
    let y = x + e + tail;
    let n = x.len() as int;
    assert(e.len() == 2);
    assert(e[0] == '\r' && e[1] == '\n');
    lemma_crlf_at(y, n);
    assert(y[n] == '\r' && y[n + 1] == '\n');
    assert forall|j: int| 0 <= j < n implies !occurs_at(y, e, j) by {
        lemma_crlf_at(y, j);
        if j + 1 < n {
            assert(y[j] == x[j] && y[j + 1] == x[j + 1]);
            assert(!crlf_at(x, j));
        }
    }
    assert(is_first(y, e, n));
    lemma_find_some(y, e, n);
}

/// A line added behind a line end is one more piece of the split.
#[verifier::rlimit(40)]
pub proof fn lemma_split_push(x: Seq<char>, l: Seq<char>)
    requires
        line_free(l),
    ensures
        split(x + line_end() + l, line_end()) == split(x, line_end()).push(l),
    decreases x.len(),
{
    let e = line_end();
    let y = x + e + l;
    assert(e.len() == 2);
    crate::text::lemma_find_sound(x, e);
    match find(x, e) {
        Some(i) => {
            assert(y =~= x + (e + l));
            lemma_first_end_stays(x, e + l, i);
            let rest = x.subrange(i + 2, x.len() as int);
            assert(y.subrange(0, i) =~= x.subrange(0, i));
            assert(y.subrange(i + 2, y.len() as int) =~= rest + e + l);
            lemma_split_push(rest, l);
            assert(split(x, e) == seq![x.subrange(0, i)] + split(rest, e));
            assert(split(y, e) == seq![x.subrange(0, i)] + split(rest + e + l, e));
            assert(split(y, e) =~= split(x, e).push(l));
        },
        None => {
            let n = x.len() as int;
            assert(line_free(x)) by {
                assert forall|j: int| !crlf_at(x, j) by {
                    lemma_crlf_at(x, j);
                }
            }
            lemma_first_end_follows(x, l);
            assert(y.subrange(0, n) =~= x);
            assert(y.subrange(n + 2, y.len() as int) =~= l);
            lemma_split_one(l);
            assert(split(x, e) == seq![x]);
            assert(split(y, e) == seq![x] + split(l, e));
            assert(split(y, e) =~= split(x, e).push(l));
        },
    }
}

/// The header block of a response: the status line without its line end,
/// and the lines of the headers, each behind a line end.
pub open spec fn head_block(s: Seq<char>, pairs: Seq<Pair>) -> Seq<char>
    decreases pairs.len(),
{
    if pairs.len() == 0 {
        s
    } else {
        head_block(s, pairs.drop_last()) + line_end() + line_text(pairs.last())
    }
}

/// Every header of `pairs` is clean.
pub open spec fn all_clean(pairs: Seq<Pair>) -> bool {
    forall|i: int| 0 <= i < pairs.len() ==> clean(#[trigger] pairs[i])
}

/// The lines of a header block of clean headers are the status line and
/// the lines of the headers.
#[verifier::rlimit(40)]
pub proof fn lemma_block_lines(s: Seq<char>, pairs: Seq<Pair>)
    requires
        line_free(s),
        all_clean(pairs),
    ensures
        split(head_block(s, pairs), line_end()) == seq![s] + pairs.map_values(
            |p: Pair| line_text(p),
        ),
    decreases pairs.len(),
{
    let lines = pairs.map_values(|p: Pair| line_text(p));
    if pairs.len() == 0 {
        lemma_split_one(s);
        assert(seq![s] + lines =~= seq![s]);
    } else {
        let front = pairs.drop_last();
        assert(all_clean(front)) by {
            assert forall|i: int| 0 <= i < front.len() implies clean(#[trigger] front[i]) by {
                assert(front[i] == pairs[i]);
            }
        }
        lemma_block_lines(s, front);
        assert(clean(pairs[pairs.len() - 1]));
        lemma_line_of_clean(pairs.last());
        lemma_split_push(head_block(s, front), line_text(pairs.last()));
        assert(seq![s] + lines =~= (seq![s] + front.map_values(|p: Pair| line_text(p))).push(
            line_text(pairs.last()),
        ));
    }
}

/// The bytes of the line end and of the mark between name and value.
pub proof fn lemma_mark_bytes()
    ensures
        encode_utf8(line_end()) == seq![0x0Du8, 0x0Au8],
        encode_utf8(seq![':', ' ']) == seq![0x3Au8, 0x20u8],
        encode_utf8(line_end() + line_end()) == delimiter(),
{
    let e = line_end();
    let m = seq![':', ' '];
    assert(vstd::utf8::is_ascii_chars(e)) by {
        assert(e[0] == '\r' && e[1] == '\n');
    }
    assert(vstd::utf8::is_ascii_chars(m)) by {
        assert(m[0] == ':' && m[1] == ' ');
    }
    vstd::utf8::is_ascii_chars_encode_utf8(e);
    vstd::utf8::is_ascii_chars_encode_utf8(m);
    assert(encode_utf8(e)[0] == e[0] as u8);
    assert(encode_utf8(e)[1] == e[1] as u8);
    assert(encode_utf8(m)[0] == m[0] as u8);
    assert(encode_utf8(m)[1] == m[1] as u8);
    assert(encode_utf8(e) =~= seq![0x0Du8, 0x0Au8]);
    assert(encode_utf8(m) =~= seq![0x3Au8, 0x20u8]);
    lemma_encode_concat(e, e);
    assert(encode_utf8(e) + encode_utf8(e) =~= delimiter());
}

/// The bytes of a response before its body are the bytes of its header
/// block and the four bytes that end it.
#[verifier::rlimit(40)]
pub proof fn lemma_block_bytes(s: Seq<char>, pairs: Seq<Pair>)
    ensures
        encode_utf8(s + line_end()) + header_bytes(pairs) == encode_utf8(head_block(s, pairs))
            + seq![0x0Du8, 0x0Au8],
    decreases pairs.len(),
{
    lemma_mark_bytes();
    let e = line_end();
    if pairs.len() == 0 {
        lemma_encode_concat(s, e);
        assert(encode_utf8(s + e) + header_bytes(pairs) =~= encode_utf8(s) + encode_utf8(e));
    } else {
        let front = pairs.drop_last();
        let p = pairs.last();
        lemma_block_bytes(s, front);
        let b = head_block(s, front);
        lemma_encode_concat(b + e, line_text(p));
        lemma_encode_concat(b, e);
        lemma_encode_concat(p.0 + seq![':', ' '], p.1);
        lemma_encode_concat(p.0, seq![':', ' ']);
        assert(encode_utf8(line_text(p)) + seq![0x0Du8, 0x0Au8] =~= header_line_bytes(p));
        assert(encode_utf8(s + e) + header_bytes(pairs) =~= (encode_utf8(s + e) + header_bytes(
            front,
        )) + header_line_bytes(p));
        assert(encode_utf8(head_block(s, pairs)) + seq![0x0Du8, 0x0Au8] =~= (encode_utf8(b)
            + seq![0x0Du8, 0x0Au8]) + header_line_bytes(p));
    }
}

/// A header block of clean headers behind a status line of three words
/// reads as those words and those headers.
#[verifier::rlimit(40)]
pub proof fn lemma_block_head(s: Seq<char>, pairs: Seq<Pair>)
    requires
        line_free(s),
        words(s).len() == 3,
        all_clean(pairs),
    ensures
        head_of(head_block(s, pairs)) == Some(
            Head { tokens: words(s), headers: pairs_map(pairs) },
        ),
{
    lemma_block_lines(s, pairs);
    let lines = split(head_block(s, pairs), line_end());
    let texts = pairs.map_values(|p: Pair| line_text(p));
    assert(lines[0] == s);
    let rest = lines.drop_first();
    assert(rest =~= texts);
    assert forall|i: int| 0 <= i < rest.len() implies header_of(#[trigger] rest[i]) == Some(
        pairs[i],
    ) by {
        assert(clean(pairs[i]));
        lemma_line_of_clean(pairs[i]);
    }
    assert(stated_pairs(rest) =~= pairs);
}

/// An empty line stands in `x` at `j`: two line ends, one behind the
/// other.
pub open spec fn blank_at(x: Seq<char>, j: int) -> bool {
    crlf_at(x, j) && crlf_at(x, j + 2)
}

/// `x` holds no empty line.
pub open spec fn no_blank(x: Seq<char>) -> bool {
    forall|j: int| !blank_at(x, j)
}

/// `x` ends with a line end.
pub open spec fn ends_line(x: Seq<char>) -> bool {
    x.len() >= 2 && x[x.len() - 2] == '\r' && x[x.len() - 1] == '\n'
}

/// A line without line end, with its line end, holds no empty line.
pub proof fn lemma_no_blank_base(s: Seq<char>)
    requires
        line_free(s),
    ensures
        no_blank(s + line_end()),
        ends_line(s + line_end()),
{
    let y = s + line_end();
    let n = s.len() as int;
    assert(line_end()[0] == '\r' && line_end()[1] == '\n');
    assert(y[n] == '\r' && y[n + 1] == '\n');
    assert forall|j: int| !blank_at(y, j) by {
        if blank_at(y, j) {
            if j + 1 < n {
                assert(y[j] == s[j] && y[j + 1] == s[j + 1]);
                assert(crlf_at(s, j));
            }
        }
    }
}

/// A line that is not empty, behind a text that ends with a line end,
/// brings no empty line.
#[verifier::rlimit(40)]
pub proof fn lemma_no_blank_step(y: Seq<char>, l: Seq<char>)
    requires
        no_blank(y),
        ends_line(y),
        line_free(l),
        l.len() >= 1,
    ensures
        no_blank(y + l + line_end()),
        ends_line(y + l + line_end()),
{
    let z = y + l + line_end();
    let a = y.len() as int;
    let b = a + l.len();
    assert(line_end()[0] == '\r' && line_end()[1] == '\n');
    assert(z[b] == '\r' && z[b + 1] == '\n');
    assert(z[a - 1] == y[a - 1]);
    assert forall|q: int| crlf_at(z, q) && q + 1 >= a implies q == b by {
        if q + 1 == a {
        } else if q + 1 < b {
            assert(z[q] == l[q - a] && z[q + 1] == l[q - a + 1]);
            assert(crlf_at(l, q - a));
        } else if q + 1 == b {
        }
    }
    assert forall|j: int| !blank_at(z, j) by {
        if blank_at(z, j) {
            if j + 3 < a {
                assert(z[j] == y[j] && z[j + 1] == y[j + 1] && z[j + 2] == y[j + 2] && z[j + 3]
                    == y[j + 3]);
                assert(blank_at(y, j));
            } else {
                assert(j + 2 == b);
                assert(j + 1 >= a);
            }
        }
    }
}

/// A header block of clean headers, with its line end, holds no empty
/// line.
pub proof fn lemma_block_no_blank(s: Seq<char>, pairs: Seq<Pair>)
    requires
        line_free(s),
        all_clean(pairs),
    ensures
        no_blank(head_block(s, pairs) + line_end()),
        ends_line(head_block(s, pairs) + line_end()),
    decreases pairs.len(),
{
    if pairs.len() == 0 {
        lemma_no_blank_base(s);
    } else {
        let front = pairs.drop_last();
        assert(all_clean(front)) by {
            assert forall|i: int| 0 <= i < front.len() implies clean(#[trigger] front[i]) by {
                assert(front[i] == pairs[i]);
            }
        }
        lemma_block_no_blank(s, front);
        assert(clean(pairs[pairs.len() - 1]));
        lemma_line_of_clean(pairs.last());
        let y = head_block(s, front) + line_end();
        let l = line_text(pairs.last());
        lemma_no_blank_step(y, l);
        assert(head_block(s, pairs) + line_end() =~= y + l + line_end());
    }
}

/// Four bytes of an encoding that are the end of a header block are an
/// empty line of the text, at the index whose offset is theirs.
#[verifier::rlimit(40)]
pub proof fn lemma_delimiter_in_text(x: Seq<char>, b: int) -> (j: int)
    requires
        occurs_at(encode_utf8(x), delimiter(), b),
    ensures
        blank_at(x, j),
        offset(x, j) == b,
{
    let bytes = encode_utf8(x);
    let d = delimiter();
    assert(d.len() == 4);
    assert(bytes[b + 0] == d[0] && bytes[b + 1] == d[1] && bytes[b + 2] == d[2] && bytes[b + 3]
        == d[3]);
    let j0 = lemma_ascii_byte(x, b);
    let j1 = lemma_ascii_byte(x, b + 1);
    let j2 = lemma_ascii_byte(x, b + 2);
    let j3 = lemma_ascii_byte(x, b + 3);
    assert(j1 == j0 + 1) by {
        if j1 <= j0 {
            lemma_offset_grows(x, j1, j0);
        }
        if j1 > j0 + 1 {
            lemma_offset_grows(x, j0 + 1, j1);
        }
    }
    assert(j2 == j1 + 1) by {
        if j2 <= j1 {
            lemma_offset_grows(x, j2, j1);
        }
        if j2 > j1 + 1 {
            lemma_offset_grows(x, j1 + 1, j2);
        }
    }
    assert(j3 == j2 + 1) by {
        if j3 <= j2 {
            lemma_offset_grows(x, j3, j2);
        }
        if j3 > j2 + 1 {
            lemma_offset_grows(x, j2 + 1, j3);
        }
    }
    assert(x[j0] as u32 == 0x0D && x[j1] as u32 == 0x0A && x[j2] as u32 == 0x0D && x[j3] as u32
        == 0x0A);
    assert('\r' as u32 == 0x0D && '\n' as u32 == 0x0A);
    vstd::utf8::char_u32_cast(x[j0], 0x0Du32);
    vstd::utf8::char_u32_cast(x[j2], 0x0Du32);
    vstd::utf8::char_u32_cast('\r', 0x0Du32);
    vstd::utf8::char_u32_cast(x[j1], 0x0Au32);
    vstd::utf8::char_u32_cast(x[j3], 0x0Au32);
    vstd::utf8::char_u32_cast('\n', 0x0Au32);
    assert(x[j0] == '\r' && x[j1] == '\n' && x[j2] == '\r' && x[j3] == '\n');
    j0
}

/// In a rendered response of clean headers the header block ends where
/// its own bytes end: no earlier four bytes are its end.
#[verifier::rlimit(40)]
pub proof fn lemma_first_delimiter(s: Seq<char>, pairs: Seq<Pair>, body: Seq<u8>)
    requires
        line_free(s),
        all_clean(pairs),
    ensures
        find(encode_utf8(head_block(s, pairs)) + delimiter() + body, delimiter()) == Some(
            encode_utf8(head_block(s, pairs)).len() as int,
        ),
{
    let block = head_block(s, pairs);
    let e = line_end();
    let x = block + e + e;
    let d = delimiter();
    let w = encode_utf8(block) + d + body;
    let at = encode_utf8(block).len() as int;
    lemma_mark_bytes();
    lemma_encode_concat(block, e + e);
    assert(x =~= block + (e + e));
    assert(encode_utf8(x) == encode_utf8(block) + d);
    assert(d.len() == 4);
    assert(occurs_at(w, d, at)) by {
        assert forall|k: int| 0 <= k < d.len() implies w[at + k] == #[trigger] d[k] by {}
    }
    lemma_block_no_blank(s, pairs);
    let z = block + e;
    assert(x.take(block.len() as int) =~= block);
    assert(offset(x, block.len() as int) == at);
    assert forall|b: int| 0 <= b < at implies !occurs_at(w, d, b) by {
        if occurs_at(w, d, b) {
            assert(occurs_at(encode_utf8(x), d, b)) by {
                assert forall|k: int| 0 <= k < d.len() implies encode_utf8(x)[b + k]
                    == #[trigger] d[k] by {
                    assert(w[b + k] == d[k]);
                    assert(w[b + k] == encode_utf8(x)[b + k]);
                }
            }
            let j = lemma_delimiter_in_text(x, b);
            if j >= block.len() {
                lemma_offset_grows(x, block.len() as int, j);
            }
            assert(j < block.len());
            assert(x[j] == z[j] && x[j + 1] == z[j + 1]);
            if j + 3 < z.len() {
                assert(x[j + 2] == z[j + 2] && x[j + 3] == z[j + 3]);
                assert(blank_at(z, j));
            } else {
                assert(j + 2 == z.len() - 1);
                assert(x[j + 2] == z[z.len() - 1]);
            }
        }
    }
    assert(is_first(w, d, at));
    lemma_find_some(w, d, at);
}

/// A chunk of text whose header block reads as `head`, and which holds
/// behind the block exactly the body that the headers declare, is framed
/// as that head and that body, with nothing left to read.
pub proof fn lemma_frame_whole(chunk: Seq<u8>, at: int, head: Head, body: Seq<u8>)
    requires
        valid_utf8(chunk),
        find(chunk, delimiter()) == Some(at),
        0 <= at,
        at + 4 <= chunk.len(),
        head_of(vstd::utf8::decode_utf8(chunk.subrange(0, at))) == Some(head),
        chunk.subrange(at + 4, chunk.len() as int) == body,
        declared_length(head.headers) == body.len(),
    ensures
        frame(chunk) == Ok::<Framed, ParserErr>(Framed { head, seed: body, remaining: 0 }),
{
    assert(body.take(body.len() as int) =~= body);
}

/// The bytes of a rendered response are text as far as its body is.
pub proof fn lemma_wire_shape(s: Seq<char>, pairs: Seq<Pair>, body: Seq<u8>)
    requires
        valid_utf8(body),
    ensures
        wire(s + line_end(), pairs, body) == encode_utf8(head_block(s, pairs)) + delimiter()
            + body,
        valid_utf8(wire(s + line_end(), pairs, body)),
{
    let block = head_block(s, pairs);
    let d = delimiter();
    let e = line_end();
    let w = wire(s + e, pairs, body);
    lemma_block_bytes(s, pairs);
    assert(w =~= encode_utf8(block) + d + body);
    lemma_mark_bytes();
    lemma_encode_concat(block, e + e);
    vstd::utf8::encode_utf8_valid_utf8(block + (e + e));
    vstd::utf8::valid_utf8_concat(encode_utf8(block) + d, body);
}

/// A rendered response reads back. Take a response whose status line is
/// three words and a line end, whose headers are clean, whose
/// `Content-Length` is the length of its body, and whose body is UTF-8,
/// as everything in a chunk has to be. Framing the bytes that it renders
/// to gives the words of the status line, the very header mapping and the
/// very body, with nothing left to read.
#[verifier::rlimit(40)]
pub proof fn law_round_trip(s: Seq<char>, pairs: Seq<Pair>, body: Seq<u8>)
    requires
        line_free(s),
        words(s).len() == 3,
        all_clean(pairs),
        declared_length(pairs_map(pairs)) == body.len(),
        valid_utf8(body),
    ensures
        frame(wire(s + line_end(), pairs, body)) == Ok::<Framed, ParserErr>(
            Framed {
                head: Head { tokens: words(s), headers: pairs_map(pairs) },
                seed: body,
                remaining: 0,
            },
        ),
{
    let block = head_block(s, pairs);
    let w = wire(s + line_end(), pairs, body);
    let at = encode_utf8(block).len() as int;
    lemma_wire_shape(s, pairs, body);
    lemma_first_delimiter(s, pairs, body);
    lemma_block_head(s, pairs);
    assert(delimiter().len() == 4);
    assert(w.subrange(0, at) =~= encode_utf8(block));
    vstd::utf8::encode_utf8_decode_utf8(block);
    assert(w.subrange(at + 4, w.len() as int) =~= body);
    lemma_frame_whole(w, at, Head { tokens: words(s), headers: pairs_map(pairs) }, body);
}

} // verus!
