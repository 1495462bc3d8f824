//! How requests follow one another in a stream of bytes.
//!
//! A request is read from its own bytes alone: what follows it, such as the next
//! request that a client sent along, neither changes it nor is used up by it. And
//! as long as a part of it is missing, more is asked for.

use vstd::prelude::*;

use crate::http;
use crate::http::{Chunked, Outcome};
use crate::numeral;
use crate::text;

verus! {

proof fn lemma_trailer(data: Seq<u8>)
    requires
        http::trailer_length(data) is Some,
    ensures
        2 <= http::trailer_length(data)->0 <= data.len(),
    decreases data.len(),
{
    text::lemma_index_from(data, text::crlf(), 0);
    let n = text::first_index(data, text::crlf())->0;
    if n > 0 {
        lemma_trailer(data.skip(n + 2));
    }
}

proof fn lemma_trailer_agrees(data: Seq<u8>, other: Seq<u8>)
    requires
        http::trailer_length(data) is Some,
        http::trailer_length(data)->0 <= other.len(),
        other.take(http::trailer_length(data)->0) == data.take(http::trailer_length(data)->0),
    ensures
        http::trailer_length(other) == http::trailer_length(data),
    decreases data.len(),
{
    lemma_trailer(data);
    text::lemma_index_from(data, text::crlf(), 0);
    let n = text::first_index(data, text::crlf())->0;
    let t = http::trailer_length(data)->0;
    if n > 0 {
        let rest = data.skip(n + 2);
        lemma_trailer(rest);
        assert(other.skip(n + 2).take(t - n - 2) =~= other.take(t).skip(n + 2));
        assert(rest.take(t - n - 2) =~= data.take(t).skip(n + 2));
        lemma_trailer_agrees(rest, other.skip(n + 2));
    }
    text::lemma_first_index_agrees(data, other, text::crlf(), t);
    text::lemma_index_from(other, text::crlf(), 0);
}

proof fn lemma_trailer_cut(data: Seq<u8>, n: int)
    requires
        http::trailer_length(data) is Some,
        0 <= n < http::trailer_length(data)->0,
    ensures
        http::trailer_length(data.take(n)) is None,
    decreases data.len(),
{
    lemma_trailer(data);
    text::lemma_index_from(data, text::crlf(), 0);
    let i = text::first_index(data, text::crlf())->0;
    let part = data.take(n);
    if n < i + 2 {
        text::lemma_first_index_cut(data, text::crlf(), n);
    } else {
        assert(part.take(n) =~= data.take(n));
        text::lemma_first_index_agrees(data, part, text::crlf(), n);
        let rest = data.skip(i + 2);
        lemma_trailer_cut(rest, n - i - 2);
        assert(part.skip(i + 2) =~= rest.take(n - i - 2));
    }
}

/// The chunk at the front of a chunked body that is complete: where its size line
/// ends, and its size.
proof fn lemma_chunk(data: Seq<u8>) -> (at: (int, int))
    requires
        http::unchunked(data) is Complete,
    ensures
        at.0 >= 0,
        at.0 + 2 <= data.len(),
        text::first_index(data, text::crlf()) == Some(at.0),
        http::chunk_size(data.take(at.0)) == Some(at.1),
        at.1 > 0 ==> at.0 + at.1 + 4 <= data.len(),
{
    text::lemma_index_from(data, text::crlf(), 0);
    let n = text::first_index(data, text::crlf())->0;
    (n, http::chunk_size(data.take(n))->0)
}

proof fn lemma_unchunked(data: Seq<u8>)
    requires
        http::unchunked(data) is Complete,
    ensures
        2 <= http::unchunked(data)->Complete_used <= data.len(),
    decreases data.len(),
{
    let (n, size) = lemma_chunk(data);
    if size > 0 {
        lemma_unchunked(data.skip(n + 2 + size + 2));
    } else {
        lemma_trailer(data.skip(n + 2));
    }
}

#[verifier::spinoff_prover]
proof fn lemma_unchunked_agrees(data: Seq<u8>, other: Seq<u8>)
    requires
        http::unchunked(data) is Complete,
        http::unchunked(data)->Complete_used <= other.len(),
        other.take(http::unchunked(data)->Complete_used) == data.take(
            http::unchunked(data)->Complete_used,
        ),
    ensures
        http::unchunked(other) == http::unchunked(data),
    decreases data.len(),
{
    lemma_unchunked(data);
    let used = http::unchunked(data)->Complete_used;
    let (n, size) = lemma_chunk(data);
    let start = n + 2;
    if size > 0 {
        let next = start + size + 2;
        let rest = data.skip(next);
        lemma_unchunked(rest);
        assert(other.skip(next).take(used - next) =~= other.take(used).skip(next));
        assert(rest.take(used - next) =~= data.take(used).skip(next));
        lemma_unchunked_agrees(rest, other.skip(next));
        assert(other.subrange(start + size, next) =~= other.take(used).subrange(
            start + size,
            next,
        ));
        assert(data.subrange(start + size, next) =~= data.take(used).subrange(start + size, next));
        assert(other.subrange(start, start + size) =~= other.take(used).subrange(
            start,
            start + size,
        ));
        assert(data.subrange(start, start + size) =~= data.take(used).subrange(
            start,
            start + size,
        ));
    } else {
        let rest = data.skip(start);
        lemma_trailer(rest);
        assert(other.skip(start).take(used - start) =~= other.take(used).skip(start));
        assert(rest.take(used - start) =~= data.take(used).skip(start));
        lemma_trailer_agrees(rest, other.skip(start));
    }
    text::lemma_first_index_agrees(data, other, text::crlf(), used);
    assert(other.take(n) =~= other.take(used).take(n));
    assert(data.take(n) =~= data.take(used).take(n));
}

#[verifier::spinoff_prover]
proof fn lemma_unchunked_cut(data: Seq<u8>, m: int)
    requires
        http::unchunked(data) is Complete,
        0 <= m < http::unchunked(data)->Complete_used,
    ensures
        http::unchunked(data.take(m)) is Incomplete,
    decreases data.len(),
{
    lemma_unchunked(data);
    let (n, size) = lemma_chunk(data);
    let start = n + 2;
    let part = data.take(m);
    if m < start {
        text::lemma_first_index_cut(data, text::crlf(), m);
    } else {
        assert(part.take(m) =~= data.take(m));
        text::lemma_first_index_agrees(data, part, text::crlf(), m);
        assert(part.take(n) =~= data.take(n));
        if size > 0 {
            let next = start + size + 2;
            if m >= next {
                let rest = data.skip(next);
                lemma_unchunked_cut(rest, m - next);
                assert(part.skip(next) =~= rest.take(m - next));
                assert(part.subrange(start + size, next) =~= data.subrange(start + size, next));
            }
        } else {
            lemma_trailer_cut(data.skip(start), m - start);
            assert(part.skip(start) =~= data.skip(start).take(m - start));
        }
    }
}

/// The bounds of a complete request: its head ends within the buffer, and the body
/// behind it.
pub proof fn lemma_complete(buffer: Seq<u8>)
    requires
        http::read_request(buffer) is Complete,
    ensures
        ({
            let end = text::first_index(buffer, text::blank_line());
            let used = http::read_request(buffer)->Complete_used;
            end is Some && 0 <= end->0 && end->0 + 4 <= used <= buffer.len()
        }),
{
    reveal(http::read_request);
    text::lemma_index_from(buffer, text::blank_line(), 0);
    let end = text::first_index(buffer, text::blank_line())->0;
    let head = http::read_head(text::decoded(buffer.take(end))->0)->Ok_0;
    let data = buffer.skip(end + 4);
    if http::comes_in_chunks(head.headers) {
        lemma_unchunked(data);
    } else {
        lemma_length_nonneg(head.headers);
    }
}

proof fn lemma_length_nonneg(headers: Map<Seq<char>, Seq<char>>)
    ensures
        http::content_length(headers) matches Some(n) ==> n >= 0,
{
    if headers.dom().contains("content-length"@) {
        let s = headers["content-length"@];
        numeral::lemma_digits_value_nonneg(s, 10);
        numeral::lemma_digits_value_nonneg(s.skip(1), 10);
    }
}

/// A request uses up some bytes of the buffer, and is what those bytes say: any
/// buffer that begins with them, whatever follows, gives the same request and
/// uses up the same bytes. So what is left behind it is the next request.
pub proof fn request_is_read_from_its_own_bytes(buffer: Seq<u8>, other: Seq<u8>)
    requires
        http::read_request(buffer) is Complete,
        http::read_request(buffer)->Complete_used <= other.len(),
        other.take(http::read_request(buffer)->Complete_used) == buffer.take(
            http::read_request(buffer)->Complete_used,
        ),
    ensures
        0 < http::read_request(buffer)->Complete_used <= buffer.len(),
        http::read_request(other) == http::read_request(buffer),
{
    reveal(http::read_request);
    lemma_complete(buffer);
    let used = http::read_request(buffer)->Complete_used;
    let end = text::first_index(buffer, text::blank_line())->0;
    text::lemma_first_index_agrees(buffer, other, text::blank_line(), used);
    assert(other.take(end) =~= other.take(used).take(end));
    assert(buffer.take(end) =~= buffer.take(used).take(end));
    let head = http::read_head(text::decoded(buffer.take(end))->0)->Ok_0;
    let start = end + 4;
    let data = buffer.skip(start);
    assert(other.skip(start).take(used - start) =~= other.take(used).skip(start));
    assert(data.take(used - start) =~= buffer.take(used).skip(start));
    if http::comes_in_chunks(head.headers) {
        lemma_unchunked_agrees(data, other.skip(start));
    }
}

/// Requests that come in one go are read one by one: behind the first stands the
/// next, untouched.
pub proof fn pipelined_requests_are_read_one_by_one(first: Seq<u8>, next: Seq<u8>)
    requires
        http::read_request(first) is Complete,
        http::read_request(first)->Complete_used == first.len(),
    ensures
        http::read_request(first + next) == http::read_request(first),
        (first + next).skip(http::read_request(first + next)->Complete_used) == next,
{
    let n = first.len() as int;
    assert((first + next).take(n) =~= first.take(n));
    request_is_read_from_its_own_bytes(first, first + next);
    assert((first + next).skip(n) =~= next);
}

/// While a part of a request is missing, more is asked for, and nothing else: the
/// rest of the head, or the rest of the body. The one exception is a head over the
/// limit that has not come to its end.
pub proof fn missing_part_is_asked_for(buffer: Seq<u8>, n: int)
    requires
        http::read_request(buffer) is Complete,
        0 <= n < http::read_request(buffer)->Complete_used,
        n <= http::MAX_HEAD || text::first_index(buffer, text::blank_line())->0 + 4 <= n,
    ensures
        http::read_request(buffer.take(n)) == if n < text::first_index(
            buffer,
            text::blank_line(),
        )->0 + 4 {
            Outcome::NeedMoreHeaders
        } else {
            Outcome::NeedMoreBody
        },
{
    reveal(http::read_request);
    lemma_complete(buffer);
    let end = text::first_index(buffer, text::blank_line())->0;
    let part = buffer.take(n);
    if n < end + 4 {
        text::lemma_first_index_cut(buffer, text::blank_line(), n);
    } else {
        assert(part.take(n) =~= buffer.take(n));
        text::lemma_first_index_agrees(buffer, part, text::blank_line(), n);
        assert(part.take(end) =~= buffer.take(end));
        let head = http::read_head(text::decoded(buffer.take(end))->0)->Ok_0;
        let start = end + 4;
        assert(part.skip(start) =~= buffer.skip(start).take(n - start));
        if http::comes_in_chunks(head.headers) {
            lemma_unchunked_cut(buffer.skip(start), n - start);
        }
    }
}

// --------------------------------------------------------------- chunked bodies

/// The line that announces a chunk of `n` bytes.
pub open spec fn size_line(n: nat) -> Seq<u8> {
    vstd::utf8::encode_utf8(numeral::in_radix(n, 16))
}

/// A body sent in chunks, with no extensions and no trailers.
pub open spec fn chunked(parts: Seq<Seq<u8>>) -> Seq<u8>
    decreases parts.len(),
{
    if parts.len() == 0 {
        size_line(0) + text::crlf() + text::crlf()
    } else {
        size_line(parts[0].len()) + text::crlf() + parts[0] + text::crlf() + chunked(
            parts.drop_first(),
        )
    }
}

/// The parts one after the other.
pub open spec fn joined(parts: Seq<Seq<u8>>) -> Seq<u8>
    decreases parts.len(),
{
    if parts.len() == 0 {
        seq![]
    } else {
        parts[0] + joined(parts.drop_first())
    }
}

/// A number in hexadecimal is made of digits and the letters up to f.
proof fn lemma_hexadecimal(n: nat)
    ensures
        numeral::in_radix(n, 16).len() > 0,
        forall|i: int|
            0 <= i < numeral::in_radix(n, 16).len() ==> {
                let c = #[trigger] numeral::in_radix(n, 16)[i];
                '0' <= c <= '9' || 'a' <= c <= 'f'
            },
    decreases n,
{
    if n >= 16 {
        numeral::lemma_quotient_below(n as int, 16);
        lemma_hexadecimal((n as int / 16) as nat);
    }
}

/// A size line says the size, and a line break behind it is the first one.
proof fn lemma_size_line(n: nat, rest: Seq<u8>)
    requires
        n <= usize::MAX,
    ensures
        http::chunk_size(size_line(n)) == Some(n as int),
        text::first_index(size_line(n) + text::crlf() + rest, text::crlf()) == Some(
            size_line(n).len() as int,
        ),
{
    let t = numeral::in_radix(n, 16);
    lemma_hexadecimal(n);
    numeral::number_round_trip(n, 16);
    vstd::utf8::is_ascii_chars_encode_utf8(t);
    vstd::utf8::encode_utf8_valid_utf8(t);
    vstd::utf8::encode_utf8_decode_utf8(t);
    text::lemma_first_index_absent(t, ';');
    text::lemma_trimmed_as_is(t);
    assert forall|i: int| 0 <= i < size_line(n).len() implies size_line(n)[i] != text::crlf()[0] by {
        assert(t[i] as u8 == size_line(n)[i]);
    }
    text::lemma_first_index_behind(size_line(n), text::crlf(), rest);
}

/// A body that was sent in chunks is read as it was before, whatever follows it,
/// and exactly its bytes are used up.
pub proof fn chunked_round_trip(parts: Seq<Seq<u8>>, more: Seq<u8>)
    requires
        forall|i: int| 0 <= i < parts.len() ==> 0 < #[trigger] parts[i].len() <= usize::MAX,
    ensures
        http::unchunked(chunked(parts) + more) == (Chunked::Complete {
            body: joined(parts),
            used: chunked(parts).len() as int,
        }),
    decreases parts.len(),
{
    let data = chunked(parts) + more;
    if parts.len() == 0 {
        let rest = text::crlf() + more;
        assert(data =~= size_line(0) + text::crlf() + rest);
        lemma_size_line(0, rest);
        let n = size_line(0).len() as int;
        assert(data.take(n) =~= size_line(0));
        assert(data.skip(n + 2) =~= Seq::<u8>::empty() + text::crlf() + more);
        text::lemma_first_index_behind(Seq::<u8>::empty(), text::crlf(), more);
    } else {
        let part = parts[0];
        let size = part.len() as int;
        let tail = chunked(parts.drop_first());
        let rest = part + text::crlf() + tail + more;
        assert(data =~= size_line(part.len()) + text::crlf() + rest);
        lemma_size_line(part.len(), rest);
        let n = size_line(part.len()).len() as int;
        let start = n + 2;
        assert(data.take(n) =~= size_line(part.len()));
        assert(data.subrange(start, start + size) =~= part);
        assert(data.subrange(start + size, start + size + 2) =~= text::crlf());
        assert(data.skip(start + size + 2) =~= tail + more);
        assert forall|i: int| 0 <= i < parts.drop_first().len() implies 0
            < #[trigger] parts.drop_first()[i].len() <= usize::MAX by {
            assert(parts.drop_first()[i] == parts[i + 1]);
        }
        chunked_round_trip(parts.drop_first(), more);
    }
}

// ------------------------------------------------------ requests as they are sent

/// A text that stays on one line: it has no carriage return.
pub open spec fn one_line(s: Seq<char>) -> bool {
    forall|i: int| 0 <= i < s.len() ==> #[trigger] s[i] != '\r'
}

/// A text with no white space at its ends.
pub open spec fn tight(s: Seq<char>) -> bool {
    s.len() > 0 ==> !text::is_space(s[0]) && !text::is_space(s.last())
}

/// A text without a character.
pub open spec fn free_of(s: Seq<char>, c: char) -> bool {
    forall|i: int| 0 <= i < s.len() ==> #[trigger] s[i] != c
}

/// The head of a request as a client writes it.
pub struct SentHead {
    pub method: Seq<char>,
    pub target: Seq<char>,
    pub version: Seq<char>,
    pub headers: Seq<(Seq<char>, Seq<char>)>,
}

/// The line of a header.
pub open spec fn header_line(header: (Seq<char>, Seq<char>)) -> Seq<char> {
    header.0 + seq![':'] + (seq![' '] + header.1)
}

/// The lines with line breaks between them.
pub open spec fn joined_lines(lines: Seq<Seq<char>>) -> Seq<char>
    decreases lines.len(),
{
    if lines.len() == 0 {
        seq![]
    } else if lines.len() == 1 {
        lines[0]
    } else {
        lines[0] + text::line_end() + joined_lines(lines.skip(1))
    }
}

/// The headers by name, in small letters, later ones replacing earlier ones.
pub open spec fn headers_by_name(
    headers: Seq<(Seq<char>, Seq<char>)>,
    found: Map<Seq<char>, Seq<char>>,
) -> Map<Seq<char>, Seq<char>>
    decreases headers.len(),
{
    if headers.len() == 0 {
        found
    } else {
        headers_by_name(
            headers.skip(1),
            found.insert(text::lowered(headers[0].0), headers[0].1),
        )
    }
}

impl SentHead {
    /// The request line.
    pub open spec fn request_line(self) -> Seq<char> {
        self.method + seq![' '] + (self.target + seq![' '] + self.version)
    }

    /// The request line and the headers.
    pub open spec fn lines(self) -> Seq<Seq<char>> {
        seq![self.request_line()] + Seq::new(
            self.headers.len(),
            |i: int| header_line(self.headers[i]),
        )
    }

    /// The bytes of the head, with the blank line that ends it.
    pub open spec fn bytes(self) -> Seq<u8> {
        vstd::utf8::encode_utf8(joined_lines(self.lines())) + text::blank_line()
    }

    /// The head is as the protocol has it.
    pub open spec fn well_formed(self) -> bool {
        &&& self.method.len() > 0
        &&& one_line(self.method) && free_of(self.method, ' ')
        &&& self.target.len() > 0 && self.target[0] == '/'
        &&& one_line(self.target) && free_of(self.target, ' ')
        &&& self.version == "HTTP/1.1"@ || self.version == "HTTP/1.0"@
        &&& forall|i: int|
            0 <= i < self.headers.len() ==> {
                let (name, value) = #[trigger] self.headers[i];
                &&& one_line(name) && free_of(name, ':') && tight(name)
                &&& one_line(value) && tight(value)
            }
    }

    /// The path that the target stands for, where it is well encoded.
    pub open spec fn path(self) -> Option<Seq<char>> {
        http::percent_decoded(http::path_and_query(self.target).0)
    }

    /// The headers by name.
    pub open spec fn header_map(self) -> Map<Seq<char>, Seq<char>> {
        headers_by_name(self.headers, Map::empty())
    }

    /// The request with this head and a body.
    pub open spec fn request(self, body: Seq<u8>) -> http::RequestView {
        http::RequestView {
            method: text::uppercased(self.method),
            path: self.path()->0,
            query: http::path_and_query(self.target).1,
            version: self.version,
            headers: self.header_map(),
            body,
        }
    }
}

/// A line has no carriage return among its bytes.
pub proof fn lemma_line_bytes(s: Seq<char>)
    requires
        one_line(s),
    ensures
        forall|i: int|
            0 <= i < vstd::utf8::encode_utf8(s).len() ==> #[trigger] vstd::utf8::encode_utf8(s)[i]
                != 13,
        s.len() > 0 ==> vstd::utf8::encode_utf8(s).len() > 0,
    decreases s.len(),
{
    if s.len() > 0 {
        let rest = s.drop_first();
        assert forall|i: int| 0 <= i < rest.len() implies #[trigger] rest[i] != '\r' by {
            assert(s[i + 1] != '\r');
        }
        lemma_line_bytes(rest);
        assert(s[0] != '\r');
        let c = s[0] as u32;
        vstd::utf8::char_is_scalar(s[0]);
        vstd::utf8::char_u32_cast(s[0], c);
        assert(13u32 as char == '\r');
        lemma_scalar_bytes(c);
        let first = vstd::utf8::encode_scalar(c);
        let all = vstd::utf8::encode_utf8(s);
        let tail = vstd::utf8::encode_utf8(rest);
        assert forall|i: int| 0 <= i < all.len() implies #[trigger] all[i] != 13 by {
            if i < first.len() {
                assert(all[i] == first[i]);
            } else {
                assert(all[i] == tail[i - first.len()]);
            }
        }
    }
}

/// The bytes of a character other than the carriage return.
proof fn lemma_scalar_bytes(c: u32)
    requires
        vstd::utf8::is_scalar(c),
        c != 13,
    ensures
        vstd::utf8::encode_scalar(c).len() > 0,
        forall|i: int|
            0 <= i < vstd::utf8::encode_scalar(c).len() ==> #[trigger] vstd::utf8::encode_scalar(
                c,
            )[i] != 13,
{
    assert(vstd::utf8::has_width_1_encoding(c) && c != 13 ==> vstd::utf8::leading_byte_width_1(c)
        != 13) by (bit_vector);
    assert(vstd::utf8::leading_byte_width_2(c) != 13) by (bit_vector);
    assert(vstd::utf8::leading_byte_width_3(c) != 13) by (bit_vector);
    assert(vstd::utf8::leading_byte_width_4(c) != 13) by (bit_vector);
    assert(vstd::utf8::last_continuation_byte(c) != 13) by (bit_vector);
    assert(vstd::utf8::second_last_continuation_byte(c) != 13) by (bit_vector);
    assert(vstd::utf8::third_last_continuation_byte(c) != 13) by (bit_vector);
}

/// Lines that are joined are told apart again.
pub proof fn lemma_lines_told_apart(lines: Seq<Seq<char>>)
    requires
        lines.len() > 0,
        forall|i: int| 0 <= i < lines.len() ==> one_line(#[trigger] lines[i]),
    ensures
        text::pieces(joined_lines(lines), text::line_end()) == lines,
    decreases lines.len(),
{
    let s = joined_lines(lines);
    let sep = text::line_end();
    assert(one_line(lines[0]));
    if lines.len() == 1 {
        text::lemma_index_from(s, sep, 0);
        if let Some(i) = text::first_index(s, sep) {
            assert(s.subrange(i, i + 2)[0] == s[i]);
            assert(sep[0] == '\r');
        }
        assert(lines =~= seq![lines[0]]);
    } else {
        let rest = lines.skip(1);
        assert forall|i: int| 0 <= i < rest.len() implies one_line(#[trigger] rest[i]) by {
            assert(one_line(lines[i + 1]));
        }
        lemma_lines_told_apart(rest);
        text::lemma_first_index_behind(lines[0], sep, joined_lines(rest));
        let n = lines[0].len() as int;
        assert(s.take(n) =~= lines[0]);
        assert(s.skip(n + 2) =~= joined_lines(rest));
        assert(seq![lines[0]] + rest =~= lines);
    }
}

/// The first blank line is the one behind the lines.
pub proof fn lemma_blank_line_found(lines: Seq<Seq<char>>, more: Seq<u8>)
    requires
        lines.len() > 0,
        forall|i: int| 0 <= i < lines.len() ==> one_line(#[trigger] lines[i]),
        forall|i: int| 0 < i < lines.len() ==> (#[trigger] lines[i]).len() > 0,
    ensures
        text::first_index(
            vstd::utf8::encode_utf8(joined_lines(lines)) + text::blank_line() + more,
            text::blank_line(),
        ) == Some(vstd::utf8::encode_utf8(joined_lines(lines)).len() as int),
    decreases lines.len(),
{
    let b = vstd::utf8::encode_utf8(joined_lines(lines));
    let blank = text::blank_line();
    let whole = b + blank + more;
    let first = vstd::utf8::encode_utf8(lines[0]);
    assert(one_line(lines[0]));
    lemma_line_bytes(lines[0]);
    let n = b.len() as int;
    let k = first.len() as int;
    if lines.len() > 1 {
        let rest = lines.skip(1);
        assert forall|i: int| 0 <= i < rest.len() implies one_line(#[trigger] rest[i]) by {
            assert(one_line(lines[i + 1]));
        }
        assert forall|i: int| 0 < i < rest.len() implies (#[trigger] rest[i]).len() > 0 by {
            assert(lines[i + 1].len() > 0);
        }
        lemma_blank_line_found(rest, more);
        let tail = vstd::utf8::encode_utf8(joined_lines(rest));
        text::lemma_bytes_of_parts(lines[0] + text::line_end(), joined_lines(rest));
        text::lemma_bytes_of_parts(lines[0], text::line_end());
        lemma_line_end_bytes();
        assert(b == first + text::crlf() + tail);
        lemma_first_line_byte(rest);
        assert(whole.skip(k + 2) =~= tail + blank + more);
        text::lemma_index_from(tail + blank + more, blank, 0);
        assert forall|j: int| 0 <= j < n implies !text::occurs_at(whole, blank, j) by {
            if text::occurs_at(whole, blank, j) {
                let w = whole.subrange(j, j + 4);
                assert(w[0] == whole[j] && w[1] == whole[j + 1] && w[2] == whole[j + 2]);
                if j < k {
                    assert(whole[j] == first[j]);
                } else if j == k {
                    assert(whole[k + 2] == tail[0]);
                } else if j > k + 1 {
                    let i = j - k - 2;
                    assert((tail + blank + more).subrange(i, i + 4) =~= w);
                    assert(text::occurs_at(tail + blank + more, blank, i));
                }
            }
        }
    } else {
        assert forall|j: int| 0 <= j < n implies !text::occurs_at(whole, blank, j) by {
            if text::occurs_at(whole, blank, j) {
                assert(whole.subrange(j, j + 4)[0] == whole[j]);
                assert(whole[j] == first[j]);
            }
        }
    }
    assert(whole.subrange(n, n + 4) =~= blank);
    text::lemma_first_index_is(whole, blank, n);
}

proof fn lemma_line_end_bytes()
    ensures
        vstd::utf8::encode_utf8(text::line_end()) == text::crlf(),
{
    let s = text::line_end();
    vstd::utf8::is_ascii_chars_encode_utf8(s);
    assert(s[0] as u8 == vstd::utf8::encode_utf8(s)[0]);
    assert(s[1] as u8 == vstd::utf8::encode_utf8(s)[1]);
    assert(vstd::utf8::encode_utf8(s) =~= text::crlf());
}

/// The bytes of lines, the first of which is not empty, begin with none of a line
/// break.
proof fn lemma_first_line_byte(lines: Seq<Seq<char>>)
    requires
        lines.len() > 0,
        one_line(lines[0]),
        lines[0].len() > 0,
    ensures
        vstd::utf8::encode_utf8(joined_lines(lines)).len() > 0,
        vstd::utf8::encode_utf8(joined_lines(lines))[0] != 13,
{
    lemma_line_bytes(lines[0]);
    if lines.len() > 1 {
        let rest = joined_lines(lines.skip(1));
        text::lemma_bytes_of_parts(lines[0] + text::line_end(), rest);
        text::lemma_bytes_of_parts(lines[0], text::line_end());
        let first = vstd::utf8::encode_utf8(lines[0]);
        assert(vstd::utf8::encode_utf8(joined_lines(lines))[0] == first[0]);
    }
}

/// The parts of a request line are told apart.
proof fn lemma_request_line(head: SentHead)
    requires
        head.well_formed(),
    ensures
        text::pieces(head.request_line(), seq![' ']) == seq![head.method, head.target, head.version],
        one_line(head.request_line()),
{
    reveal_strlit("HTTP/1.1");
    reveal_strlit("HTTP/1.0");
    let space = seq![' '];
    let line = head.request_line();
    let tail = head.target + space + head.version;
    text::lemma_first_index_behind(head.method, space, tail);
    assert(line.take(head.method.len() as int) =~= head.method);
    assert(line.skip(head.method.len() as int + 1) =~= tail);
    text::lemma_first_index_behind(head.target, space, head.version);
    assert(tail.take(head.target.len() as int) =~= head.target);
    assert(tail.skip(head.target.len() as int + 1) =~= head.version);
    text::lemma_first_index_absent(head.version, ' ');
    assert(text::pieces(head.version, space) == seq![head.version]);
    assert(text::pieces(tail, space) =~= seq![head.target, head.version]);
    assert(text::pieces(line, space) =~= seq![head.method, head.target, head.version]);
}

/// The headers are read as they were sent.
proof fn lemma_headers_read(
    headers: Seq<(Seq<char>, Seq<char>)>,
    lines: Seq<Seq<char>>,
    found: Map<Seq<char>, Seq<char>>,
)
    requires
        lines.len() == headers.len(),
        forall|i: int|
            0 <= i < headers.len() ==> {
                let (name, value) = #[trigger] headers[i];
                free_of(name, ':') && tight(name) && tight(value) && lines[i] == header_line(
                    (name, value),
                )
            },
    ensures
        http::header_map(lines, found) == Some(headers_by_name(headers, found)),
    decreases headers.len(),
{
    if headers.len() > 0 {
        let (name, value) = headers[0];
        let line = lines[0];
        let colon = seq![':'];
        text::lemma_first_index_behind(name, colon, seq![' '] + value);
        assert(line.take(name.len() as int) =~= name);
        assert(line.skip(name.len() as int + 1) =~= seq![' '] + value);
        text::lemma_trimmed_as_is(name);
        let spaced = seq![' '] + value;
        assert(spaced.drop_first() =~= value);
        text::lemma_trimmed_as_is(value);
        assert(text::trimmed(spaced) == value);
        let next = found.insert(text::lowered(name), value);
        assert forall|i: int| 0 <= i < headers.skip(1).len() implies {
            let (name, value) = #[trigger] headers.skip(1)[i];
            free_of(name, ':') && tight(name) && tight(value) && lines.skip(1)[i] == header_line(
                (name, value),
            )
        } by {
            assert(headers[i + 1] == headers.skip(1)[i]);
        }
        lemma_headers_read(headers.skip(1), lines.skip(1), next);
        assert(lines.drop_first() =~= lines.skip(1));
    }
}

/// The head of a request is read as it was sent.
pub proof fn lemma_head_read(head: SentHead, more: Seq<u8>)
    requires
        head.well_formed(),
        head.path() is Some,
    ensures
        ({
            let whole = head.bytes() + more;
            let end = text::first_index(whole, text::blank_line());
            &&& end == Some(head.bytes().len() - 4)
            &&& whole.skip(end->0 + 4) == more
            &&& text::decoded(whole.take(end->0)) == Some(joined_lines(head.lines()))
            &&& http::read_head(joined_lines(head.lines())) == Ok::<http::Head, Seq<char>>(
                http::Head {
                    method: text::uppercased(head.method),
                    path: head.path()->0,
                    query: http::path_and_query(head.target).1,
                    version: head.version,
                    headers: head.header_map(),
                },
            )
        }),
{
    let lines = head.lines();
    lemma_request_line(head);
    assert forall|i: int| 0 <= i < lines.len() implies one_line(#[trigger] lines[i]) && (i > 0
        ==> lines[i].len() > 0) by {
        if i > 0 {
            let (name, value) = head.headers[i - 1];
            assert(lines[i] == header_line((name, value)));
            assert(one_line(name) && one_line(value));
        }
    }
    lemma_lines_told_apart(lines);
    lemma_blank_line_found(lines, more);
    let t = joined_lines(lines);
    let whole = head.bytes() + more;
    let n = vstd::utf8::encode_utf8(t).len() as int;
    assert(whole =~= vstd::utf8::encode_utf8(t) + text::blank_line() + more);
    assert(whole.take(n) =~= vstd::utf8::encode_utf8(t));
    assert(whole.skip(n + 4) =~= more);
    vstd::utf8::encode_utf8_valid_utf8(t);
    vstd::utf8::encode_utf8_decode_utf8(t);
    let behind = lines.skip(1);
    assert forall|i: int| 0 <= i < head.headers.len() implies {
        let (name, value) = #[trigger] head.headers[i];
        free_of(name, ':') && tight(name) && tight(value) && behind[i] == header_line(
            (name, value),
        )
    } by {}
    lemma_headers_read(head.headers, behind, Map::empty());
}

/// A request that is written as the protocol has it is read as it was written, with
/// the body that its `Content-Length` announces, whatever follows it, and exactly its
/// bytes are used up.
pub proof fn sent_request_is_read(head: SentHead, body: Seq<u8>, more: Seq<u8>)
    requires
        head.well_formed(),
        head.path() is Some,
        !http::comes_in_chunks(head.header_map()),
        http::content_length(head.header_map()) == Some(body.len() as int),
    ensures
        http::read_request(head.bytes() + body + more) == (Outcome::Complete {
            request: head.request(body),
            used: (head.bytes().len() + body.len()) as int,
        }),
{
    reveal(http::read_request);
    lemma_head_read(head, body + more);
    assert(head.bytes() + body + more =~= head.bytes() + (body + more));
    assert((body + more).take(body.len() as int) =~= body);
}

/// A request whose body is sent in chunks is the one whose body is sent as a whole:
/// it is read with the same body, however the body was cut, and exactly its bytes
/// are used up.
pub proof fn sent_chunked_request_is_read(head: SentHead, parts: Seq<Seq<u8>>, more: Seq<u8>)
    requires
        head.well_formed(),
        head.path() is Some,
        http::comes_in_chunks(head.header_map()),
        forall|i: int| 0 <= i < parts.len() ==> 0 < #[trigger] parts[i].len() <= usize::MAX,
    ensures
        http::read_request(head.bytes() + chunked(parts) + more) == (Outcome::Complete {
            request: head.request(joined(parts)),
            used: (head.bytes().len() + chunked(parts).len()) as int,
        }),
{
    reveal(http::read_request);
    lemma_head_read(head, chunked(parts) + more);
    assert(head.bytes() + chunked(parts) + more =~= head.bytes() + (chunked(parts) + more));
    chunked_round_trip(parts, more);
}

} // verus!
