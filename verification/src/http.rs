//! HTTP/1.1 request parsing (Content-Length and chunked bodies) and
//! response building.

use vstd::prelude::*;
use vstd::slice::{slice_subrange, slice_to_vec};

use crate::date;
use crate::numeral;
use crate::strmap::StrMap;
use crate::text;

verus! {

/// A parsed request.
#[derive(Debug, Clone, PartialEq)]
pub struct Request {
    pub method: String,
    /// Path only, percent-decoded, without the query string.
    pub path: String,
    pub query: String,
    pub version: String,
    /// Header names lowercased.
    pub headers: StrMap,
    pub body: Vec<u8>,
}

/// What a request says.
#[verifier::ext_equal]
pub struct RequestView {
    pub method: Seq<char>,
    pub path: Seq<char>,
    pub query: Seq<char>,
    pub version: Seq<char>,
    pub headers: Map<Seq<char>, Seq<char>>,
    pub body: Seq<u8>,
}

impl View for Request {
    type V = RequestView;

    open spec fn view(&self) -> RequestView {
        RequestView {
            method: self.method@,
            path: self.path@,
            query: self.query@,
            version: self.version@,
            headers: self.headers@,
            body: self.body@,
        }
    }
}

/// The cookies in the pieces of a `Cookie` header, later ones replacing earlier
/// ones of the same name; `found` is what came before.
pub open spec fn cookie_pairs(
    parts: Seq<Seq<char>>,
    found: Map<Seq<char>, Seq<char>>,
) -> Map<Seq<char>, Seq<char>>
    decreases parts.len(),
{
    if parts.len() == 0 {
        found
    } else {
        let next = match text::cut_at(text::trimmed(parts[0]), '=') {
            Some((name, value)) => found.insert(name, value),
            None => found,
        };
        cookie_pairs(parts.drop_first(), next)
    }
}

impl RequestView {
    /// The value of a header, whatever the case of its name.
    pub open spec fn header(self, name: Seq<char>) -> Option<Seq<char>> {
        if self.headers.dom().contains(text::lowered(name)) {
            Some(self.headers[text::lowered(name)])
        } else {
            None
        }
    }

    /// The connection stays open: as the `Connection` header says, or else by
    /// default in HTTP/1.1.
    pub open spec fn keeps_alive(self) -> bool {
        match self.header("connection"@) {
            Some(value) => {
                if text::holds(text::lowered(value), "close"@) {
                    false
                } else if text::holds(text::lowered(value), "keep-alive"@) {
                    true
                } else {
                    self.version == "HTTP/1.1"@
                }
            },
            None => self.version == "HTTP/1.1"@,
        }
    }

    /// The host that the request names, without the port.
    pub open spec fn host_name(self) -> Option<Seq<char>> {
        match self.header("host"@) {
            Some(value) => Some(text::lowered(text::before(value, ':'))),
            None => None,
        }
    }

    /// The cookies that the request carries.
    pub open spec fn cookie_map(self) -> Map<Seq<char>, Seq<char>> {
        match self.header("cookie"@) {
            Some(value) => cookie_pairs(text::pieces(value, seq![';']), Map::empty()),
            None => Map::empty(),
        }
    }
}

impl Request {
    /// The value of a header, whatever the case of its name.
    pub fn header(&self, name: &str) -> (value: Option<&str>)
        ensures
            text::shown_str(value) == self@.header(name@),
    {
        let chars: Vec<char> = text::chars_of(name);
        let key: String = text::text_of(text::to_ascii_lowercase(chars.as_slice()).as_slice());
        match self.headers.get(key.as_str()) {
            Some(value) => Some(value.as_str()),
            None => None,
        }
    }

    /// Whether the connection stays open after the answer.
    pub fn keep_alive(&self) -> (keep: bool)
        ensures
            keep == self@.keeps_alive(),
    {
        if let Some(value) = self.header("connection") {
            let chars: Vec<char> = text::chars_of(value);
            let lower: Vec<char> = text::to_ascii_lowercase(chars.as_slice());
            if text::contains(lower.as_slice(), "close") {
                return false;
            }
            if text::contains(lower.as_slice(), "keep-alive") {
                return true;
            }
        }
        text::same_text(self.version.as_str(), "HTTP/1.1")
    }

    /// Host header without the port part.
    pub fn hostname(&self) -> (host: Option<String>)
        ensures
            text::shown(host) == self@.host_name(),
    {
        match self.header("host") {
            Some(value) => {
                let chars: Vec<char> = text::chars_of(value);
                let name: Vec<char> = text::to_ascii_lowercase(text::up_to(chars.as_slice(), ':'));
                Some(text::text_of(name.as_slice()))
            },
            None => None,
        }
    }

    /// The cookies that the request carries.
    pub fn cookies(&self) -> (cookies: StrMap)
        ensures
            cookies@ == self@.cookie_map(),
    {
        let mut cookies: StrMap = StrMap::new();
        if let Some(header) = self.header("cookie") {
            let chars: Vec<char> = text::chars_of(header);
            let parts: Vec<&[char]> = text::split_char(chars.as_slice(), ';');
            let ghost all = text::contents(parts@);
            let mut i: usize = 0;
            assert(all.skip(0) =~= all);
            while i < parts.len()
                invariant
                    i <= parts@.len(),
                    all == text::contents(parts@),
                    cookie_pairs(all.skip(i as int), cookies@) == cookie_pairs(all, Map::empty()),
                decreases parts@.len() - i,
            {
                assert(all.skip(i as int).drop_first() =~= all.skip(i + 1));
                if let Some((name, value)) = text::split_once(text::trim(parts[i]), '=') {
                    cookies.insert(text::text_of(name), text::text_of(value));
                }
                i += 1;
            }
        }
        cookies
    }
}

/// What the parser needs next.
#[derive(Debug, PartialEq)]
pub enum ParseStatus {
    /// Headers are not complete yet.
    NeedMoreHeaders,
    /// Headers parsed; the body is not complete yet.
    NeedMoreBody,
    /// A full request was parsed, consuming `used` bytes of the buffer.
    Complete { request: Request, used: usize },
    /// The request is malformed beyond repair.
    Bad(&'static str),
}

/// What the parser made of a buffer.
pub enum Outcome {
    NeedMoreHeaders,
    NeedMoreBody,
    Complete { request: RequestView, used: int },
    Bad(Seq<char>),
}

impl View for ParseStatus {
    type V = Outcome;

    open spec fn view(&self) -> Outcome {
        match self {
            ParseStatus::NeedMoreHeaders => Outcome::NeedMoreHeaders,
            ParseStatus::NeedMoreBody => Outcome::NeedMoreBody,
            ParseStatus::Complete { request, used } => Outcome::Complete {
                request: request@,
                used: *used as int,
            },
            ParseStatus::Bad(why) => Outcome::Bad(why@),
        }
    }
}

// ------------------------------------------------------------ percent-encoding

/// The bytes behind a percent-encoded byte string; a plus sign is a space.
pub open spec fn unescaped(b: Seq<u8>) -> Option<Seq<u8>>
    decreases b.len(),
{
    if b.len() == 0 {
        Some(seq![])
    } else if b[0] == 37 {
        if b.len() < 3 {
            None
        } else {
            match (
                numeral::digit_value(b[1] as char, 16),
                numeral::digit_value(b[2] as char, 16),
                unescaped(b.skip(3)),
            ) {
                (Some(hi), Some(lo), Some(rest)) => Some(seq![(hi * 16 + lo) as u8] + rest),
                _ => None,
            }
        }
    } else {
        let first = if b[0] == 43 {
            32u8
        } else {
            b[0]
        };
        match unescaped(b.skip(1)) {
            Some(rest) => Some(seq![first] + rest),
            None => None,
        }
    }
}

/// The text behind a percent-encoded text.
pub open spec fn percent_decoded(s: Seq<char>) -> Option<Seq<char>> {
    match unescaped(vstd::utf8::encode_utf8(s)) {
        Some(b) => text::decoded(b),
        None => None,
    }
}

/// The bytes percent-encoded, every one of them.
pub open spec fn escaped(b: Seq<u8>) -> Seq<u8>
    decreases b.len(),
{
    if b.len() == 0 {
        seq![]
    } else {
        seq![
            37u8,
            numeral::digit_char(b[0] as int / 16) as u8,
            numeral::digit_char(b[0] as int % 16) as u8,
        ] + escaped(b.skip(1))
    }
}

/// Decoding undoes percent-encoding.
pub proof fn percent_encoding_round_trip(b: Seq<u8>)
    ensures
        unescaped(escaped(b)) == Some(b),
    decreases b.len(),
{
    let e = escaped(b);
    if b.len() > 0 {
        percent_encoding_round_trip(b.skip(1));
        numeral::lemma_digit_round_trip(b[0] as int / 16, 16);
        numeral::lemma_digit_round_trip(b[0] as int % 16, 16);
        assert(e.skip(3) =~= escaped(b.skip(1)));
        assert(seq![b[0]] + b.skip(1) =~= b);
    } else {
        assert(b =~= seq![]);
    }
}

/// A text without percent and plus signs decodes to itself.
pub proof fn plain_text_decodes_to_itself(s: Seq<char>)
    requires
        forall|i: int|
            0 <= i < vstd::utf8::encode_utf8(s).len() ==> {
                let b = #[trigger] vstd::utf8::encode_utf8(s)[i];
                b != 37 && b != 43
            },
    ensures
        percent_decoded(s) == Some(s),
{
    lemma_unescaped_plain(vstd::utf8::encode_utf8(s));
    vstd::utf8::encode_utf8_valid_utf8(s);
    vstd::utf8::encode_utf8_decode_utf8(s);
}

proof fn lemma_unescaped_plain(b: Seq<u8>)
    requires
        forall|i: int| 0 <= i < b.len() ==> #[trigger] b[i] != 37 && b[i] != 43,
    ensures
        unescaped(b) == Some(b),
    decreases b.len(),
{
    if b.len() > 0 {
        assert forall|i: int| 0 <= i < b.skip(1).len() implies #[trigger] b.skip(1)[i] != 37
            && b.skip(1)[i] != 43 by {
            assert(b[i + 1] != 37);
        }
        lemma_unescaped_plain(b.skip(1));
        assert(seq![b[0]] + b.skip(1) =~= b);
    } else {
        assert(b =~= seq![]);
    }
}

/// Decodes a percent-encoded text.
pub fn percent_decode(input: &str) -> (decoded: Option<String>)
    ensures
        text::shown(decoded) == percent_decoded(input@),
{
    let bytes: &[u8] = input.as_bytes();
    let ghost all = bytes@;
    let mut out: Vec<u8> = Vec::new();
    let mut i: usize = 0;
    assert(all.skip(0) =~= all);
    assert(unescaped(all) matches Some(r) ==> out@ + r =~= r);
    while i < bytes.len()
        invariant
            all == bytes@,
            all == vstd::utf8::encode_utf8(input@),
            i <= bytes.len(),
            match unescaped(all.skip(i as int)) {
                Some(r) => unescaped(all) == Some(out@ + r),
                None => unescaped(all) is None,
            },
        decreases bytes.len() - i,
    {
        let ghost here = all.skip(i as int);
        let ghost done = out@;
        if bytes[i] == 37 {
            if bytes.len() - i < 3 {
                return None;
            }
            assert(here.skip(3) =~= all.skip(i + 3));
            let hi: Option<u64> = numeral::digit(bytes[i + 1] as char, 16);
            let lo: Option<u64> = numeral::digit(bytes[i + 2] as char, 16);
            match (hi, lo) {
                (Some(h), Some(l)) => {
                    let value: u8 = (h * 16 + l) as u8;
                    out.push(value);
                    proof {
                        if let Some(r) = unescaped(all.skip(i + 3)) {
                            assert(done + (seq![value] + r) =~= out@ + r);
                        }
                    }
                },
                _ => {
                    return None;
                },
            }
            i += 3;
        } else {
            assert(here.skip(1) =~= all.skip(i + 1));
            let value: u8 = if bytes[i] == 43 {
                32
            } else {
                bytes[i]
            };
            out.push(value);
            proof {
                if let Some(r) = unescaped(all.skip(i + 1)) {
                    assert(done + (seq![value] + r) =~= out@ + r);
                }
            }
            i += 1;
        }
    }
    proof {
        assert(all.skip(i as int) =~= Seq::<u8>::empty());
        assert(out@ + Seq::<u8>::empty() =~= out@);
    }
    match text::decode(out.as_slice()) {
        Some(chars) => Some(text::text_of(chars.as_slice())),
        None => None,
    }
}

// --------------------------------------------------------------- chunked bodies

/// What a chunked body amounts to.
pub enum Chunked {
    /// The whole body, and how many bytes it took up.
    Complete { body: Seq<u8>, used: int },
    Incomplete,
    Bad,
}

/// The length of a trailer section: its lines up to and with the blank one.
pub open spec fn trailer_length(data: Seq<u8>) -> Option<int>
    decreases data.len(),
{
    match text::first_index(data, text::crlf()) {
        Some(n) => {
            proof {
                text::lemma_index_from(data, text::crlf(), 0);
            }
            if n == 0 {
                Some(2)
            } else {
                match trailer_length(data.skip(n + 2)) {
                    Some(rest) => Some(n + 2 + rest),
                    None => None,
                }
            }
        },
        None => None,
    }
}

/// The size that a chunk-size line announces: a hexadecimal number, which an
/// extension may follow behind a semicolon.
pub open spec fn chunk_size(line: Seq<u8>) -> Option<int> {
    match text::decoded(line) {
        Some(t) => numeral::number_within(
            text::trimmed(text::before(t, ';')),
            16,
            usize::MAX as int,
        ),
        None => None,
    }
}

/// What stands in front of the rest of a chunked body.
pub open spec fn behind(body: Seq<u8>, used: int, rest: Chunked) -> Chunked {
    match rest {
        Chunked::Complete { body: b, used: u } => Chunked::Complete { body: body + b, used: used + u },
        _ => rest,
    }
}

/// Decodes a chunked body: chunks, each with its size before it, up to one of
/// size zero, and the trailer section.
pub open spec fn unchunked(data: Seq<u8>) -> Chunked
    decreases data.len(),
{
    match text::first_index(data, text::crlf()) {
        None => Chunked::Incomplete,
        Some(n) => {
            proof {
                text::lemma_index_from(data, text::crlf(), 0);
            }
            let start = n + 2;
            match chunk_size(data.take(n)) {
                None => Chunked::Bad,
                Some(size) => {
                    if size <= 0 {
                        match trailer_length(data.skip(start)) {
                            Some(t) => Chunked::Complete { body: seq![], used: start + t },
                            None => Chunked::Incomplete,
                        }
                    } else if data.len() < start + size + 2 {
                        Chunked::Incomplete
                    } else if data.subrange(start + size, start + size + 2) != text::crlf() {
                        Chunked::Bad
                    } else {
                        behind(
                            data.subrange(start, start + size),
                            start + size + 2,
                            unchunked(data.skip(start + size + 2)),
                        )
                    }
                },
            }
        },
    }
}

pub enum ChunkStatus {
    Complete { body: Vec<u8>, used: usize },
    Incomplete,
    Bad,
}

impl View for ChunkStatus {
    type V = Chunked;

    open spec fn view(&self) -> Chunked {
        match self {
            ChunkStatus::Complete { body, used } => Chunked::Complete {
                body: body@,
                used: *used as int,
            },
            ChunkStatus::Incomplete => Chunked::Incomplete,
            ChunkStatus::Bad => Chunked::Bad,
        }
    }
}

/// The length of the trailer section at the front of `data`.
fn skip_trailers(data: &[u8]) -> (length: Option<usize>)
    ensures
        match length {
            Some(n) => trailer_length(data@) == Some(n as int) && n <= data.len(),
            None => trailer_length(data@) is None,
        },
{
    let mut t: usize = 0;
    assert(data@.skip(0) =~= data@);
    loop
        invariant
            t <= data.len(),
            match trailer_length(data@.skip(t as int)) {
                Some(n) => trailer_length(data@) == Some(t + n),
                None => trailer_length(data@) is None,
            },
        decreases data.len() - t,
    {
        let rest: &[u8] = slice_subrange(data, t, data.len());
        assert(rest@ =~= data@.skip(t as int));
        match text::find_crlf(rest) {
            Some(n) => {
                assert(rest@.skip(n + 2) =~= data@.skip(t + n + 2));
                t += n + 2;
                if n == 0 {
                    return Some(t);
                }
            },
            None => {
                return None;
            },
        }
    }
}

/// Reads the size that a chunk-size line announces.
fn read_chunk_size(line: &[u8]) -> (size: Option<usize>)
    ensures
        match size {
            Some(n) => chunk_size(line@) == Some(n as int),
            None => chunk_size(line@) is None,
        },
{
    match text::decode(line) {
        Some(chars) => {
            let size_text: &[char] = text::trim(text::up_to(chars.as_slice(), ';'));
            match numeral::parse_number(size_text, 16, usize::MAX as u64) {
                Some(n) => Some(n as usize),
                None => None,
            }
        },
        None => None,
    }
}

/// Decodes the chunked body at the front of `data`.
pub fn decode_chunked(data: &[u8]) -> (status: ChunkStatus)
    ensures
        status@ == unchunked(data@),
        status matches ChunkStatus::Complete { used, .. } ==> used <= data.len(),
{
    let mut body: Vec<u8> = Vec::new();
    let mut cursor: usize = 0;
    proof {
        assert(data@.skip(0) =~= data@);
        lemma_behind_nothing(unchunked(data@));
    }
    loop
        invariant
            cursor <= data.len(),
            behind(body@, cursor as int, unchunked(data@.skip(cursor as int))) == unchunked(data@),
        decreases data.len() - cursor,
    {
        let rest: &[u8] = slice_subrange(data, cursor, data.len());
        let ghost here = data@.skip(cursor as int);
        assert(rest@ =~= here);
        let n: usize = match text::find_crlf(rest) {
            Some(n) => n,
            None => {
                return ChunkStatus::Incomplete;
            },
        };
        let line: &[u8] = slice_subrange(rest, 0, n);
        assert(line@ =~= here.take(n as int));
        let size: usize = match read_chunk_size(line) {
            Some(size) => size,
            None => {
                return ChunkStatus::Bad;
            },
        };
        let start: usize = n + 2;
        if size == 0 {
            // The trailer section ends with an empty line.
            let tail: &[u8] = slice_subrange(rest, start, rest.len());
            assert(tail@ =~= here.skip(start as int));
            match skip_trailers(tail) {
                Some(t) => {
                    assert(body@ + Seq::<u8>::empty() =~= body@);
                    return ChunkStatus::Complete { body, used: cursor + start + t };
                },
                None => {
                    return ChunkStatus::Incomplete;
                },
            }
        }
        if rest.len() - start < 2 || rest.len() - start - 2 < size {
            return ChunkStatus::Incomplete;
        }
        let sep: [u8; 2] = [13, 10];
        assert(sep@ =~= text::crlf());
        if !text::stands_at(rest, &sep, start + size) {
            return ChunkStatus::Bad;
        }
        let chunk: &[u8] = slice_subrange(rest, start, start + size);
        let ghost done = body@;
        body.extend_from_slice(chunk);
        proof {
            assert(body@ =~= done + chunk@);
            assert(here.skip(start + size + 2) =~= data@.skip(cursor + start + size + 2));
            lemma_behind_twice(
                done,
                cursor as int,
                chunk@,
                start + size + 2,
                unchunked(here.skip(start + size + 2)),
            );
        }
        cursor = cursor + start + size + 2;
    }
}

proof fn lemma_behind_nothing(rest: Chunked)
    ensures
        behind(seq![], 0, rest) == rest,
{
    if let Chunked::Complete { body, used } = rest {
        assert(Seq::<u8>::empty() + body =~= body);
    }
}

proof fn lemma_behind_twice(a: Seq<u8>, m: int, b: Seq<u8>, n: int, rest: Chunked)
    ensures
        behind(a, m, behind(b, n, rest)) == behind(a + b, m + n, rest),
{
    if let Chunked::Complete { body, used } = rest {
        assert(a + (b + body) =~= (a + b) + body);
    }
}

// ------------------------------------------------------------ the request head

/// The head of a request: its request line and headers.
pub struct Head {
    pub method: Seq<char>,
    pub path: Seq<char>,
    pub query: Seq<char>,
    pub version: Seq<char>,
    pub headers: Map<Seq<char>, Seq<char>>,
}

/// The headers in the lines of a head, names in small letters, later ones
/// replacing earlier ones; `found` is what came before. A line without a colon
/// spoils them all.
pub open spec fn header_map(
    lines: Seq<Seq<char>>,
    found: Map<Seq<char>, Seq<char>>,
) -> Option<Map<Seq<char>, Seq<char>>>
    decreases lines.len(),
{
    if lines.len() == 0 {
        Some(found)
    } else if lines[0].len() == 0 {
        header_map(lines.drop_first(), found)
    } else {
        match text::cut_at(lines[0], ':') {
            Some((name, value)) => header_map(
                lines.drop_first(),
                found.insert(text::lowered(text::trimmed(name)), text::trimmed(value)),
            ),
            None => None,
        }
    }
}

/// A request line has three parts, the first not empty, the second a path.
pub open spec fn well_formed_request_line(parts: Seq<Seq<char>>) -> bool {
    &&& parts.len() == 3
    &&& parts[0].len() > 0
    &&& parts[1].len() > 0
    &&& parts[1][0] == '/'
}

/// The target of a request before and behind the first question mark.
pub open spec fn path_and_query(target: Seq<char>) -> (Seq<char>, Seq<char>) {
    match text::cut_at(target, '?') {
        Some((path, query)) => (path, query),
        None => (target, seq![]),
    }
}

/// Reads the head of a request, or says what is wrong with it.
pub open spec fn read_head(head: Seq<char>) -> Result<Head, Seq<char>> {
    let lines = text::pieces(head, text::line_end());
    let parts = text::pieces(lines[0], seq![' ']);
    if !well_formed_request_line(parts) {
        Err("malformed request line"@)
    } else if parts[2] != "HTTP/1.1"@ && parts[2] != "HTTP/1.0"@ {
        Err("unsupported protocol version"@)
    } else {
        match header_map(lines.skip(1), Map::empty()) {
            None => Err("malformed header line"@),
            Some(headers) => {
                let (raw_path, query) = path_and_query(parts[1]);
                match percent_decoded(raw_path) {
                    None => Err("bad percent-encoding in path"@),
                    Some(path) => Ok(
                        Head {
                            method: text::uppercased(parts[0]),
                            path,
                            query,
                            version: parts[2],
                            headers,
                        },
                    ),
                }
            },
        }
    }
}

/// The request with this head and body.
pub open spec fn with_head(head: Head, body: Seq<u8>) -> RequestView {
    RequestView {
        method: head.method,
        path: head.path,
        query: head.query,
        version: head.version,
        headers: head.headers,
        body,
    }
}

/// The body comes in chunks.
pub open spec fn comes_in_chunks(headers: Map<Seq<char>, Seq<char>>) -> bool {
    &&& headers.dom().contains("transfer-encoding"@)
    &&& text::holds(text::lowered(headers["transfer-encoding"@]), "chunked"@)
}

/// The length that the headers announce for the body; zero where they say nothing.
pub open spec fn content_length(headers: Map<Seq<char>, Seq<char>>) -> Option<int> {
    if headers.dom().contains("content-length"@) {
        numeral::number_within(headers["content-length"@], 10, usize::MAX as int)
    } else {
        Some(0)
    }
}

/// The request with this head, whose body is at the front of `data`; `start` is
/// how many bytes the head took up.
pub open spec fn read_body(head: Head, data: Seq<u8>, start: int) -> Outcome {
    if comes_in_chunks(head.headers) {
        match unchunked(data) {
            Chunked::Complete { body, used } => Outcome::Complete {
                request: with_head(head, body),
                used: start + used,
            },
            Chunked::Incomplete => Outcome::NeedMoreBody,
            Chunked::Bad => Outcome::Bad("malformed chunked body"@),
        }
    } else {
        match content_length(head.headers) {
            None => Outcome::Bad("invalid content-length"@),
            Some(n) => if data.len() < n {
                Outcome::NeedMoreBody
            } else {
                Outcome::Complete { request: with_head(head, data.take(n)), used: start + n }
            },
        }
    }
}

/// The largest header section that is waited for, in bytes.
pub const MAX_HEAD: usize = 32768;

/// What a buffer amounts to: one request at its front, a part of one, or none.
#[verifier::opaque]
pub open spec fn read_request(buffer: Seq<u8>) -> Outcome {
    match text::first_index(buffer, text::blank_line()) {
        None => if buffer.len() > MAX_HEAD {
            Outcome::Bad("header section too large"@)
        } else {
            Outcome::NeedMoreHeaders
        },
        Some(end) => match text::decoded(buffer.take(end)) {
            None => Outcome::Bad("headers are not valid utf-8"@),
            Some(head) => match read_head(head) {
                Err(why) => Outcome::Bad(why),
                Ok(head) => read_body(head, buffer.skip(end + 4), end + 4),
            },
        },
    }
}

/// A head, as the parser holds it.
struct ParsedHead {
    method: String,
    path: String,
    query: String,
    version: String,
    headers: StrMap,
}

impl ParsedHead {
    spec fn shows(self, head: Head) -> bool {
        &&& self.method@ == head.method
        &&& self.path@ == head.path
        &&& self.query@ == head.query
        &&& self.version@ == head.version
        &&& self.headers@ == head.headers
    }
}

/// Reads the headers in the lines behind the first.
fn parse_headers(lines: &Vec<&[char]>) -> (headers: Option<StrMap>)
    requires
        lines@.len() > 0,
    ensures
        match headers {
            Some(m) => header_map(text::contents(lines@).skip(1), Map::empty()) == Some(m@),
            None => header_map(text::contents(lines@).skip(1), Map::empty()) is None,
        },
{
    let ghost all = text::contents(lines@);
    let mut headers: StrMap = StrMap::new();
    let mut i: usize = 1;
    while i < lines.len()
        invariant
            1 <= i <= lines@.len(),
            all == text::contents(lines@),
            header_map(all.skip(i as int), headers@) == header_map(all.skip(1), Map::empty()),
        decreases lines@.len() - i,
    {
        let line: &[char] = lines[i];
        assert(all.skip(i as int).drop_first() =~= all.skip(i + 1));
        if line.len() > 0 {
            match text::split_once(line, ':') {
                Some((name, value)) => {
                    let key: Vec<char> = text::to_ascii_lowercase(text::trim(name));
                    headers.insert(text::text_of(key.as_slice()), text::text_of(text::trim(value)));
                },
                None => {
                    return None;
                },
            }
        }
        i += 1;
    }
    Some(headers)
}

/// Reads the head of a request.
fn parse_head(head: &[char]) -> (parsed: Result<ParsedHead, &'static str>)
    ensures
        match parsed {
            Ok(h) => read_head(head@) matches Ok(v) && h.shows(v),
            Err(why) => read_head(head@) == Err::<Head, Seq<char>>(why@),
        },
{
    let lines: Vec<&[char]> = text::split_lines(head);
    let ghost all = text::contents(lines@);
    let parts: Vec<&[char]> = text::split_char(lines[0], ' ');
    let ghost words = text::contents(parts@);
    assert(lines@[0]@ == all[0]);
    if parts.len() != 3 || parts[0].len() == 0 || parts[1].len() == 0 || parts[1][0] != '/' {
        assert(words.len() == 3 ==> words[0] == parts@[0]@ && words[1] == parts@[1]@);
        return Err("malformed request line");
    }
    assert(words[0] == parts@[0]@ && words[1] == parts@[1]@ && words[2] == parts@[2]@);
    if !text::spells(parts[2], "HTTP/1.1") && !text::spells(parts[2], "HTTP/1.0") {
        return Err("unsupported protocol version");
    }
    let headers: StrMap = match parse_headers(&lines) {
        Some(m) => m,
        None => {
            return Err("malformed header line");
        },
    };
    let target: &[char] = parts[1];
    let (raw_path, query): (&[char], &[char]) = match text::split_once(target, '?') {
        Some((p, q)) => (p, q),
        None => (target, slice_subrange(target, 0, 0)),
    };
    assert((raw_path@, query@) == path_and_query(target@)) by {
        assert(text::cut_at(target@, '?') is None ==> query@ =~= Seq::<char>::empty());
    }
    let raw_text: String = text::text_of(raw_path);
    match percent_decode(raw_text.as_str()) {
        Some(path) => {
            let method: String = text::text_of(parts[0]);
            Ok(
                ParsedHead {
                    method: text::to_uppercase(method.as_str()),
                    path,
                    query: text::text_of(query),
                    version: text::text_of(parts[2]),
                    headers,
                },
            )
        },
        None => Err("bad percent-encoding in path"),
    }
}

fn build_request(head: ParsedHead, body: Vec<u8>) -> (request: Request)
    ensures
        forall|v: Head| head.shows(v) ==> request@ == with_head(v, body@),
{
    let request: Request = Request {
        method: head.method,
        path: head.path,
        query: head.query,
        version: head.version,
        headers: head.headers,
        body,
    };
    assert forall|v: Head| head.shows(v) implies request@ == with_head(v, body@) by {
        assert(request@ =~= with_head(v, body@));
    }
    request
}

/// Try to parse one request from the front of `buffer`.
pub fn try_parse(buffer: &[u8]) -> (status: ParseStatus)
    ensures
        status@ == read_request(buffer@),
        status matches ParseStatus::Complete { used, .. } ==> used <= buffer.len(),
{
    reveal(read_request);
    let headers_end: usize = match text::find_blank_line(buffer) {
        Some(end) => end,
        None => {
            // Refuse gigantic header sections.
            if buffer.len() > MAX_HEAD {
                return ParseStatus::Bad("header section too large");
            }
            return ParseStatus::NeedMoreHeaders;
        },
    };
    let head_bytes: &[u8] = slice_subrange(buffer, 0, headers_end);
    assert(head_bytes@ =~= buffer@.take(headers_end as int));
    let head_text: Vec<char> = match text::decode(head_bytes) {
        Some(chars) => chars,
        None => {
            return ParseStatus::Bad("headers are not valid utf-8");
        },
    };
    let head: ParsedHead = match parse_head(head_text.as_slice()) {
        Ok(head) => head,
        Err(why) => {
            return ParseStatus::Bad(why);
        },
    };
    let ghost v: Head = read_head(head_text@)->Ok_0;
    let body_start: usize = headers_end + 4;
    let data: &[u8] = slice_subrange(buffer, body_start, buffer.len());
    assert(data@ =~= buffer@.skip(body_start as int));

    // Chunked body?
    let chunked: bool = match head.headers.get("transfer-encoding") {
        Some(value) => {
            let chars: Vec<char> = text::chars_of(value.as_str());
            text::contains(text::to_ascii_lowercase(chars.as_slice()).as_slice(), "chunked")
        },
        None => false,
    };
    if chunked {
        return match decode_chunked(data) {
            ChunkStatus::Complete { body, used } => ParseStatus::Complete {
                request: build_request(head, body),
                used: body_start + used,
            },
            ChunkStatus::Incomplete => ParseStatus::NeedMoreBody,
            ChunkStatus::Bad => ParseStatus::Bad("malformed chunked body"),
        };
    }

    // Content-Length body (or none).
    let length: usize = match head.headers.get("content-length") {
        Some(value) => {
            let chars: Vec<char> = text::chars_of(value.as_str());
            match numeral::parse_number(chars.as_slice(), 10, usize::MAX as u64) {
                Some(n) => n as usize,
                None => {
                    return ParseStatus::Bad("invalid content-length");
                },
            }
        },
        None => 0,
    };
    if data.len() < length {
        return ParseStatus::NeedMoreBody;
    }
    let body: Vec<u8> = slice_to_vec(slice_subrange(data, 0, length));
    assert(body@ =~= data@.take(length as int));
    ParseStatus::Complete { request: build_request(head, body), used: body_start + length }
}

/// The length in the first `Content-Length` line.
pub open spec fn first_length(lines: Seq<Seq<char>>) -> Option<int>
    decreases lines.len(),
{
    if lines.len() == 0 {
        None
    } else {
        match text::cut_at(lines[0], ':') {
            Some((name, value)) => if text::same_letters(
                text::trimmed(name),
                "content-length"@,
            ) {
                numeral::number_within(text::trimmed(value), 10, usize::MAX as int)
            } else {
                first_length(lines.drop_first())
            },
            None => first_length(lines.drop_first()),
        }
    }
}

/// The body length that a buffer with a complete head announces.
pub open spec fn announced_length(buffer: Seq<u8>) -> Option<int> {
    match text::first_index(buffer, text::blank_line()) {
        Some(end) => match text::decoded(buffer.take(end)) {
            Some(head) => first_length(text::pieces(head, text::line_end()).skip(1)),
            None => None,
        },
        None => None,
    }
}

/// How large could the pending request be? Used for early 413 checks.
pub fn declared_body_size(buffer: &[u8]) -> (size: Option<usize>)
    ensures
        match size {
            Some(n) => announced_length(buffer@) == Some(n as int),
            None => announced_length(buffer@) is None,
        },
{
    let headers_end: usize = match text::find_blank_line(buffer) {
        Some(end) => end,
        None => {
            return None;
        },
    };
    let head_bytes: &[u8] = slice_subrange(buffer, 0, headers_end);
    assert(head_bytes@ =~= buffer@.take(headers_end as int));
    let head: Vec<char> = match text::decode(head_bytes) {
        Some(chars) => chars,
        None => {
            return None;
        },
    };
    let lines: Vec<&[char]> = text::split_lines(head.as_slice());
    let ghost all = text::contents(lines@);
    let wanted: Vec<char> = text::chars_of("content-length");
    let mut i: usize = 1;
    while i < lines.len()
        invariant
            1 <= i <= lines@.len(),
            all == text::contents(lines@),
            wanted@ == "content-length"@,
            first_length(all.skip(i as int)) == first_length(all.skip(1)),
            announced_length(buffer@) == first_length(all.skip(1)),
        decreases lines@.len() - i,
    {
        assert(all.skip(i as int).drop_first() =~= all.skip(i + 1));
        if let Some((name, value)) = text::split_once(lines[i], ':') {
            if text::eq_ignore_ascii_case(text::trim(name), wanted.as_slice()) {
                return match numeral::parse_number(text::trim(value), 10, usize::MAX as u64) {
                    Some(n) => Some(n as usize),
                    None => None,
                };
            }
        }
        i += 1;
    }
    None
}

// --------------------------------------------------------------------- response

/// An answer to a request.
pub struct Response {
    pub status: u16,
    pub headers: Vec<(String, String)>,
    pub body: Vec<u8>,
    /// `HEAD` answers announce a `Content-Length` but send no body.
    pub suppress_body: bool,
}

/// What a response says.
#[verifier::ext_equal]
pub struct ResponseView {
    pub status: u16,
    pub headers: Seq<(Seq<char>, Seq<char>)>,
    pub body: Seq<u8>,
    pub suppress_body: bool,
}

/// The text in a list of pairs.
pub open spec fn header_pairs(headers: Seq<(String, String)>) -> Seq<(Seq<char>, Seq<char>)> {
    Seq::new(headers.len(), |i: int| (headers[i].0@, headers[i].1@))
}

impl View for Response {
    type V = ResponseView;

    open spec fn view(&self) -> ResponseView {
        ResponseView {
            status: self.status,
            headers: header_pairs(self.headers@),
            body: self.body@,
            suppress_body: self.suppress_body,
        }
    }
}

/// The reason phrase of a status.
pub open spec fn reason_text(status: u16) -> Seq<char> {
    if status == 200 {
        "OK"@
    } else if status == 201 {
        "Created"@
    } else if status == 204 {
        "No Content"@
    } else if status == 301 {
        "Moved Permanently"@
    } else if status == 302 {
        "Found"@
    } else if status == 400 {
        "Bad Request"@
    } else if status == 403 {
        "Forbidden"@
    } else if status == 404 {
        "Not Found"@
    } else if status == 405 {
        "Method Not Allowed"@
    } else if status == 408 {
        "Request Timeout"@
    } else if status == 411 {
        "Length Required"@
    } else if status == 413 {
        "Payload Too Large"@
    } else if status == 500 {
        "Internal Server Error"@
    } else if status == 501 {
        "Not Implemented"@
    } else if status == 505 {
        "HTTP Version Not Supported"@
    } else {
        "Unknown"@
    }
}

/// The lines of the given headers.
pub open spec fn header_lines(headers: Seq<(Seq<char>, Seq<char>)>) -> Seq<char>
    decreases headers.len(),
{
    if headers.len() == 0 {
        seq![]
    } else {
        header_lines(headers.drop_last()) + headers.last().0 + ": "@ + headers.last().1 + "\r\n"@
    }
}

/// The media type of the pages that the server makes up.
pub open spec fn html_type() -> Seq<char> {
    "text/html; charset=utf-8"@
}

impl ResponseView {
    /// A response with a body and nothing else.
    pub open spec fn with_body(status: u16, content_type: Seq<char>, body: Seq<u8>) -> ResponseView {
        ResponseView {
            status,
            headers: seq![("Content-Type"@, content_type)],
            body,
            suppress_body: false,
        }
    }

    /// A page of HTML.
    pub open spec fn html(status: u16, page: Seq<char>) -> ResponseView {
        ResponseView::with_body(status, html_type(), vstd::utf8::encode_utf8(page))
    }

    /// This response with one header more.
    pub open spec fn with_header(self, name: Seq<char>, value: Seq<char>) -> ResponseView {
        ResponseView { headers: self.headers.push((name, value)), ..self }
    }

    /// The status line and headers, with the blank line that ends them, as sent
    /// at the given time.
    pub open spec fn head(self, keep_alive: bool, unix_seconds: int) -> Seq<char> {
        "HTTP/1.1 "@ + numeral::decimal(self.status as nat) + " "@ + reason_text(self.status)
            + "\r\n"@ + "Content-Length: "@ + numeral::decimal(self.body.len()) + "\r\n"@ + "Date: "@
            + date::http_date_text(unix_seconds) + "\r\n"@ + "Server: localhost-rs\r\n"@ + (
        if keep_alive {
            "Connection: keep-alive\r\n"@
        } else {
            "Connection: close\r\n"@
        }) + header_lines(self.headers) + "\r\n"@
    }

    /// The bytes of this response as sent at the given time.
    pub open spec fn serialized(self, keep_alive: bool, unix_seconds: int) -> Seq<u8> {
        vstd::utf8::encode_utf8(self.head(keep_alive, unix_seconds)) + if self.suppress_body {
            seq![]
        } else {
            self.body
        }
    }
}

impl Response {
    /// An empty response.
    pub fn new(status: u16) -> (response: Response)
        ensures
            response@ == (ResponseView {
                status,
                headers: seq![],
                body: seq![],
                suppress_body: false,
            }),
    {
        let response: Response = Response {
            status,
            headers: Vec::new(),
            body: Vec::new(),
            suppress_body: false,
        };
        assert(response@.headers =~= seq![]);
        response
    }

    /// A response with a body of the given type.
    pub fn with_body(status: u16, content_type: &str, body: Vec<u8>) -> (response: Response)
        ensures
            response@ == ResponseView::with_body(status, content_type@, body@),
    {
        let mut response: Response = Response::new(status);
        response.set_header("Content-Type", content_type);
        response.body = body;
        assert(response@.headers =~= seq![("Content-Type"@, content_type@)]);
        response
    }

    /// A page of HTML.
    pub fn html(status: u16, body: String) -> (response: Response)
        ensures
            response@ == ResponseView::html(status, body@),
    {
        let bytes: Vec<u8> = slice_to_vec(body.as_str().as_bytes());
        Response::with_body(status, "text/html; charset=utf-8", bytes)
    }

    /// Adds a header behind those that are there.
    pub fn set_header(&mut self, name: &str, value: &str)
        ensures
            final(self)@ == old(self)@.with_header(name@, value@),
            final(self).body == old(self).body,
    {
        let ghost before = self@;
        self.headers.push((name.to_owned(), value.to_owned()));
        assert(self@.headers =~= before.headers.push((name@, value@)));
    }

    /// The bytes of this response, dated with the current time.
    pub fn serialize(&self, keep_alive: bool) -> (out: Vec<u8>)
        ensures
            exists|secs: u64| out@ == #[trigger] self@.serialized(keep_alive, secs as int),
    {
        self.serialize_at(keep_alive, current_seconds())
    }

    /// The bytes of this response, dated with the given time.
    pub fn serialize_at(&self, keep_alive: bool, unix_seconds: u64) -> (out: Vec<u8>)
        ensures
            out@ == self@.serialized(keep_alive, unix_seconds as int),
    {
        let mut head: Vec<char> = text::chars_of("HTTP/1.1 ");
        numeral::push_decimal(&mut head, self.status as u64);
        text::push_text(&mut head, " ");
        text::push_text(&mut head, reason(self.status));
        text::push_text(&mut head, "\r\n");
        text::push_text(&mut head, "Content-Length: ");
        numeral::push_decimal(&mut head, self.body.len() as u64);
        text::push_text(&mut head, "\r\n");
        text::push_text(&mut head, "Date: ");
        text::push_text(&mut head, date::format_http_date(unix_seconds).as_str());
        text::push_text(&mut head, "\r\n");
        text::push_text(&mut head, "Server: localhost-rs\r\n");
        text::push_text(
            &mut head,
            if keep_alive {
                "Connection: keep-alive\r\n"
            } else {
                "Connection: close\r\n"
            },
        );
        self.push_headers(&mut head);
        text::push_text(&mut head, "\r\n");
        let head_text: String = text::text_of(head.as_slice());
        let mut out: Vec<u8> = slice_to_vec(head_text.as_str().as_bytes());
        if !self.suppress_body {
            out.extend_from_slice(self.body.as_slice());
        }
        assert(out@ =~= self@.serialized(keep_alive, unix_seconds as int));
        out
    }

    /// Appends the lines of the headers.
    fn push_headers(&self, out: &mut Vec<char>)
        ensures
            final(out)@ == old(out)@ + header_lines(self@.headers),
    {
        let ghost start = out@;
        let ghost all = self@.headers;
        let mut i: usize = 0;
        assert(start + header_lines(all.take(0)) =~= start);
        while i < self.headers.len()
            invariant
                i <= self.headers@.len(),
                all == header_pairs(self.headers@),
                out@ == start + header_lines(all.take(i as int)),
            decreases self.headers@.len() - i,
        {
            text::push_text(out, self.headers[i].0.as_str());
            text::push_text(out, ": ");
            text::push_text(out, self.headers[i].1.as_str());
            text::push_text(out, "\r\n");
            proof {
                let upto = all.take(i + 1);
                assert(upto.drop_last() =~= all.take(i as int));
                assert(upto.last() == all[i as int]);
                assert(out@ =~= start + header_lines(upto));
            }
            i += 1;
        }
        assert(all.take(i as int) =~= all);
    }
}

/// The answer to `HEAD` is the answer to `GET` without the body: the same head,
/// which announces the length of the body, and nothing behind it.
pub proof fn head_answer_is_the_get_answer_without_body(
    response: ResponseView,
    keep_alive: bool,
    unix_seconds: int,
)
    ensures
        ({
            let get = ResponseView { suppress_body: false, ..response };
            let head = ResponseView { suppress_body: true, ..response };
            get.serialized(keep_alive, unix_seconds) == head.serialized(keep_alive, unix_seconds)
                + response.body
        }),
{
    let get = ResponseView { suppress_body: false, ..response };
    let head = ResponseView { suppress_body: true, ..response };
    assert(get.serialized(keep_alive, unix_seconds) =~= head.serialized(keep_alive, unix_seconds)
        + response.body);
}

/// The system clock, as `std::time::SystemTime` reads it.
#[verifier::external_type_specification]
#[verifier::external_body]
pub struct ExSystemTime(std::time::SystemTime);

/// `SystemTime::now` reads the clock. Nothing is claimed of what it reads.
pub assume_specification[ std::time::SystemTime::now ]() -> std::time::SystemTime
;

/// `SystemTime::duration_since` gives the time elapsed since the Unix epoch, and
/// fails for a time before it. Nothing is claimed of the duration, which is up to the
/// clock.
#[verifier::external_body]
fn time_since_epoch(time: std::time::SystemTime) -> (elapsed: Option<std::time::Duration>) {
    time.duration_since(std::time::UNIX_EPOCH).ok()
}

/// `Duration::as_secs` gives the whole seconds of a duration. Nothing is claimed of
/// the number, since nothing is known of the duration.
pub assume_specification[ std::time::Duration::as_secs ](elapsed: &std::time::Duration) -> u64
;

/// The time that a reading of the clock stands for: zero for a clock that is set
/// before the Unix epoch.
pub fn seconds_read(reading: Option<u64>) -> (seconds: u64)
    ensures
        seconds == match reading {
            Some(n) => n,
            None => 0,
        },
{
    match reading {
        Some(n) => n,
        None => 0,
    }
}

/// The current time in seconds since the Unix epoch, as `seconds_read` has it. What
/// the clock says is left open.
fn current_seconds() -> u64 {
    let reading: Option<u64> = match time_since_epoch(std::time::SystemTime::now()) {
        Some(elapsed) => Some(elapsed.as_secs()),
        None => None,
    };
    seconds_read(reading)
}

/// Current time as an RFC 9110 IMF-fixdate, e.g. `Sun, 06 Nov 1994 08:49:37 GMT`.
pub fn http_date() -> (date: String)
    ensures
        exists|secs: u64| date@ == #[trigger] date::http_date_text(secs as int),
{
    date::format_http_date(current_seconds())
}

/// The reason phrase of a status.
pub fn reason(status: u16) -> (phrase: &'static str)
    ensures
        phrase@ == reason_text(status),
{
    match status {
        200 => "OK",
        201 => "Created",
        204 => "No Content",
        301 => "Moved Permanently",
        302 => "Found",
        400 => "Bad Request",
        403 => "Forbidden",
        404 => "Not Found",
        405 => "Method Not Allowed",
        408 => "Request Timeout",
        411 => "Length Required",
        413 => "Payload Too Large",
        500 => "Internal Server Error",
        501 => "Not Implemented",
        505 => "HTTP Version Not Supported",
        _ => "Unknown",
    }
}

} // verus!
