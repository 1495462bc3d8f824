//! What clients write, and how it is read: the encodings, spellings and layouts
//! that all say the same thing, and those that say nothing.

use vstd::prelude::*;

use crate::framing;
use crate::http;
use crate::http::{Outcome, RequestView};
use crate::numeral;
use crate::sessions;
use crate::text;

verus! {

// ---------------------------------------------------------------- percent-encoding

/// A hexadecimal digit of either case, as a byte.
pub open spec fn is_hex_digit(b: u8) -> bool {
    48 <= b <= 57 || 65 <= b <= 70 || 97 <= b <= 102
}

/// What a hexadecimal digit is worth.
pub open spec fn hex_worth(b: u8) -> int {
    if b <= 57 {
        b - 48
    } else if b <= 70 {
        b - 55
    } else {
        b - 87
    }
}

/// A byte of a path as a client writes it: as it is, or escaped.
pub enum Written {
    Plain(u8),
    Escape { high: u8, low: u8 },
}

impl Written {
    /// The byte can be written like that.
    pub open spec fn fits(self) -> bool {
        match self {
            Written::Plain(b) => b != 37,
            Written::Escape { high, low } => is_hex_digit(high) && is_hex_digit(low),
        }
    }

    /// The bytes that are written.
    pub open spec fn bytes(self) -> Seq<u8> {
        match self {
            Written::Plain(b) => seq![b],
            Written::Escape { high, low } => seq![37u8, high, low],
        }
    }

    /// The byte that is meant. A plus sign is a space.
    pub open spec fn meant(self) -> u8 {
        match self {
            Written::Plain(b) => if b == 43 {
                32
            } else {
                b
            },
            Written::Escape { high, low } => (16 * hex_worth(high) + hex_worth(low)) as u8,
        }
    }
}

/// The bytes that are written, one after the other.
pub open spec fn all_written(bytes: Seq<Written>) -> Seq<u8>
    decreases bytes.len(),
{
    if bytes.len() == 0 {
        seq![]
    } else {
        bytes[0].bytes() + all_written(bytes.skip(1))
    }
}

/// The bytes that are meant.
pub open spec fn all_meant(bytes: Seq<Written>) -> Seq<u8> {
    Seq::new(bytes.len(), |i: int| bytes[i].meant())
}

/// Every byte can be written like that.
pub open spec fn all_fit(bytes: Seq<Written>) -> bool {
    forall|i: int| 0 <= i < bytes.len() ==> (#[trigger] bytes[i]).fits()
}

proof fn lemma_hex_digit(b: u8)
    ensures
        match numeral::digit_value(b as char, 16) {
            Some(d) => is_hex_digit(b) && d == hex_worth(b) && 0 <= d < 16,
            None => !is_hex_digit(b),
        },
{
}

proof fn lemma_escapes(bytes: Seq<Written>, tail: Seq<u8>)
    requires
        all_fit(bytes),
    ensures
        http::unescaped(all_written(bytes) + tail) == match http::unescaped(tail) {
            Some(rest) => Some(all_meant(bytes) + rest),
            None => None,
        },
    decreases bytes.len(),
{
    let whole = all_written(bytes) + tail;
    if bytes.len() == 0 {
        assert(whole =~= tail);
        if let Some(rest) = http::unescaped(tail) {
            assert(all_meant(bytes) + rest =~= rest);
        }
    } else {
        let more = bytes.skip(1);
        assert forall|i: int| 0 <= i < more.len() implies (#[trigger] more[i]).fits() by {
            assert(bytes[i + 1].fits());
        }
        lemma_escapes(more, tail);
        assert(bytes[0].fits());
        let behind = all_written(more) + tail;
        let n = bytes[0].bytes().len() as int;
        assert(whole =~= bytes[0].bytes() + behind);
        assert(whole.skip(n) =~= behind);
        if let Written::Escape { high, low } = bytes[0] {
            lemma_hex_digit(high);
            lemma_hex_digit(low);
        }
        if let Some(rest) = http::unescaped(tail) {
            assert(seq![bytes[0].meant()] + (all_meant(more) + rest) =~= all_meant(bytes) + rest);
        }
    }
}

/// Every byte of a path is read as it is meant, whether it is written as it is or
/// escaped, with hexadecimal digits of either case, in any mixture.
pub proof fn escapes_are_read_in_either_case(bytes: Seq<Written>)
    requires
        all_fit(bytes),
    ensures
        http::unescaped(all_written(bytes)) == Some(all_meant(bytes)),
{
    lemma_escapes(bytes, seq![]);
    assert(all_written(bytes) + Seq::<u8>::empty() =~= all_written(bytes));
    assert(all_meant(bytes) + Seq::<u8>::empty() =~= all_meant(bytes));
    assert(http::unescaped(Seq::<u8>::empty()) == Some(Seq::<u8>::empty()));
}

/// A percent sign that no two hexadecimal digits follow spoils the path.
pub proof fn broken_escape_is_refused(bytes: Seq<Written>, tail: Seq<u8>)
    requires
        all_fit(bytes),
        tail.len() > 0,
        tail[0] == 37,
        tail.len() < 3 || !is_hex_digit(tail[1]) || !is_hex_digit(tail[2]),
    ensures
        http::unescaped(all_written(bytes) + tail) is None,
{
    if tail.len() >= 3 {
        lemma_hex_digit(tail[1]);
        lemma_hex_digit(tail[2]);
    }
    lemma_escapes(bytes, tail);
}

/// A text is read from any writing of its bytes; and a writing of bytes that are no
/// text is refused.
pub proof fn escaped_text_is_read(written: Seq<char>, bytes: Seq<Written>)
    requires
        all_fit(bytes),
        vstd::utf8::encode_utf8(written) == all_written(bytes),
    ensures
        forall|meant: Seq<char>| #[trigger]
            vstd::utf8::encode_utf8(meant) == all_meant(bytes) ==> http::percent_decoded(written)
                == Some(meant),
        http::percent_decoded(written) is Some <==> vstd::utf8::valid_utf8(all_meant(bytes)),
{
    escapes_are_read_in_either_case(bytes);
    assert forall|meant: Seq<char>| #[trigger]
        vstd::utf8::encode_utf8(meant) == all_meant(bytes) implies http::percent_decoded(written)
        == Some(meant) by {
        vstd::utf8::encode_utf8_valid_utf8(meant);
        vstd::utf8::encode_utf8_decode_utf8(meant);
    }
}

// -------------------------------------------------------------- the request line

/// What stands before the first question mark of a target is the path, and what
/// stands behind it is the query, further question marks included.
pub proof fn query_is_behind_the_question_mark(path: Seq<char>, query: Seq<char>)
    requires
        framing::free_of(path, '?'),
    ensures
        http::path_and_query(path + seq!['?'] + query) == (path, query),
        http::path_and_query(path) == (path, Seq::<char>::empty()),
{
    let target = path + seq!['?'] + query;
    text::lemma_first_index_behind(path, seq!['?'], query);
    assert(target.take(path.len() as int) =~= path);
    assert(target.skip(path.len() as int + 1) =~= query);
    text::lemma_first_index_absent(path, '?');
}

/// ASCII letters are made capital one by one, and small likewise; nothing else in
/// an ASCII text changes.
pub proof fn letters_change_one_by_one(s: Seq<char>)
    requires
        vstd::utf8::is_ascii_chars(s),
    ensures
        text::uppercased(s).len() == s.len(),
        forall|i: int|
            0 <= i < s.len() ==> (#[trigger] text::uppercased(s)[i]) as int == s[i] as int - if 97
                <= s[i] as int <= 122 {
                32int
            } else {
                0
            },
        text::lowered(s).len() == s.len(),
        forall|i: int|
            0 <= i < s.len() ==> (#[trigger] text::lowered(s)[i]) as int == s[i] as int + if 65
                <= s[i] as int <= 90 {
                32int
            } else {
                0
            },
{
}

// ---------------------------------------------------------------------- headers

/// The name differs from the other in the case of its letters at most.
pub open spec fn same_but_for_case(a: Seq<char>, b: Seq<char>) -> bool {
    &&& a.len() == b.len()
    &&& forall|i: int|
        0 <= i < a.len() ==> {
            let (x, y) = (#[trigger] a[i] as int, b[i] as int);
            ||| x == y
            ||| 65 <= x <= 90 && y == x + 32
            ||| 65 <= y <= 90 && x == y + 32
        }
}

pub proof fn lemma_same_but_for_case(a: Seq<char>, b: Seq<char>)
    ensures
        same_but_for_case(a, b) <==> text::lowered(a) == text::lowered(b),
{
    assert(text::lowered(a).len() == a.len() && text::lowered(b).len() == b.len());
    if text::lowered(a) == text::lowered(b) {
        assert forall|i: int| 0 <= i < a.len() implies {
            let (x, y) = (#[trigger] a[i] as int, b[i] as int);
            ||| x == y
            ||| 65 <= x <= 90 && y == x + 32
            ||| 65 <= y <= 90 && x == y + 32
        } by {
            assert(text::lowered(a)[i] == text::lowered(b)[i]);
        }
    } else if same_but_for_case(a, b) {
        assert forall|i: int| 0 <= i < a.len() implies text::lowered(a)[i] == text::lowered(b)[i] by {
            let (x, y) = (a[i] as int, b[i] as int);
        }
        assert(text::lowered(a) =~= text::lowered(b));
    }
}

proof fn lemma_header_absent(
    headers: Seq<(Seq<char>, Seq<char>)>,
    found: Map<Seq<char>, Seq<char>>,
    key: Seq<char>,
)
    requires
        forall|j: int| 0 <= j < headers.len() ==> text::lowered((#[trigger] headers[j]).0) != key,
    ensures
        framing::headers_by_name(headers, found).dom().contains(key) == found.dom().contains(key),
        found.dom().contains(key) ==> framing::headers_by_name(headers, found)[key] == found[key],
    decreases headers.len(),
{
    if headers.len() > 0 {
        let more = headers.skip(1);
        assert forall|j: int| 0 <= j < more.len() implies text::lowered((#[trigger] more[j]).0)
            != key by {
            assert(headers[j + 1] == more[j]);
        }
        assert(text::lowered(headers[0].0) != key);
        lemma_header_absent(more, found.insert(text::lowered(headers[0].0), headers[0].1), key);
    }
}

proof fn lemma_header_last(
    headers: Seq<(Seq<char>, Seq<char>)>,
    found: Map<Seq<char>, Seq<char>>,
    i: int,
)
    requires
        0 <= i < headers.len(),
        forall|j: int|
            i < j < headers.len() ==> text::lowered((#[trigger] headers[j]).0) != text::lowered(
                headers[i].0,
            ),
    ensures
        framing::headers_by_name(headers, found).dom().contains(text::lowered(headers[i].0)),
        framing::headers_by_name(headers, found)[text::lowered(headers[i].0)] == headers[i].1,
    decreases headers.len(),
{
    let key = text::lowered(headers[i].0);
    let more = headers.skip(1);
    let next = found.insert(text::lowered(headers[0].0), headers[0].1);
    assert forall|j: int| i - 1 < j < more.len() implies text::lowered((#[trigger] more[j]).0)
        != key by {
        assert(headers[j + 1] == more[j]);
    }
    if i == 0 {
        lemma_header_absent(more, next, key);
    } else {
        assert(more[i - 1] == headers[i]);
        lemma_header_last(more, next, i - 1);
    }
}

/// A header that was sent is found under its name in any case, with the value that
/// was sent with it; of several with one name, with that of the last. A header that
/// was not sent is not found.
pub proof fn header_is_found_in_any_case(
    head: framing::SentHead,
    body: Seq<u8>,
    name: Seq<char>,
    i: int,
)
    ensures
        (forall|j: int|
            0 <= j < head.headers.len() ==> !same_but_for_case((#[trigger] head.headers[j]).0, name))
            ==> head.request(body).header(name) is None,
        0 <= i < head.headers.len() && same_but_for_case(head.headers[i].0, name) && (forall|
            j: int,
        |
            i < j < head.headers.len() ==> !same_but_for_case((#[trigger] head.headers[j]).0, name))
            ==> head.request(body).header(name) == Some(head.headers[i].1),
{
    let headers = head.headers;
    let none = Map::<Seq<char>, Seq<char>>::empty();
    assert forall|j: int| 0 <= j < headers.len() implies same_but_for_case(
        (#[trigger] headers[j]).0,
        name,
    ) == (text::lowered(headers[j].0) == text::lowered(name)) by {
        lemma_same_but_for_case(headers[j].0, name);
    }
    if forall|j: int| 0 <= j < headers.len() ==> !same_but_for_case((#[trigger] headers[j]).0, name) {
        lemma_header_absent(headers, none, text::lowered(name));
    }
    if 0 <= i < headers.len() && same_but_for_case(headers[i].0, name) && (forall|j: int|
        i < j < headers.len() ==> !same_but_for_case((#[trigger] headers[j]).0, name)) {
        lemma_header_last(headers, none, i);
    }
}

/// White space.
pub open spec fn all_white(s: Seq<char>) -> bool {
    forall|i: int| 0 <= i < s.len() ==> text::is_space(#[trigger] s[i])
}

proof fn lemma_front_dropped(front: Seq<char>, rest: Seq<char>)
    requires
        all_white(front),
        rest.len() > 0 ==> !text::is_space(rest[0]),
    ensures
        text::drop_leading(front + rest, text::CharClass::White) == rest,
    decreases front.len(),
{
    let whole = front + rest;
    if front.len() == 0 {
        assert(whole =~= rest);
    } else {
        let more = front.drop_first();
        assert forall|i: int| 0 <= i < more.len() implies text::is_space(#[trigger] more[i]) by {
            assert(text::is_space(front[i + 1]));
        }
        lemma_front_dropped(more, rest);
        assert(text::is_space(front[0]));
        assert(whole.drop_first() =~= more + rest);
    }
}

proof fn lemma_back_dropped(rest: Seq<char>, back: Seq<char>)
    requires
        all_white(back),
        rest.len() > 0 ==> !text::is_space(rest.last()),
    ensures
        text::drop_trailing(rest + back, text::CharClass::White) == rest,
    decreases back.len(),
{
    let whole = rest + back;
    if back.len() == 0 {
        assert(whole =~= rest);
    } else {
        let more = back.drop_last();
        assert forall|i: int| 0 <= i < more.len() implies text::is_space(#[trigger] more[i]) by {
            assert(text::is_space(back[i]));
        }
        lemma_back_dropped(rest, more);
        assert(text::is_space(back[back.len() - 1]));
        assert(whole.drop_last() =~= rest + more);
    }
}

pub proof fn lemma_padding(front: Seq<char>, word: Seq<char>, back: Seq<char>)
    requires
        all_white(front),
        all_white(back),
        word.len() > 0,
        framing::tight(word),
    ensures
        text::trimmed(front + word + back) == word,
{
    assert(front + word + back =~= front + (word + back));
    lemma_front_dropped(front, word + back);
    lemma_back_dropped(word, back);
}

/// White space around the name and the value of a header does not matter, be it much,
/// little or none; and a colon in the value is a part of it.
pub proof fn padding_of_a_header_does_not_matter(
    name: Seq<char>,
    value: Seq<char>,
    a: Seq<char>,
    b: Seq<char>,
    c: Seq<char>,
    d: Seq<char>,
    found: Map<Seq<char>, Seq<char>>,
)
    requires
        all_white(a) && all_white(b) && all_white(c) && all_white(d),
        name.len() > 0,
        framing::tight(name),
        framing::free_of(name, ':'),
        value.len() > 0,
        framing::tight(value),
    ensures
        http::header_map(seq![a + name + b + seq![':'] + (c + value + d)], found) == Some(
            found.insert(text::lowered(name), value),
        ),
{
    let front = a + name + b;
    let tail = c + value + d;
    let line = front + seq![':'] + tail;
    assert forall|i: int| 0 <= i < front.len() implies front[i] != ':' by {
        if i < a.len() {
            assert(text::is_space(a[i]));
        } else if i < a.len() + name.len() {
            assert(front[i] == name[i - a.len()]);
        } else {
            assert(text::is_space(b[i - a.len() - name.len()]));
            assert(front[i] == b[i - a.len() - name.len()]);
        }
    }
    text::lemma_first_index_behind(front, seq![':'], tail);
    assert(line.take(front.len() as int) =~= front);
    assert(line.skip(front.len() as int + 1) =~= tail);
    lemma_padding(a, name, b);
    lemma_padding(c, value, d);
    let lines = seq![line];
    assert(lines.drop_first() =~= seq![]);
    let next = found.insert(text::lowered(name), value);
    assert(http::header_map(lines.drop_first(), next) == Some(next));
}

// ---------------------------------------------------------------------- cookies

/// A cookie as a client writes it.
pub open spec fn cookie_text(cookie: (Seq<char>, Seq<char>)) -> Seq<char> {
    cookie.0 + seq!['='] + cookie.1
}

/// Cookies as a client writes them, one behind the other.
pub open spec fn cookies_text(cookies: Seq<(Seq<char>, Seq<char>)>) -> Seq<char>
    decreases cookies.len(),
{
    if cookies.len() == 0 {
        seq![]
    } else if cookies.len() == 1 {
        cookie_text(cookies[0])
    } else {
        cookie_text(cookies[0]) + seq![';'] + (seq![' '] + cookies_text(cookies.skip(1)))
    }
}

/// The cookies can be written like that.
pub open spec fn cookies_fit(cookies: Seq<(Seq<char>, Seq<char>)>) -> bool {
    forall|i: int|
        0 <= i < cookies.len() ==> {
            let (name, value) = #[trigger] cookies[i];
            &&& framing::free_of(name, ';') && framing::free_of(name, '=') && framing::tight(name)
            &&& framing::free_of(value, ';') && framing::tight(value)
        }
}

/// The cookies by name, later ones replacing earlier ones.
spec fn cookies_by_name(
    cookies: Seq<(Seq<char>, Seq<char>)>,
    found: Map<Seq<char>, Seq<char>>,
) -> Map<Seq<char>, Seq<char>>
    decreases cookies.len(),
{
    if cookies.len() == 0 {
        found
    } else {
        cookies_by_name(cookies.skip(1), found.insert(cookies[0].0, cookies[0].1))
    }
}

proof fn lemma_cookie(lead: Seq<char>, cookie: (Seq<char>, Seq<char>))
    requires
        lead == Seq::<char>::empty() || lead == seq![' '],
        cookies_fit(seq![cookie]),
    ensures
        text::cut_at(text::trimmed(lead + cookie_text(cookie)), '=') == Some(cookie),
        framing::free_of(lead + cookie_text(cookie), ';'),
{
    let (name, value) = seq![cookie][0];
    let t = cookie_text(cookie);
    text::lemma_trimmed_as_is(t);
    if lead.len() == 0 {
        assert(lead + t =~= t);
    } else {
        assert((lead + t).drop_first() =~= t);
        assert(text::is_space((lead + t)[0]));
        reveal_with_fuel(text::drop_leading, 2);
        assert(text::trimmed(lead + t) == t);
    }
    text::lemma_first_index_behind(name, seq!['='], value);
    assert(t.take(name.len() as int) =~= name);
    assert(t.skip(name.len() as int + 1) =~= value);
}

proof fn lemma_cookies(
    lead: Seq<char>,
    cookies: Seq<(Seq<char>, Seq<char>)>,
    found: Map<Seq<char>, Seq<char>>,
)
    requires
        lead == Seq::<char>::empty() || lead == seq![' '],
        cookies.len() > 0,
        cookies_fit(cookies),
    ensures
        http::cookie_pairs(text::pieces(lead + cookies_text(cookies), seq![';']), found)
            == cookies_by_name(cookies, found),
    decreases cookies.len(),
{
    let sep = seq![';'];
    let first = lead + cookie_text(cookies[0]);
    let more = cookies.skip(1);
    let next = found.insert(cookies[0].0, cookies[0].1);
    assert(cookies_fit(seq![cookies[0]])) by {
        let one = seq![cookies[0]];
        assert forall|i: int| 0 <= i < one.len() implies {
            let (name, value) = #[trigger] one[i];
            &&& framing::free_of(name, ';') && framing::free_of(name, '=') && framing::tight(name)
            &&& framing::free_of(value, ';') && framing::tight(value)
        } by {
            assert(one[i] == cookies[0]);
        }
    }
    lemma_cookie(lead, cookies[0]);
    if cookies.len() == 1 {
        text::lemma_first_index_absent(first, ';');
        let parts = text::pieces(first, sep);
        assert(parts =~= seq![first]);
        assert(parts.drop_first() =~= seq![]);
        assert(http::cookie_pairs(parts.drop_first(), next) == next);
        assert(more =~= seq![]);
        assert(cookies_by_name(more, next) == next);
    } else {
        assert(cookies_fit(more)) by {
            assert forall|i: int| 0 <= i < more.len() implies {
                let (name, value) = #[trigger] more[i];
                &&& framing::free_of(name, ';') && framing::free_of(name, '=') && framing::tight(
                    name,
                )
                &&& framing::free_of(value, ';') && framing::tight(value)
            } by {
                assert(more[i] == cookies[i + 1]);
            }
        }
        let rest = seq![' '] + cookies_text(more);
        let whole = lead + cookies_text(cookies);
        assert(whole =~= first + sep + rest);
        text::lemma_first_index_behind(first, sep, rest);
        assert(whole.take(first.len() as int) =~= first);
        assert(whole.skip(first.len() as int + 1) =~= rest);
        let parts = text::pieces(whole, sep);
        assert(parts.drop_first() =~= text::pieces(rest, sep));
        lemma_cookies(seq![' '], more, next);
    }
}

proof fn lemma_cookie_absent(
    cookies: Seq<(Seq<char>, Seq<char>)>,
    found: Map<Seq<char>, Seq<char>>,
    name: Seq<char>,
)
    requires
        forall|j: int| 0 <= j < cookies.len() ==> (#[trigger] cookies[j]).0 != name,
    ensures
        cookies_by_name(cookies, found).dom().contains(name) == found.dom().contains(name),
        found.dom().contains(name) ==> cookies_by_name(cookies, found)[name] == found[name],
    decreases cookies.len(),
{
    if cookies.len() > 0 {
        let more = cookies.skip(1);
        assert forall|j: int| 0 <= j < more.len() implies (#[trigger] more[j]).0 != name by {
            assert(cookies[j + 1] == more[j]);
        }
        assert(cookies[0].0 != name);
        lemma_cookie_absent(more, found.insert(cookies[0].0, cookies[0].1), name);
    }
}

proof fn lemma_cookie_last(
    cookies: Seq<(Seq<char>, Seq<char>)>,
    found: Map<Seq<char>, Seq<char>>,
    i: int,
)
    requires
        0 <= i < cookies.len(),
        forall|j: int| i < j < cookies.len() ==> (#[trigger] cookies[j]).0 != cookies[i].0,
    ensures
        cookies_by_name(cookies, found).dom().contains(cookies[i].0),
        cookies_by_name(cookies, found)[cookies[i].0] == cookies[i].1,
    decreases cookies.len(),
{
    let more = cookies.skip(1);
    let next = found.insert(cookies[0].0, cookies[0].1);
    assert forall|j: int| i - 1 < j < more.len() implies (#[trigger] more[j]).0 != cookies[i].0 by {
        assert(cookies[j + 1] == more[j]);
    }
    if i == 0 {
        lemma_cookie_absent(more, next, cookies[0].0);
    } else {
        assert(more[i - 1] == cookies[i]);
        lemma_cookie_last(more, next, i - 1);
    }
}

/// Every cookie that a client sends is read, wherever it stands among the others; of
/// several with one name, the last. What was not sent is not read.
pub proof fn every_cookie_is_read(
    request: RequestView,
    cookies: Seq<(Seq<char>, Seq<char>)>,
    i: int,
    absent: Seq<char>,
)
    requires
        cookies_fit(cookies),
        request.header("cookie"@) == Some(cookies_text(cookies)),
        0 <= i < cookies.len(),
        forall|j: int| i < j < cookies.len() ==> (#[trigger] cookies[j]).0 != cookies[i].0,
        forall|j: int| 0 <= j < cookies.len() ==> (#[trigger] cookies[j]).0 != absent,
    ensures
        request.cookie_map().dom().contains(cookies[i].0),
        request.cookie_map()[cookies[i].0] == cookies[i].1,
        !request.cookie_map().dom().contains(absent),
{
    let none = Map::<Seq<char>, Seq<char>>::empty();
    lemma_cookies(seq![], cookies, none);
    assert(Seq::<char>::empty() + cookies_text(cookies) =~= cookies_text(cookies));
    lemma_cookie_last(cookies, none, i);
    lemma_cookie_absent(cookies, none, absent);
}

/// A client that sends its session id keeps its session, whatever other cookies it
/// sends along, before the id or behind it.
pub proof fn session_is_kept_among_other_cookies(
    request: RequestView,
    cookies: Seq<(Seq<char>, Seq<char>)>,
    i: int,
    fresh: Seq<u8>,
)
    requires
        cookies_fit(cookies),
        request.header("cookie"@) == Some(cookies_text(cookies)),
        0 <= i < cookies.len(),
        cookies[i].0 == "SID"@,
        forall|j: int| i < j < cookies.len() ==> (#[trigger] cookies[j]).0 != "SID"@,
        cookies[i].1.len() == 32,
        forall|k: int|
            0 <= k < 32 ==> {
                let c = #[trigger] cookies[i].1[k];
                '0' <= c <= '9' || 'a' <= c <= 'f' || 'A' <= c <= 'F'
            },
    ensures
        sessions::session_of(request, fresh) == (cookies[i].1, false),
{
    let none = Map::<Seq<char>, Seq<char>>::empty();
    lemma_cookies(seq![], cookies, none);
    assert(Seq::<char>::empty() + cookies_text(cookies) =~= cookies_text(cookies));
    lemma_cookie_last(cookies, none, i);
    assert forall|k: int| 0 <= k < cookies[i].1.len() implies sessions::is_hex(
        #[trigger] cookies[i].1[k],
    ) by {}
}

/// A client that sends no session id, or something that is none, gets a new one,
/// made of the fresh bytes: 32 digits that say the bytes, two for each.
pub proof fn client_without_a_session_gets_a_new_one(
    request: RequestView,
    cookies: Seq<(Seq<char>, Seq<char>)>,
    fresh: Seq<u8>,
)
    requires
        cookies_fit(cookies),
        request.header("cookie"@) == Some(cookies_text(cookies)) || request.header("cookie"@)
            is None,
        cookies.len() > 0,
        request.header("cookie"@) is Some ==> forall|i: int|
            0 <= i < cookies.len() && (#[trigger] cookies[i]).0 == "SID"@ ==> cookies[i].1.len()
                != 32 || exists|k: int|
                0 <= k < 32 && {
                    let c = #[trigger] cookies[i].1[k];
                    !('0' <= c <= '9' || 'a' <= c <= 'f' || 'A' <= c <= 'F')
                },
        fresh.len() == 16,
    ensures
        sessions::session_of(request, fresh).1,
        sessions::session_of(request, fresh).0.len() == 32,
        forall|k: int|
            0 <= k < 16 ==> {
                let id = sessions::session_of(request, fresh).0;
                #[trigger] fresh[k] == 16 * hex_worth(id[2 * k] as u8) + hex_worth(
                    id[2 * k + 1] as u8,
                )
            },
{
    let none = Map::<Seq<char>, Seq<char>>::empty();
    if request.header("cookie"@) is Some {
        lemma_cookies(seq![], cookies, none);
        assert(Seq::<char>::empty() + cookies_text(cookies) =~= cookies_text(cookies));
        if exists|i: int| 0 <= i < cookies.len() && (#[trigger] cookies[i]).0 == "SID"@ {
            let i = last_named(cookies, "SID"@);
            lemma_last_named(cookies, "SID"@);
            lemma_cookie_last(cookies, none, i);
        } else {
            lemma_cookie_absent(cookies, none, "SID"@);
        }
    }
    lemma_id_digits(fresh);
}

/// The index of the last cookie with a name.
spec fn last_named(cookies: Seq<(Seq<char>, Seq<char>)>, name: Seq<char>) -> int
    decreases cookies.len(),
{
    if cookies.len() == 0 || cookies.last().0 == name {
        cookies.len() - 1
    } else {
        last_named(cookies.drop_last(), name)
    }
}

proof fn lemma_last_named(cookies: Seq<(Seq<char>, Seq<char>)>, name: Seq<char>)
    requires
        exists|i: int| 0 <= i < cookies.len() && (#[trigger] cookies[i]).0 == name,
    ensures
        0 <= last_named(cookies, name) < cookies.len(),
        cookies[last_named(cookies, name)].0 == name,
        forall|j: int|
            last_named(cookies, name) < j < cookies.len() ==> (#[trigger] cookies[j]).0 != name,
    decreases cookies.len(),
{
    if cookies.last().0 != name {
        let front = cookies.drop_last();
        let i = choose|i: int| 0 <= i < cookies.len() && (#[trigger] cookies[i]).0 == name;
        assert(front[i] == cookies[i]);
        lemma_last_named(front, name);
        assert forall|j: int| last_named(cookies, name) < j < cookies.len() implies (
        #[trigger] cookies[j]).0 != name by {
            if j < front.len() {
                assert(front[j] == cookies[j]);
            }
        }
    }
}

proof fn lemma_id_digits(bytes: Seq<u8>)
    ensures
        numeral::hex_bytes(bytes).len() == 2 * bytes.len(),
        forall|k: int|
            0 <= k < bytes.len() ==> {
                let id = numeral::hex_bytes(bytes);
                #[trigger] bytes[k] == 16 * hex_worth(id[2 * k] as u8) + hex_worth(
                    id[2 * k + 1] as u8,
                )
            },
    decreases bytes.len(),
{
    if bytes.len() > 0 {
        let front = bytes.drop_last();
        lemma_id_digits(front);
        let id = numeral::hex_bytes(bytes);
        assert forall|k: int| 0 <= k < bytes.len() implies #[trigger] bytes[k] == 16 * hex_worth(
            id[2 * k] as u8,
        ) + hex_worth(id[2 * k + 1] as u8) by {
            if k < front.len() {
                assert(front[k] == bytes[k]);
                assert(id[2 * k] == numeral::hex_bytes(front)[2 * k]);
                assert(id[2 * k + 1] == numeral::hex_bytes(front)[2 * k + 1]);
            } else {
                let b = bytes.last();
                assert(id[2 * k] == numeral::hex_byte(b)[0]);
                assert(id[2 * k + 1] == numeral::hex_byte(b)[1]);
            }
        }
    }
}

// ------------------------------------------------------------ connection and host

/// The word stands in the value, in any case.
pub open spec fn mentions(value: Seq<char>, word: Seq<char>) -> bool {
    exists|i: int|
        #![trigger value.subrange(i, i + word.len())]
        0 <= i && i + word.len() <= value.len() && same_but_for_case(
            value.subrange(i, i + word.len()),
            word,
        )
}

proof fn lemma_mentions(value: Seq<char>, word: Seq<char>)
    requires
        text::lowered(word) == word,
    ensures
        text::holds(text::lowered(value), word) <==> mentions(value, word),
{
    let low = text::lowered(value);
    text::lemma_index_from(low, word, 0);
    if let Some(i) = text::first_index(low, word) {
        let part = value.subrange(i, i + word.len());
        assert(text::lowered(part) =~= low.subrange(i, i + word.len()));
        lemma_same_but_for_case(part, word);
    }
    if mentions(value, word) {
        let i = choose|i: int|
            #![trigger value.subrange(i, i + word.len())]
            0 <= i && i + word.len() <= value.len() && same_but_for_case(
                value.subrange(i, i + word.len()),
                word,
            );
        let part = value.subrange(i, i + word.len());
        lemma_same_but_for_case(part, word);
        assert(text::lowered(part) =~= low.subrange(i, i + word.len()));
        assert(text::occurs_at(low, word, i));
    }
}

/// A connection stays open by default in HTTP/1.1 and not in HTTP/1.0; a
/// `Connection` header that mentions `close`, in any case, ends it, and one that
/// mentions `keep-alive` and not `close` keeps it open.
pub proof fn connection_stays_open_as_asked(request: RequestView)
    ensures
        request.header("connection"@) is None ==> request.keeps_alive() == (request.version
            == "HTTP/1.1"@),
        request.header("connection"@) matches Some(value) ==> {
            &&& mentions(value, "close"@) ==> !request.keeps_alive()
            &&& !mentions(value, "close"@) && mentions(value, "keep-alive"@)
                ==> request.keeps_alive()
            &&& !mentions(value, "close"@) && !mentions(value, "keep-alive"@)
                ==> request.keeps_alive() == (request.version == "HTTP/1.1"@)
        },
{
    if let Some(value) = request.header("connection"@) {
        reveal_strlit("close");
        reveal_strlit("keep-alive");
        assert(text::lowered("close"@) =~= "close"@);
        assert(text::lowered("keep-alive"@) =~= "keep-alive"@);
        lemma_mentions(value, "close"@);
        lemma_mentions(value, "keep-alive"@);
    }
}

/// The host that a request names is read without the port, and in any case alike.
pub proof fn host_is_named_without_the_port(
    request: RequestView,
    name: Seq<char>,
    port: Seq<char>,
)
    requires
        framing::free_of(name, ':'),
        request.header("host"@) == Some(name) || request.header("host"@) == Some(
            name + seq![':'] + port,
        ),
    ensures
        request.host_name() matches Some(host) && same_but_for_case(host, name) && forall|i: int|
            0 <= i < host.len() ==> !('A' <= #[trigger] host[i] <= 'Z'),
{
    let value = name + seq![':'] + port;
    text::lemma_first_index_behind(name, seq![':'], port);
    assert(value.take(name.len() as int) =~= name);
    text::lemma_first_index_absent(name, ':');
    let host = text::lowered(name);
    assert(text::lowered(host) =~= host);
    lemma_same_but_for_case(host, name);
}

// ------------------------------------------------------------------ body framing

/// The bytes as characters.
pub open spec fn as_chars(bytes: Seq<u8>) -> Seq<char> {
    Seq::new(bytes.len(), |i: int| bytes[i] as char)
}

/// ASCII bytes that stay on one line.
pub open spec fn plain_line(bytes: Seq<u8>) -> bool {
    forall|i: int| 0 <= i < bytes.len() ==> #[trigger] bytes[i] < 128 && bytes[i] != 13
}

/// The number that hexadecimal digits of either case say.
pub open spec fn hex_number(digits: Seq<u8>) -> int
    decreases digits.len(),
{
    if digits.len() == 0 {
        0
    } else {
        16 * hex_number(digits.drop_last()) + hex_worth(digits.last())
    }
}

/// The line before a chunk: its size in hexadecimal digits, and an extension.
pub struct SizeLine {
    pub digits: Seq<u8>,
    pub extension: Option<Seq<u8>>,
}

impl SizeLine {
    pub open spec fn fits(self) -> bool {
        &&& self.digits.len() > 0
        &&& forall|i: int| 0 <= i < self.digits.len() ==> is_hex_digit(#[trigger] self.digits[i])
        &&& hex_number(self.digits) <= usize::MAX
        &&& self.extension matches Some(e) ==> plain_line(e)
    }

    pub open spec fn bytes(self) -> Seq<u8> {
        match self.extension {
            Some(e) => self.digits + seq![59u8] + e,
            None => self.digits,
        }
    }
}

pub proof fn lemma_ascii_bytes(bytes: Seq<u8>)
    requires
        forall|i: int| 0 <= i < bytes.len() ==> #[trigger] bytes[i] < 128,
    ensures
        vstd::utf8::encode_utf8(as_chars(bytes)) == bytes,
        text::decoded(bytes) == Some(as_chars(bytes)),
{
    let t = as_chars(bytes);
    assert(vstd::utf8::is_ascii_chars(t));
    vstd::utf8::is_ascii_chars_encode_utf8(t);
    assert(vstd::utf8::encode_utf8(t) =~= bytes);
    vstd::utf8::encode_utf8_valid_utf8(t);
    vstd::utf8::encode_utf8_decode_utf8(t);
}

proof fn lemma_hex_number(digits: Seq<u8>)
    requires
        forall|i: int| 0 <= i < digits.len() ==> is_hex_digit(#[trigger] digits[i]),
    ensures
        numeral::digits_value(as_chars(digits), 16) == Some(hex_number(digits)),
        hex_number(digits) >= 0,
    decreases digits.len(),
{
    let t = as_chars(digits);
    if digits.len() > 0 {
        let front = digits.drop_last();
        assert forall|i: int| 0 <= i < front.len() implies is_hex_digit(#[trigger] front[i]) by {
            assert(is_hex_digit(digits[i]));
        }
        lemma_hex_number(front);
        assert(is_hex_digit(digits[digits.len() - 1]));
        lemma_hex_digit(digits.last());
        assert(t.drop_last() =~= as_chars(front));
    }
}

proof fn lemma_size_line(line: SizeLine, rest: Seq<u8>)
    requires
        line.fits(),
    ensures
        http::chunk_size(line.bytes()) == Some(hex_number(line.digits)),
        text::first_index(line.bytes() + text::crlf() + rest, text::crlf()) == Some(
            line.bytes().len() as int,
        ),
{
    let bytes = line.bytes();
    let digits = as_chars(line.digits);
    assert forall|i: int| 0 <= i < bytes.len() implies #[trigger] bytes[i] < 128 && bytes[i]
        != 13 by {
        if i < line.digits.len() {
            assert(is_hex_digit(line.digits[i]));
        } else if i > line.digits.len() {
            assert(bytes[i] == line.extension->0[i - line.digits.len() - 1]);
        }
    }
    lemma_ascii_bytes(bytes);
    let t = as_chars(bytes);
    assert forall|i: int| 0 <= i < digits.len() implies #[trigger] digits[i] != ';'
        && !text::is_space(digits[i]) && digits[i] != '+' by {
        assert(is_hex_digit(line.digits[i]));
    }
    match line.extension {
        Some(e) => {
            assert(t =~= digits + seq![';'] + as_chars(e));
            text::lemma_first_index_behind(digits, seq![';'], as_chars(e));
            assert(t.take(digits.len() as int) =~= digits);
        },
        None => {
            text::lemma_first_index_absent(digits, ';');
        },
    }
    assert(text::before(t, ';') == digits);
    text::lemma_trimmed_as_is(digits);
    lemma_hex_number(line.digits);
    text::lemma_first_index_behind(bytes, text::crlf(), rest);
}

/// The trailers behind a chunked body, with the blank line that ends them.
pub open spec fn trailer_bytes(trailers: Seq<Seq<u8>>) -> Seq<u8>
    decreases trailers.len(),
{
    if trailers.len() == 0 {
        text::crlf()
    } else {
        trailers[0] + text::crlf() + trailer_bytes(trailers.skip(1))
    }
}

/// A body in chunks as a client may send it: each with its size in hexadecimal
/// digits of either case and perhaps an extension, a last one of size zero, and
/// perhaps trailers.
pub open spec fn sent_in_chunks(
    chunks: Seq<(SizeLine, Seq<u8>)>,
    last: SizeLine,
    trailers: Seq<Seq<u8>>,
) -> Seq<u8>
    decreases chunks.len(),
{
    if chunks.len() == 0 {
        last.bytes() + text::crlf() + trailer_bytes(trailers)
    } else {
        chunks[0].0.bytes() + text::crlf() + chunks[0].1 + text::crlf() + sent_in_chunks(
            chunks.skip(1),
            last,
            trailers,
        )
    }
}

/// The data of the chunks.
pub open spec fn chunk_data(chunks: Seq<(SizeLine, Seq<u8>)>) -> Seq<u8>
    decreases chunks.len(),
{
    if chunks.len() == 0 {
        seq![]
    } else {
        chunks[0].1 + chunk_data(chunks.skip(1))
    }
}

/// Every chunk is as long as its line says, and not empty.
pub open spec fn chunks_fit(chunks: Seq<(SizeLine, Seq<u8>)>) -> bool {
    forall|i: int|
        0 <= i < chunks.len() ==> {
            let (line, data) = #[trigger] chunks[i];
            line.fits() && hex_number(line.digits) == data.len() && data.len() > 0
        }
}

proof fn lemma_trailers(trailers: Seq<Seq<u8>>, more: Seq<u8>)
    requires
        forall|i: int|
            0 <= i < trailers.len() ==> (#[trigger] trailers[i]).len() > 0 && plain_line(
                trailers[i],
            ),
    ensures
        http::trailer_length(trailer_bytes(trailers) + more) == Some(
            trailer_bytes(trailers).len() as int,
        ),
    decreases trailers.len(),
{
    let whole = trailer_bytes(trailers) + more;
    if trailers.len() == 0 {
        text::lemma_first_index_behind(Seq::<u8>::empty(), text::crlf(), more);
        assert(Seq::<u8>::empty() + text::crlf() + more =~= whole);
    } else {
        let rest = trailers.skip(1);
        assert forall|i: int| 0 <= i < rest.len() implies (#[trigger] rest[i]).len() > 0
            && plain_line(rest[i]) by {
            assert(rest[i] == trailers[i + 1]);
        }
        lemma_trailers(rest, more);
        let line = trailers[0];
        assert(plain_line(line));
        let behind = trailer_bytes(rest) + more;
        assert(whole =~= line + text::crlf() + behind);
        text::lemma_first_index_behind(line, text::crlf(), behind);
        assert(whole.skip(line.len() as int + 2) =~= behind);
    }
}

/// A body in chunks is put together from their data, however their sizes are
/// spelled and whatever extensions and trailers there are; exactly its bytes are
/// used up.
pub proof fn chunks_are_read_in_any_spelling(
    chunks: Seq<(SizeLine, Seq<u8>)>,
    last: SizeLine,
    trailers: Seq<Seq<u8>>,
    more: Seq<u8>,
)
    requires
        chunks_fit(chunks),
        last.fits(),
        hex_number(last.digits) == 0,
        forall|i: int|
            0 <= i < trailers.len() ==> (#[trigger] trailers[i]).len() > 0 && plain_line(
                trailers[i],
            ),
    ensures
        http::unchunked(sent_in_chunks(chunks, last, trailers) + more) == (
        http::Chunked::Complete {
            body: chunk_data(chunks),
            used: sent_in_chunks(chunks, last, trailers).len() as int,
        }),
    decreases chunks.len(),
{
    let whole = sent_in_chunks(chunks, last, trailers) + more;
    if chunks.len() == 0 {
        let behind = trailer_bytes(trailers) + more;
        let n = last.bytes().len() as int;
        assert(whole =~= last.bytes() + text::crlf() + behind);
        lemma_size_line(last, behind);
        assert(whole.take(n) =~= last.bytes());
        assert(whole.skip(n + 2) =~= behind);
        lemma_trailers(trailers, more);
    } else {
        let (line, data) = chunks[0];
        let rest = chunks.skip(1);
        assert forall|i: int| 0 <= i < rest.len() implies {
            let (line, data) = #[trigger] rest[i];
            line.fits() && hex_number(line.digits) == data.len() && data.len() > 0
        } by {
            assert(rest[i] == chunks[i + 1]);
        }
        chunks_are_read_in_any_spelling(rest, last, trailers, more);
        let tail = sent_in_chunks(rest, last, trailers) + more;
        let behind = data + text::crlf() + tail;
        let n = line.bytes().len() as int;
        let size = data.len() as int;
        assert(whole =~= line.bytes() + text::crlf() + behind);
        lemma_size_line(line, behind);
        assert(whole.take(n) =~= line.bytes());
        assert(whole.subrange(n + 2, n + 2 + size) =~= data);
        assert(whole.subrange(n + 2 + size, n + 4 + size) =~= text::crlf());
        assert(whole.skip(n + 4 + size) =~= tail);
    }
}

/// A chunk that does not end where its size says spoils the body, and so does a
/// size that is no number.
pub proof fn broken_chunk_is_refused(line: SizeLine, data: Seq<u8>, end: Seq<u8>, word: Seq<u8>)
    requires
        line.fits(),
        hex_number(line.digits) == data.len(),
        data.len() > 0,
        end.len() >= 2,
        end[0] != 13 || end[1] != 10,
        word.len() > 0,
        plain_line(word),
        word[0] != 43,
        !is_hex_digit(word[0]),
        forall|i: int| 0 <= i < word.len() ==> #[trigger] word[i] != 59 && word[i] > 32,
    ensures
        http::unchunked(line.bytes() + text::crlf() + data + end) is Bad,
        http::unchunked(word + text::crlf() + end) is Bad,
{
    let whole = line.bytes() + text::crlf() + data + end;
    let n = line.bytes().len() as int;
    let size = data.len() as int;
    assert(whole =~= line.bytes() + text::crlf() + (data + end));
    lemma_size_line(line, data + end);
    assert(whole.take(n) =~= line.bytes());
    let mark = whole.subrange(n + 2 + size, n + 4 + size);
    assert(mark[0] == end[0] && mark[1] == end[1]);
    let other = word + text::crlf() + end;
    text::lemma_first_index_behind(word, text::crlf(), end);
    assert(other.take(word.len() as int) =~= word);
    lemma_ascii_bytes(word);
    let t = as_chars(word);
    assert forall|i: int| 0 <= i < t.len() implies #[trigger] t[i] != ';' && !text::is_space(
        t[i],
    ) by {
        assert(word[i] > 32);
    }
    text::lemma_first_index_absent(t, ';');
    text::lemma_trimmed_as_is(t);
    lemma_hex_digit(word[0]);
    lemma_first_digit_bad(t);
}

proof fn lemma_first_digit_bad(t: Seq<char>)
    requires
        t.len() > 0,
        numeral::digit_value(t[0], 16) is None,
    ensures
        numeral::digits_value(t, 16) is None,
    decreases t.len(),
{
    if t.len() > 1 {
        lemma_first_digit_bad(t.drop_last());
    }
}

// ---------------------------------------------------------------- whole requests

/// The number that decimal digits say.
pub open spec fn decimal_number(digits: Seq<char>) -> int
    decreases digits.len(),
{
    if digits.len() == 0 {
        0
    } else {
        10 * decimal_number(digits.drop_last()) + (digits.last() as int - 48)
    }
}

/// Decimal digits, at least one.
pub open spec fn all_digits(s: Seq<char>) -> bool {
    s.len() > 0 && forall|i: int| 0 <= i < s.len() ==> '0' <= #[trigger] s[i] <= '9'
}

pub proof fn lemma_decimal_number(digits: Seq<char>)
    requires
        forall|i: int| 0 <= i < digits.len() ==> '0' <= #[trigger] digits[i] <= '9',
    ensures
        numeral::digits_value(digits, 10) == Some(decimal_number(digits)),
    decreases digits.len(),
{
    if digits.len() > 0 {
        let front = digits.drop_last();
        assert forall|i: int| 0 <= i < front.len() implies '0' <= #[trigger] front[i] <= '9' by {
            assert('0' <= digits[i] <= '9');
        }
        lemma_decimal_number(front);
        let c = digits[digits.len() - 1];
    }
}

impl framing::SentHead {
    /// The header at the index is the last with its name, which is the given one.
    pub open spec fn last_named(self, i: int, name: Seq<char>) -> bool {
        &&& 0 <= i < self.headers.len()
        &&& same_but_for_case(self.headers[i].0, name)
        &&& forall|j: int|
            i < j < self.headers.len() ==> !same_but_for_case((#[trigger] self.headers[j]).0, name)
    }

    /// There is no header with the name.
    pub open spec fn lacks(self, name: Seq<char>) -> bool {
        forall|j: int|
            0 <= j < self.headers.len() ==> !same_but_for_case((#[trigger] self.headers[j]).0, name)
    }
}

proof fn lemma_named(head: framing::SentHead, name: Seq<char>, i: int)
    requires
        text::lowered(name) == name,
    ensures
        head.lacks(name) ==> !head.header_map().dom().contains(name),
        head.last_named(i, name) ==> head.header_map().dom().contains(name)
            && head.header_map()[name] == head.headers[i].1,
{
    header_is_found_in_any_case(head, seq![], name, i);
}

proof fn lemma_framing_names()
    ensures
        text::lowered("content-length"@) == "content-length"@,
        text::lowered("transfer-encoding"@) == "transfer-encoding"@,
        text::lowered("chunked"@) == "chunked"@,
{
    reveal_strlit("content-length");
    reveal_strlit("transfer-encoding");
    reveal_strlit("chunked");
    assert(text::lowered("content-length"@) =~= "content-length"@);
    assert(text::lowered("transfer-encoding"@) =~= "transfer-encoding"@);
    assert(text::lowered("chunked"@) =~= "chunked"@);
}

/// The target of a request as a client writes it: a path, and perhaps a query.
pub open spec fn target_text(path: Seq<char>, query: Option<Seq<char>>) -> Seq<char> {
    match query {
        Some(q) => path + seq!['?'] + q,
        None => path,
    }
}

/// A request is read as it was meant: its method in capitals, its path with the
/// escapes undone, its query as it stands, and of what follows the head as many
/// bytes as `Content-Length` says, or none. A `Transfer-Encoding` other than `chunked`
/// changes nothing.
pub proof fn request_is_read_as_meant(
    head: framing::SentHead,
    path: Seq<char>,
    query: Option<Seq<char>>,
    bytes: Seq<Written>,
    meant: Seq<char>,
    t: int,
    i: int,
    body: Seq<u8>,
    more: Seq<u8>,
)
    requires
        head.well_formed(),
        vstd::utf8::is_ascii_chars(head.method),
        framing::free_of(path, '?'),
        head.target == target_text(path, query),
        all_fit(bytes),
        vstd::utf8::encode_utf8(path) == all_written(bytes),
        vstd::utf8::encode_utf8(meant) == all_meant(bytes),
        head.lacks("transfer-encoding"@) || head.last_named(t, "transfer-encoding"@) && !mentions(
            head.headers[t].1,
            "chunked"@,
        ),
        head.lacks("content-length"@) && body.len() == 0 || head.last_named(i, "content-length"@)
            && all_digits(head.headers[i].1) && decimal_number(head.headers[i].1) == body.len(),
        body.len() <= usize::MAX,
    ensures
        http::read_request(head.bytes() + body + more) matches Outcome::Complete { request, used }
            && {
            &&& used == head.bytes().len() + body.len()
            &&& request.body == body
            &&& request.path == meant
            &&& request.query == match query {
                Some(q) => q,
                None => seq![],
            }
            &&& request.version == head.version
            &&& same_but_for_case(request.method, head.method)
            &&& forall|k: int|
                0 <= k < request.method.len() ==> !('a' <= #[trigger] request.method[k] <= 'z')
        },
{
    escaped_text_is_read(path, bytes);
    query_is_behind_the_question_mark(
        path,
        match query {
            Some(q) => q,
            None => seq![],
        },
    );
    lemma_framing_names();
    lemma_named(head, "transfer-encoding"@, t);
    lemma_named(head, "content-length"@, i);
    if head.last_named(t, "transfer-encoding"@) {
        lemma_mentions(head.headers[t].1, "chunked"@);
    }
    if head.last_named(i, "content-length"@) {
        let digits = head.headers[i].1;
        lemma_decimal_number(digits);
        assert('0' <= digits[0] <= '9');
        assert(!head.lacks("content-length"@)) by {
            assert(same_but_for_case(head.headers[i].0, "content-length"@));
        }
    }
    framing::sent_request_is_read(head, body, more);
    let upper = text::uppercased(head.method);
    assert forall|k: int| 0 <= k < head.method.len() implies {
        let (x, y) = (#[trigger] upper[k] as int, head.method[k] as int);
        ||| x == y
        ||| 65 <= x <= 90 && y == x + 32
        ||| 65 <= y <= 90 && x == y + 32
    } by {}
}

/// A request whose `Transfer-Encoding` mentions `chunked`, in any case, is read with
/// the data of its chunks as the body, whatever its `Content-Length` says.
pub proof fn chunked_request_is_read_as_meant(
    head: framing::SentHead,
    i: int,
    chunks: Seq<(SizeLine, Seq<u8>)>,
    last: SizeLine,
    trailers: Seq<Seq<u8>>,
    more: Seq<u8>,
)
    requires
        head.well_formed(),
        head.path() is Some,
        head.last_named(i, "transfer-encoding"@),
        mentions(head.headers[i].1, "chunked"@),
        chunks_fit(chunks),
        last.fits(),
        hex_number(last.digits) == 0,
        forall|k: int|
            0 <= k < trailers.len() ==> (#[trigger] trailers[k]).len() > 0 && plain_line(
                trailers[k],
            ),
    ensures
        http::read_request(head.bytes() + sent_in_chunks(chunks, last, trailers) + more) == (
        Outcome::Complete {
            request: head.request(chunk_data(chunks)),
            used: (head.bytes().len() + sent_in_chunks(chunks, last, trailers).len()) as int,
        }),
{
    reveal(http::read_request);
    let sent = sent_in_chunks(chunks, last, trailers);
    lemma_framing_names();
    lemma_named(head, "transfer-encoding"@, i);
    lemma_mentions(head.headers[i].1, "chunked"@);
    framing::lemma_head_read(head, sent + more);
    assert(head.bytes() + sent + more =~= head.bytes() + (sent + more));
    chunks_are_read_in_any_spelling(chunks, last, trailers, more);
}

/// A `Content-Length` that begins with neither a digit nor a plus sign spoils the
/// request.
pub proof fn odd_length_is_refused(head: framing::SentHead, i: int, more: Seq<u8>)
    requires
        head.well_formed(),
        head.path() is Some,
        head.lacks("transfer-encoding"@),
        head.last_named(i, "content-length"@),
        head.headers[i].1.len() == 0 || !('0' <= head.headers[i].1[0] <= '9')
            && head.headers[i].1[0] != '+',
    ensures
        http::read_request(head.bytes() + more) is Bad,
{
    reveal(http::read_request);
    lemma_framing_names();
    lemma_named(head, "transfer-encoding"@, 0);
    lemma_named(head, "content-length"@, i);
    framing::lemma_head_read(head, more);
    let value = head.headers[i].1;
    if value.len() > 0 {
        lemma_first_decimal_bad(value);
    }
}

pub proof fn lemma_first_decimal_bad(t: Seq<char>)
    requires
        t.len() > 0,
        !('0' <= t[0] <= '9'),
    ensures
        numeral::digits_value(t, 10) is None,
    decreases t.len(),
{
    if t.len() > 1 {
        lemma_first_decimal_bad(t.drop_last());
    }
}

/// A plus sign in front of a number does not matter.
pub proof fn plus_sign_does_not_matter(digits: Seq<char>, radix: int, max: int)
    requires
        digits.len() > 0,
        digits[0] != '+',
    ensures
        numeral::number_within(seq!['+'] + digits, radix, max) == numeral::number_within(
            digits,
            radix,
            max,
        ),
{
    assert((seq!['+'] + digits).skip(1) =~= digits);
    assert((seq!['+'] + digits).drop_first() =~= digits);
}

/// Words with a space between them.
pub open spec fn spaced_words(words: Seq<Seq<char>>) -> Seq<char>
    decreases words.len(),
{
    if words.len() == 0 {
        seq![]
    } else if words.len() == 1 {
        words[0]
    } else {
        words[0] + seq![' '] + spaced_words(words.skip(1))
    }
}

proof fn lemma_words_told_apart(words: Seq<Seq<char>>)
    requires
        words.len() > 0,
        forall|i: int| 0 <= i < words.len() ==> framing::free_of(#[trigger] words[i], ' '),
    ensures
        text::pieces(spaced_words(words), seq![' ']) == words,
    decreases words.len(),
{
    let sep = seq![' '];
    let s = spaced_words(words);
    assert(framing::free_of(words[0], ' '));
    if words.len() == 1 {
        text::lemma_first_index_absent(words[0], ' ');
        assert(words =~= seq![words[0]]);
    } else {
        let rest = words.skip(1);
        assert forall|i: int| 0 <= i < rest.len() implies framing::free_of(
            #[trigger] rest[i],
            ' ',
        ) by {
            assert(rest[i] == words[i + 1]);
        }
        lemma_words_told_apart(rest);
        text::lemma_first_index_behind(words[0], sep, spaced_words(rest));
        assert(s.take(words[0].len() as int) =~= words[0]);
        assert(s.skip(words[0].len() as int + 1) =~= spaced_words(rest));
        assert(seq![words[0]] + rest =~= words);
    }
}

/// A request line has three words: a method, a target that begins with a slash, and
/// the version HTTP/1.1 or HTTP/1.0. Any other is refused; and so is a header line
/// without a colon.
pub proof fn malformed_head_is_refused(
    words: Seq<Seq<char>>,
    headers: Seq<Seq<char>>,
    k: int,
    more: Seq<u8>,
)
    requires
        words.len() > 0,
        forall|i: int| 0 <= i < words.len() ==> framing::free_of(#[trigger] words[i], ' '),
        framing::one_line(spaced_words(words)),
        forall|i: int|
            0 <= i < headers.len() ==> (#[trigger] headers[i]).len() > 0 && framing::one_line(
                headers[i],
            ),
        words.len() != 3 || words[0].len() == 0 || words[1].len() == 0 || words[1][0] != '/'
            || words[2] != "HTTP/1.1"@ && words[2] != "HTTP/1.0"@ || 0 <= k < headers.len()
            && framing::free_of(headers[k], ':'),
    ensures
        http::read_request(
            vstd::utf8::encode_utf8(framing::joined_lines(seq![spaced_words(words)] + headers))
                + text::blank_line() + more,
        ) is Bad,
{
    reveal(http::read_request);
    let lines = seq![spaced_words(words)] + headers;
    assert forall|i: int| 0 <= i < lines.len() implies framing::one_line(#[trigger] lines[i]) && (i
        > 0 ==> lines[i].len() > 0) by {
        if i > 0 {
            assert(lines[i] == headers[i - 1]);
        }
    }
    framing::lemma_lines_told_apart(lines);
    framing::lemma_blank_line_found(lines, more);
    let t = framing::joined_lines(lines);
    let whole = vstd::utf8::encode_utf8(t) + text::blank_line() + more;
    assert(whole.take(vstd::utf8::encode_utf8(t).len() as int) =~= vstd::utf8::encode_utf8(t));
    vstd::utf8::encode_utf8_valid_utf8(t);
    vstd::utf8::encode_utf8_decode_utf8(t);
    lemma_words_told_apart(words);
    assert(lines.skip(1) =~= headers);
    if 0 <= k < headers.len() && framing::free_of(headers[k], ':') {
        lemma_no_colon(headers, k, Map::empty());
    }
}

proof fn lemma_no_colon(lines: Seq<Seq<char>>, k: int, found: Map<Seq<char>, Seq<char>>)
    requires
        0 <= k < lines.len(),
        lines[k].len() > 0,
        framing::free_of(lines[k], ':'),
    ensures
        http::header_map(lines, found) is None,
    decreases lines.len(),
{
    let more = lines.drop_first();
    if k == 0 {
        text::lemma_first_index_absent(lines[0], ':');
    } else {
        assert(more[k - 1] == lines[k]);
        if lines[0].len() == 0 {
            lemma_no_colon(more, k - 1, found);
        } else if let Some((name, value)) = text::cut_at(lines[0], ':') {
            lemma_no_colon(
                more,
                k - 1,
                found.insert(text::lowered(text::trimmed(name)), text::trimmed(value)),
            );
        }
    }
}

/// The length that a head announces is known as soon as the head is there, and is
/// the length of the body that is read in the end.
pub proof fn announced_length_is_that_of_the_body(head: framing::SentHead, i: int, more: Seq<u8>)
    requires
        head.well_formed(),
        head.path() is Some,
        0 <= i < head.headers.len(),
        same_but_for_case(head.headers[i].0, "content-length"@),
        forall|j: int|
            0 <= j < i ==> !same_but_for_case((#[trigger] head.headers[j]).0, "content-length"@),
        all_digits(head.headers[i].1),
        decimal_number(head.headers[i].1) <= usize::MAX,
    ensures
        http::announced_length(head.bytes() + more) == Some(decimal_number(head.headers[i].1)),
{
    framing::lemma_head_read(head, more);
    let lines = head.lines();
    let headers = head.headers;
    assert forall|k: int| 0 <= k < lines.len() implies framing::one_line(#[trigger] lines[k]) by {
        if k > 0 {
            let (name, value) = headers[k - 1];
            assert(lines[k] == framing::header_line((name, value)));
            assert(framing::one_line(name) && framing::one_line(value));
        } else {
            reveal_strlit("HTTP/1.1");
            reveal_strlit("HTTP/1.0");
        }
    }
    framing::lemma_lines_told_apart(lines);
    let behind = lines.skip(1);
    lemma_framing_names();
    lemma_first_length(headers, behind, i);
}

proof fn lemma_first_length(
    headers: Seq<(Seq<char>, Seq<char>)>,
    lines: Seq<Seq<char>>,
    i: int,
)
    requires
        lines.len() == headers.len(),
        0 <= i < headers.len(),
        text::lowered("content-length"@) == "content-length"@,
        forall|k: int|
            0 <= k < headers.len() ==> {
                let (name, value) = #[trigger] headers[k];
                framing::free_of(name, ':') && framing::tight(name) && framing::tight(value)
                    && lines[k] == framing::header_line((name, value))
            },
        same_but_for_case(headers[i].0, "content-length"@),
        forall|j: int|
            0 <= j < i ==> !same_but_for_case((#[trigger] headers[j]).0, "content-length"@),
        all_digits(headers[i].1),
        decimal_number(headers[i].1) <= usize::MAX,
    ensures
        http::first_length(lines) == Some(decimal_number(headers[i].1)),
    decreases headers.len(),
{
    let (name, value) = headers[0];
    let line = lines[0];
    let spaced = seq![' '] + value;
    text::lemma_first_index_behind(name, seq![':'], spaced);
    assert(line.take(name.len() as int) =~= name);
    assert(line.skip(name.len() as int + 1) =~= spaced);
    text::lemma_trimmed_as_is(name);
    assert(spaced.drop_first() =~= value);
    text::lemma_trimmed_as_is(value);
    assert(text::trimmed(spaced) == value);
    lemma_same_but_for_case(name, "content-length"@);
    if i == 0 {
        lemma_decimal_number(value);
        assert('0' <= value[0] <= '9');
    } else {
        let rest = headers.skip(1);
        assert(!same_but_for_case(headers[0].0, "content-length"@));
        assert forall|k: int| 0 <= k < rest.len() implies {
            let (name, value) = #[trigger] rest[k];
            framing::free_of(name, ':') && framing::tight(name) && framing::tight(value)
                && lines.skip(1)[k] == framing::header_line((name, value))
        } by {
            assert(headers[k + 1] == rest[k]);
        }
        assert forall|j: int| 0 <= j < i - 1 implies !same_but_for_case(
            (#[trigger] rest[j]).0,
            "content-length"@,
        ) by {
            assert(headers[j + 1] == rest[j]);
        }
        assert(rest[i - 1] == headers[i]);
        lemma_first_length(rest, lines.skip(1), i - 1);
        assert(lines.drop_first() =~= lines.skip(1));
    }
}

/// A head is waited for up to 32 kibibytes; one that is still not at its end behind
/// them is refused, and so is one that is no text.
pub proof fn endless_head_is_refused(buffer: Seq<u8>)
    ensures
        !text::holds(buffer, seq![13u8, 10u8, 13u8, 10u8]) ==> if buffer.len() > 32 * 1024 {
            http::read_request(buffer) is Bad
        } else {
            http::read_request(buffer) is NeedMoreHeaders
        },
        text::first_index(buffer, seq![13u8, 10u8, 13u8, 10u8]) matches Some(end)
            && !vstd::utf8::valid_utf8(buffer.take(end)) ==> http::read_request(buffer) is Bad,
{
    reveal(http::read_request);
    assert(seq![13u8, 10u8, 13u8, 10u8] =~= text::blank_line());
}

} // verus!
