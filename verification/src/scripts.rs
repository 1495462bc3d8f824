//! Scripts: what they are told of a request, and how what they print is read.

use vstd::prelude::*;

use crate::cgi;
use crate::cgi::OutputHead;
use crate::clients;
use crate::http::{RequestView, ResponseView};
use crate::numeral;
use crate::text;

verus! {

// -------------------------------------------------------------------------- output

/// A header as a script prints it.
pub struct Printed {
    pub name: Seq<u8>,
    pub value: Seq<u8>,
}

impl Printed {
    /// The line of the header.
    pub open spec fn line(self) -> Seq<u8> {
        self.name + seq![58u8, 32u8] + self.value
    }

    /// The header can be printed like that.
    pub open spec fn fits(self) -> bool {
        &&& forall|i: int|
            0 <= i < self.name.len() ==> 32 < #[trigger] self.name[i] < 127 && self.name[i] != 58
        &&& forall|i: int| 0 <= i < self.value.len() ==> 32 <= #[trigger] self.value[i] < 127
        &&& self.value.len() > 0 ==> self.value[0] != 32 && self.value.last() != 32
    }

    /// The header is called like that, in any case.
    pub open spec fn is_called(self, name: Seq<char>) -> bool {
        clients::same_but_for_case(clients::as_chars(self.name), name)
    }
}

/// A line feed, perhaps behind a carriage return.
pub open spec fn line_break(long: bool) -> Seq<u8> {
    if long {
        seq![13u8, 10u8]
    } else {
        seq![10u8]
    }
}

/// The headers as a script prints them, with line breaks between them.
pub open spec fn headers_printed(headers: Seq<Printed>, long: bool) -> Seq<u8>
    decreases headers.len(),
{
    if headers.len() == 0 {
        seq![]
    } else if headers.len() == 1 {
        headers[0].line()
    } else {
        headers[0].line() + line_break(long) + headers_printed(headers.skip(1), long)
    }
}

/// Every header can be printed.
pub open spec fn headers_fit(headers: Seq<Printed>) -> bool {
    forall|i: int| 0 <= i < headers.len() ==> (#[trigger] headers[i]).fits()
}

/// The value is made of the digits, and perhaps a reason behind a space.
pub open spec fn status_text(
    value: Seq<char>,
    digits: Seq<char>,
    reason: Seq<char>,
    status: u16,
) -> bool {
    &&& clients::all_digits(digits)
    &&& clients::decimal_number(digits) == status
    &&& value == digits || value == digits + seq![' '] + reason
}

/// The value says the status: in digits, and perhaps with a reason behind a space.
pub open spec fn says_status(value: Seq<char>, status: u16) -> bool {
    exists|digits: Seq<char>, reason: Seq<char>| #[trigger]
        status_text(value, digits, reason, status)
}

/// What the headers say in the end, one after the other.
pub open spec fn said_by(headers: Seq<Printed>, head: OutputHead) -> OutputHead
    decreases headers.len(),
{
    if headers.len() == 0 {
        head
    } else {
        let h = headers[0];
        let value = clients::as_chars(h.value);
        let next = if h.is_called("status"@) {
            OutputHead { status: choose|status: u16| says_status(value, status), ..head }
        } else if h.is_called("content-type"@) {
            OutputHead { content_type: value, ..head }
        } else {
            OutputHead { extra: head.extra.push((clients::as_chars(h.name), value)), ..head }
        };
        said_by(headers.skip(1), next)
    }
}

proof fn lemma_line(h: Printed)
    requires
        h.fits(),
    ensures
        h.line().len() > 0,
        forall|i: int|
            0 <= i < h.line().len() ==> 32 <= #[trigger] h.line()[i] < 127,
        text::cut_at(clients::as_chars(h.line()), ':') matches Some((name, value))
            && text::trimmed(name) == clients::as_chars(h.name) && text::trimmed(value)
            == clients::as_chars(h.value),
{
    let line = h.line();
    assert forall|i: int| 0 <= i < line.len() implies 32 <= #[trigger] line[i] < 127 by {
        if i < h.name.len() {
            assert(line[i] == h.name[i]);
        } else if i >= h.name.len() + 2 {
            assert(line[i] == h.value[i - h.name.len() - 2]);
        }
    }
    let t = clients::as_chars(line);
    let name = clients::as_chars(h.name);
    let value = clients::as_chars(h.value);
    let spaced = seq![' '] + value;
    assert(t =~= name + seq![':'] + spaced);
    assert forall|i: int| 0 <= i < name.len() implies #[trigger] name[i] != ':' && !text::is_space(
        name[i],
    ) by {
        assert(32 < h.name[i] < 127);
    }
    text::lemma_first_index_behind(name, seq![':'], spaced);
    assert(t.take(name.len() as int) =~= name);
    assert(t.skip(name.len() as int + 1) =~= spaced);
    text::lemma_trimmed_as_is(name);
    if value.len() > 0 {
        assert(h.value[0] != 32 && h.value[h.value.len() - 1] != 32);
        assert(32 <= h.value[0] < 127 && 32 <= h.value[h.value.len() - 1] < 127);
    }
    assert(spaced.drop_first() =~= value);
    text::lemma_trimmed_as_is(value);
    reveal_with_fuel(text::drop_leading, 2);
    assert(text::is_space(spaced[0]));
    assert(text::trimmed(spaced) == value);
}

proof fn lemma_printed(headers: Seq<Printed>, long: bool)
    requires
        headers.len() > 0,
        headers_fit(headers),
    ensures
        ({
            let all = headers_printed(headers, long);
            &&& all.len() > 0
            &&& all[0] >= 32 && all.last() >= 32
            &&& forall|i: int| 0 <= i < all.len() ==> #[trigger] all[i] < 127
            &&& forall|i: int|
                0 <= i < all.len() && #[trigger] all[i] == 10 ==> i + 1 < all.len() && all[i + 1]
                    >= 32 && (long ==> i > 0 && all[i - 1] == 13)
            &&& !long ==> forall|i: int| 0 <= i < all.len() ==> #[trigger] all[i] != 13
            &&& forall|i: int|
                0 <= i < all.len() && #[trigger] all[i] == 13 ==> i + 1 < all.len() && all[i + 1]
                    == 10
            &&& text::text_lines(clients::as_chars(all)) == Seq::new(
                headers.len(),
                |i: int| clients::as_chars(headers[i].line()),
            )
        }),
    decreases headers.len(),
{
    let all = headers_printed(headers, long);
    let line = headers[0].line();
    let chars = clients::as_chars(line);
    assert(headers[0].fits());
    lemma_line(headers[0]);
    assert(line[0] >= 32 && line[line.len() - 1] >= 32);
    let expected = Seq::new(headers.len(), |i: int| clients::as_chars(headers[i].line()));
    assert forall|i: int| 0 <= i < chars.len() implies #[trigger] chars[i] != '\n' && chars[i]
        != '\r' by {
        assert(line[i] >= 32);
    }
    if headers.len() == 1 {
        text::lemma_first_index_absent(chars, '\n');
        assert(text::text_lines(chars) =~= expected);
    } else {
        let more = headers.skip(1);
        assert forall|i: int| 0 <= i < more.len() implies (#[trigger] more[i]).fits() by {
            assert(more[i] == headers[i + 1]);
        }
        lemma_printed(more, long);
        let rest = headers_printed(more, long);
        let brk = line_break(long);
        let n = line.len() as int;
        let k = n + brk.len();
        assert(all =~= line + brk + rest);
        assert forall|i: int| 0 <= i < all.len() implies #[trigger] all[i] < 127 && (all[i] == 10
            ==> i + 1 < all.len() && all[i + 1] >= 32 && (long ==> i > 0 && all[i - 1] == 13)) && (
        all[i] == 13 ==> long && i + 1 < all.len() && all[i + 1] == 10) by {
            if i < n {
                assert(all[i] == line[i]);
            } else if i >= k {
                assert(all[i] == rest[i - k]);
                if i + 1 < all.len() {
                    assert(all[i + 1] == rest[i + 1 - k]);
                }
                if i > k {
                    assert(all[i - 1] == rest[i - 1 - k]);
                }
            } else {
                assert(all[k] == rest[0]);
            }
        }
        let t = clients::as_chars(all);
        let rest_chars = clients::as_chars(rest);
        let front = if long {
            chars.push('\r')
        } else {
            chars
        };
        assert(t =~= front + seq!['\n'] + rest_chars);
        text::lemma_first_index_behind(front, seq!['\n'], rest_chars);
        assert(t.take(front.len() as int) =~= front);
        assert(t.skip(front.len() as int + 1) =~= rest_chars);
        if long {
            assert(front.drop_last() =~= chars);
        } else {
            assert(chars.last() == chars[chars.len() - 1]);
        }
        assert(text::without_cr(front) == chars);
        assert(text::text_lines(t) =~= expected);
        assert(all.last() == rest.last());
    }
}

proof fn lemma_first_blank(headers: Seq<Printed>, long: bool, body: Seq<u8>)
    requires
        headers.len() > 0,
        headers_fit(headers),
    ensures
        cgi::output_cut(
            headers_printed(headers, long) + (line_break(long) + line_break(long)) + body,
        ) == Some(
            (
                headers_printed(headers, long).len() as int,
                if long {
                    4int
                } else {
                    2
                },
            ),
        ),
{
    let all = headers_printed(headers, long);
    let n = all.len() as int;
    let blank = line_break(long) + line_break(long);
    let whole = all + blank + body;
    let feeds = seq![10u8, 10u8];
    lemma_printed(headers, long);
    assert forall|j: int| 0 <= j < n implies !text::occurs_at(whole, feeds, j) by {
        if text::occurs_at(whole, feeds, j) {
            let w = whole.subrange(j, j + 2);
            assert(w[0] == whole[j] && w[1] == whole[j + 1]);
            assert(all[j] == 10);
            assert(whole[j + 1] == all[j + 1]);
        }
    }
    assert forall|j: int| 0 <= j < n implies !text::occurs_at(whole, text::blank_line(), j) by {
        if text::occurs_at(whole, text::blank_line(), j) {
            let w = whole.subrange(j, j + 4);
            assert(w[0] == whole[j] && w[1] == whole[j + 1] && w[2] == whole[j + 2]);
            assert(all[j] == 13);
            assert(all[j + 1] == 10);
            assert(whole[j + 2] == all[j + 2]);
        }
    }
    text::lemma_index_from(whole, feeds, 0);
    text::lemma_index_from(whole, text::blank_line(), 0);
    if long {
        assert(whole.subrange(n, n + 4) =~= text::blank_line());
        text::lemma_first_index_is(whole, text::blank_line(), n);
        if let Some(j) = text::first_index(whole, feeds) {
            if j == n {
                assert(whole.subrange(n, n + 2)[0] == whole[n]);
                assert(whole[n] == 13);
            }
        }
    } else {
        assert(whole.subrange(n, n + 2) =~= feeds);
        text::lemma_first_index_is(whole, feeds, n);
        if let Some(j) = text::first_index(whole, text::blank_line()) {
            if j == n {
                assert(whole.subrange(n, n + 4)[0] == whole[n]);
                assert(whole[n] == 10);
            }
        }
    }
}

proof fn lemma_status(value: Seq<char>, status: u16)
    requires
        says_status(value, status),
    ensures
        cgi::status_of(value) == status,
{
    let (digits, reason) = choose|digits: Seq<char>, reason: Seq<char>| #[trigger]
        status_text(value, digits, reason, status);
    clients::lemma_decimal_number(digits);
    assert('0' <= digits[0] <= '9');
    text::lemma_first_index_absent(digits, ' ');
    text::lemma_first_index_behind(digits, seq![' '], reason);
    let whole = digits + seq![' '] + reason;
    assert(whole.take(digits.len() as int) =~= digits);
}

/// A status that does not begin with a number says nothing: the answer is a success.
pub proof fn status_without_a_number_is_a_success(value: Seq<char>)
    requires
        value.len() == 0 || !('0' <= value[0] <= '9') && value[0] != '+',
    ensures
        cgi::status_of(value) == 200,
{
    let word = text::before(value, ' ');
    text::lemma_index_from(value, seq![' '], 0);
    if word.len() > 0 {
        assert(word[0] == value[0]);
        clients::lemma_first_decimal_bad(word);
    }
}

proof fn lemma_said(headers: Seq<Printed>, head: OutputHead)
    requires
        headers_fit(headers),
        forall|i: int|
            0 <= i < headers.len() && (#[trigger] headers[i]).is_called("status"@)
                ==> exists|status: u16| says_status(clients::as_chars(headers[i].value), status),
    ensures
        cgi::read_lines(
            Seq::new(headers.len(), |i: int| clients::as_chars(headers[i].line())),
            head,
        ) == Some(said_by(headers, head)),
    decreases headers.len(),
{
    let lines = Seq::new(headers.len(), |i: int| clients::as_chars(headers[i].line()));
    if headers.len() > 0 {
        let h = headers[0];
        let more = headers.skip(1);
        assert(h.fits());
        lemma_line(h);
        assert forall|i: int| 0 <= i < more.len() implies (#[trigger] more[i]).fits() && (
        more[i].is_called("status"@) ==> exists|status: u16|
            says_status(clients::as_chars(more[i].value), status)) by {
            assert(more[i] == headers[i + 1]);
            assert(headers[i + 1].fits());
        }
        let value = clients::as_chars(h.value);
        let name = clients::as_chars(h.name);
        clients::lemma_same_but_for_case(name, "status"@);
        clients::lemma_same_but_for_case(name, "content-type"@);
        if h.is_called("status"@) {
            let status = choose|status: u16| says_status(value, status);
            lemma_status(value, status);
        }
        let next = cgi::with_line(head, name, value);
        lemma_said(more, next);
        assert(lines.skip(1) =~= Seq::new(
            more.len(),
            |i: int| clients::as_chars(more[i].line()),
        ));
    }
}

/// What a script prints is read as it means it: the headers up to the first blank
/// line, with line breaks of either form, give the status, the type and the further
/// headers in their order, and everything behind the blank line is the body, byte
/// for byte.
pub proof fn printed_answer_is_read(headers: Seq<Printed>, long: bool, body: Seq<u8>)
    requires
        headers.len() > 0,
        headers_fit(headers),
        forall|i: int|
            0 <= i < headers.len() && (#[trigger] headers[i]).is_called("status"@)
                ==> exists|status: u16| says_status(clients::as_chars(headers[i].value), status),
    ensures
        ({
            let output = headers_printed(headers, long) + (line_break(long) + line_break(long))
                + body;
            let said = said_by(
                headers,
                OutputHead {
                    status: 200,
                    content_type: "text/html; charset=utf-8"@,
                    extra: seq![],
                },
            );
            cgi::output_response(output) == (ResponseView {
                status: said.status,
                headers: seq![("Content-Type"@, said.content_type)] + said.extra,
                body,
                suppress_body: false,
            })
        }),
{
    let all = headers_printed(headers, long);
    let blank = line_break(long) + line_break(long);
    let output = all + blank + body;
    lemma_first_blank(headers, long, body);
    lemma_printed(headers, long);
    assert(output.take(all.len() as int) =~= all);
    assert(output.skip(all.len() as int + blank.len()) =~= body);
    clients::lemma_ascii_bytes(all);
    lemma_said(
        headers,
        OutputHead { status: 200, content_type: "text/html; charset=utf-8"@, extra: seq![] },
    );
}

/// What has no blank line is a page as a whole, and so is what begins with a line
/// that is no header.
pub proof fn printed_page_is_taken_whole(output: Seq<u8>, first: Seq<u8>, rest: Seq<u8>)
    requires
        !text::holds(output, seq![10u8, 10u8]),
        !text::holds(output, seq![13u8, 10u8, 13u8, 10u8]),
        forall|i: int|
            0 <= i < first.len() ==> 32 <= #[trigger] first[i] < 127 && first[i] != 58,
        first.len() > 0,
    ensures
        ({
            let a = cgi::output_response(output);
            let b = cgi::output_response(first + seq![10u8, 10u8] + rest);
            &&& a.status == 200 && b.status == 200
            &&& a.body == output && b.body == first + seq![10u8, 10u8] + rest
            &&& a.headers == seq![("Content-Type"@, "text/html; charset=utf-8"@)]
            &&& b.headers == a.headers
        }),
{
    assert(seq![13u8, 10u8, 13u8, 10u8] =~= text::blank_line());
    let feeds = seq![10u8, 10u8];
    let whole = first + feeds + rest;
    let n = first.len() as int;
    text::lemma_first_index_behind(first, feeds, rest);
    text::lemma_index_from(whole, text::blank_line(), 0);
    if let Some(j) = text::first_index(whole, text::blank_line()) {
        assert(whole.subrange(j, j + 4)[0] == whole[j]);
        if j < n {
            assert(whole[j] == first[j]);
        } else if j == n {
            assert(whole[n] == 10);
        }
    }
    assert(whole.take(n) =~= first);
    clients::lemma_ascii_bytes(first);
    let t = clients::as_chars(first);
    assert forall|i: int| 0 <= i < t.len() implies #[trigger] t[i] != ':' && t[i] != '\n' by {
        assert(32 <= first[i] < 127);
    }
    text::lemma_first_index_absent(t, ':');
    text::lemma_first_index_absent(t, '\n');
    assert(text::text_lines(t) =~= seq![t]);
}

// --------------------------------------------------------------------- environment

/// A script is told the method, the path, the query, the type and the length of the
/// body, each once, whatever else the request says.
pub proof fn script_is_told_the_request(request: RequestView)
    ensures
        ({
            let vars = cgi::variables(request);
            &&& vars.contains(("REQUEST_METHOD"@, request.method))
            &&& vars.contains(("SCRIPT_NAME"@, request.path))
            &&& vars.contains(("QUERY_STRING"@, request.query))
            &&& vars.contains(("CONTENT_LENGTH"@, numeral::decimal(request.body.len())))
            &&& request.header("content-type"@) matches Some(t) ==> vars.contains(
                ("CONTENT_TYPE"@, t),
            )
            &&& vars.contains(("GATEWAY_INTERFACE"@, "CGI/1.1"@))
            &&& vars.contains(("SERVER_PROTOCOL"@, "HTTP/1.1"@))
            &&& vars.len() == 7
        }),
{
    let vars = cgi::variables(request);
    assert(vars[0] == ("GATEWAY_INTERFACE"@, "CGI/1.1"@));
    assert(vars[1] == ("SERVER_PROTOCOL"@, "HTTP/1.1"@));
    assert(vars[2] == ("REQUEST_METHOD"@, request.method));
    assert(vars[3] == ("QUERY_STRING"@, request.query));
    assert(vars[4] == ("SCRIPT_NAME"@, request.path));
    assert(vars[5] == ("CONTENT_LENGTH"@, numeral::decimal(request.body.len())));
    assert(vars[6].0 == "CONTENT_TYPE"@);
}

/// A script has eight seconds, whether it hangs or prints.
pub proof fn script_has_eight_seconds(run: cgi::CgiRunView, now: u64)
    ensures
        run.overdue(now) <==> now > run.started + 8_000_000_000,
{
}

} // verus!
