//! What the server writes, as those who read it find it: answers on the wire, dates,
//! and the pages that the server makes up.

use vstd::prelude::*;

use crate::date;
use crate::date::Date;
use crate::framing;
use crate::http;
use crate::http::ResponseView;
use crate::numeral;
use crate::pages;
use crate::pages::EntryView;
use crate::text;

verus! {

// ------------------------------------------------------------------------- answers

/// The lines of a header section as a client reads them.
pub open spec fn answer_lines(
    response: ResponseView,
    keep_alive: bool,
    unix_seconds: int,
) -> Seq<Seq<char>> {
    seq![
        "HTTP/1.1 "@ + numeral::decimal(response.status as nat) + seq![' '] + http::reason_text(
            response.status,
        ),
        "Content-Length: "@ + numeral::decimal(response.body.len()),
        "Date: "@ + date::http_date_text(unix_seconds),
        "Server: localhost-rs"@,
        if keep_alive {
            "Connection: keep-alive"@
        } else {
            "Connection: close"@
        },
    ] + Seq::new(response.headers.len(), |i: int| framing::header_line(response.headers[i]))
}

/// Lines, each with its end.
spec fn ended(lines: Seq<Seq<char>>) -> Seq<char>
    decreases lines.len(),
{
    if lines.len() == 0 {
        seq![]
    } else {
        ended(lines.drop_last()) + lines.last() + text::line_end()
    }
}

proof fn lemma_ended_first(line: Seq<char>, lines: Seq<Seq<char>>)
    ensures
        ended(seq![line] + lines) == line + text::line_end() + ended(lines),
    decreases lines.len(),
{
    let all = seq![line] + lines;
    if lines.len() == 0 {
        assert(all.drop_last() =~= seq![]);
        assert(ended(all.drop_last()) =~= seq![]);
        assert(ended(all) =~= line + text::line_end() + ended(lines));
    } else {
        lemma_ended_first(line, lines.drop_last());
        assert(all.drop_last() =~= seq![line] + lines.drop_last());
        assert(ended(all) =~= line + text::line_end() + ended(lines));
    }
}

proof fn lemma_ended_joined(lines: Seq<Seq<char>>)
    requires
        lines.len() > 0,
    ensures
        ended(lines) == framing::joined_lines(lines) + text::line_end(),
    decreases lines.len(),
{
    let more = lines.skip(1);
    assert(seq![lines[0]] + more =~= lines);
    lemma_ended_first(lines[0], more);
    if lines.len() == 1 {
        assert(more =~= seq![]);
        assert(ended(lines) =~= framing::joined_lines(lines) + text::line_end());
    } else {
        lemma_ended_joined(more);
        assert(ended(lines) =~= framing::joined_lines(lines) + text::line_end());
    }
}

proof fn lemma_header_lines(headers: Seq<(Seq<char>, Seq<char>)>)
    ensures
        http::header_lines(headers) == ended(
            Seq::new(headers.len(), |i: int| framing::header_line(headers[i])),
        ),
    decreases headers.len(),
{
    let lines = Seq::new(headers.len(), |i: int| framing::header_line(headers[i]));
    reveal_strlit(": ");
    reveal_strlit("\r\n");
    if headers.len() > 0 {
        let front = headers.drop_last();
        lemma_header_lines(front);
        assert(lines.drop_last() =~= Seq::new(
            front.len(),
            |i: int| framing::header_line(front[i]),
        ));
        assert(http::header_lines(headers) =~= ended(lines));
    }
}

proof fn lemma_regrouped(a: Seq<char>, b: Seq<char>, c: Seq<char>)
    ensures
        (a + b) + c == a + (b + c),
{
    assert((a + b) + c =~= a + (b + c));
}

/// Lines that are written one behind the other, each with its end.
proof fn lemma_five_lines(
    l0: Seq<char>,
    l1: Seq<char>,
    l2: Seq<char>,
    l3: Seq<char>,
    l4: Seq<char>,
    own: Seq<Seq<char>>,
)
    ensures
        ({
            let e = text::line_end();
            ended(seq![l0, l1, l2, l3, l4] + own) == l0 + e + (l1 + e + (l2 + e + (l3 + e + (l4 + e
                + ended(own)))))
        }),
{
    let s4 = seq![l4] + own;
    let s3 = seq![l3] + s4;
    let s2 = seq![l2] + s3;
    let s1 = seq![l1] + s2;
    let s0 = seq![l0] + s1;
    lemma_ended_first(l4, own);
    lemma_ended_first(l3, s4);
    lemma_ended_first(l2, s3);
    lemma_ended_first(l1, s2);
    lemma_ended_first(l0, s1);
    assert(s0 =~= seq![l0, l1, l2, l3, l4] + own);
}

proof fn lemma_fixed_lines()
    ensures
        "\r\n"@ == text::line_end(),
        " "@ == seq![' '],
        "Server: localhost-rs\r\n"@ == "Server: localhost-rs"@ + text::line_end(),
        "Connection: keep-alive\r\n"@ == "Connection: keep-alive"@ + text::line_end(),
        "Connection: close\r\n"@ == "Connection: close"@ + text::line_end(),
{
    reveal_strlit("\r\n");
    reveal_strlit(" ");
    reveal_strlit("Server: localhost-rs\r\n");
    reveal_strlit("Server: localhost-rs");
    reveal_strlit("Connection: keep-alive\r\n");
    reveal_strlit("Connection: keep-alive");
    reveal_strlit("Connection: close\r\n");
    reveal_strlit("Connection: close");
    assert("\r\n"@ =~= text::line_end());
    assert(" "@ =~= seq![' ']);
    assert("Server: localhost-rs\r\n"@ =~= "Server: localhost-rs"@ + text::line_end());
    assert("Connection: keep-alive\r\n"@ =~= "Connection: keep-alive"@ + text::line_end());
    assert("Connection: close\r\n"@ =~= "Connection: close"@ + text::line_end());
}

proof fn lemma_head(response: ResponseView, keep_alive: bool, unix_seconds: int)
    ensures
        response.head(keep_alive, unix_seconds) == framing::joined_lines(
            answer_lines(response, keep_alive, unix_seconds),
        ) + text::line_end() + text::line_end(),
{
    let lines = answer_lines(response, keep_alive, unix_seconds);
    let own = Seq::new(
        response.headers.len(),
        |i: int| framing::header_line(response.headers[i]),
    );
    let e = text::line_end();
    let l0 = lines[0];
    let (x1, y1) = ("Content-Length: "@, numeral::decimal(response.body.len()));
    let (x2, y2) = ("Date: "@, date::http_date_text(unix_seconds));
    let l3 = "Server: localhost-rs"@;
    let l4 = if keep_alive {
        "Connection: keep-alive"@
    } else {
        "Connection: close"@
    };
    lemma_fixed_lines();
    lemma_header_lines(response.headers);
    assert(lines =~= seq![l0, x1 + y1, x2 + y2, l3, l4] + own);
    lemma_five_lines(l0, x1 + y1, x2 + y2, l3, l4, own);
    lemma_ended_joined(lines);
    let h = ended(own);
    lemma_written(l0, x1, y1, x2, y2, l3, l4, h, e);
}

/// The same text, grouped by lines.
proof fn lemma_written(
    l0: Seq<char>,
    x1: Seq<char>,
    y1: Seq<char>,
    x2: Seq<char>,
    y2: Seq<char>,
    l3: Seq<char>,
    l4: Seq<char>,
    h: Seq<char>,
    e: Seq<char>,
)
    ensures
        l0 + e + x1 + y1 + e + x2 + y2 + e + (l3 + e) + (l4 + e) + h == l0 + e + ((x1 + y1) + e + ((
        x2 + y2) + e + (l3 + e + (l4 + e + h)))),
{
    let a = l0 + e;
    let b = x1 + y1 + e;
    let c = x2 + y2 + e;
    lemma_regrouped(a, x1, y1);
    lemma_regrouped(a, x1 + y1, e);
    assert(a + x1 + y1 + e == a + b);
    lemma_regrouped(a + b, x2, y2);
    lemma_regrouped(a + b, x2 + y2, e);
    assert(a + b + x2 + y2 + e == a + b + c);
    lemma_regrouped(a + b + c + (l3 + e), l4 + e, h);
    lemma_regrouped(a + b + c, l3 + e, l4 + e + h);
    lemma_regrouped(a + b, c, l3 + e + (l4 + e + h));
    lemma_regrouped(a, b, c + (l3 + e + (l4 + e + h)));
}

/// A client that reads an answer finds its header lines, one by one: the status
/// with its reason, the length of the body, the date, the server, whether the
/// connection stays open, and the headers of the answer in their order. Behind the
/// first blank line it finds the body, byte for byte, unless only the head was
/// asked for.
pub proof fn answer_is_read_as_it_is_meant(
    response: ResponseView,
    keep_alive: bool,
    unix_seconds: int,
)
    requires
        forall|i: int|
            0 <= i < response.headers.len() ==> framing::one_line((#[trigger] response.headers[i]).0)
                && framing::one_line(response.headers[i].1),
        unix_seconds >= 0,
    ensures
        ({
            let sent = response.serialized(keep_alive, unix_seconds);
            let end = text::first_index(sent, text::blank_line());
            &&& end matches Some(n) && {
                &&& text::decoded(sent.take(n)) matches Some(head) && text::pieces(
                    head,
                    text::line_end(),
                ) == answer_lines(response, keep_alive, unix_seconds)
                &&& sent.skip(n + 4) == if response.suppress_body {
                    seq![]
                } else {
                    response.body
                }
            }
        }),
{
    let lines = answer_lines(response, keep_alive, unix_seconds);
    let t = framing::joined_lines(lines);
    let eol = text::line_end();
    lemma_head(response, keep_alive, unix_seconds);
    lemma_date_line(unix_seconds);
    lemma_lines_fit(response, keep_alive, unix_seconds);
    let bytes = vstd::utf8::encode_utf8(t);
    let more = if response.suppress_body {
        seq![]
    } else {
        response.body
    };
    let blank = eol + eol;
    assert(t + eol + eol =~= t + blank);
    text::lemma_bytes_of_parts(t, blank);
    assert(vstd::utf8::is_ascii_chars(blank));
    vstd::utf8::is_ascii_chars_encode_utf8(blank);
    assert(vstd::utf8::encode_utf8(blank) =~= text::blank_line());
    let sent = response.serialized(keep_alive, unix_seconds);
    assert(sent =~= bytes + text::blank_line() + more);
    framing::lemma_blank_line_found(lines, more);
    framing::lemma_lines_told_apart(lines);
    assert(sent.take(bytes.len() as int) =~= bytes);
    assert(sent.skip(bytes.len() as int + 4) =~= more);
    vstd::utf8::encode_utf8_valid_utf8(t);
    vstd::utf8::encode_utf8_decode_utf8(t);
}

proof fn lemma_decimal_line(n: nat)
    ensures
        framing::one_line(numeral::decimal(n)),
    decreases n,
{
    if n >= 10 {
        numeral::lemma_quotient_below(n as int, 10);
        lemma_decimal_line((n as int / 10) as nat);
    }
}

proof fn lemma_reason_line(status: u16)
    ensures
        framing::one_line(http::reason_text(status)),
{
    reveal_strlit("OK");
    reveal_strlit("Created");
    reveal_strlit("No Content");
    reveal_strlit("Moved Permanently");
    reveal_strlit("Found");
    reveal_strlit("Bad Request");
    reveal_strlit("Forbidden");
    reveal_strlit("Not Found");
    reveal_strlit("Method Not Allowed");
    reveal_strlit("Request Timeout");
    reveal_strlit("Length Required");
    reveal_strlit("Payload Too Large");
    reveal_strlit("Internal Server Error");
    reveal_strlit("Not Implemented");
    reveal_strlit("HTTP Version Not Supported");
    reveal_strlit("Unknown");
}

proof fn lemma_date_line(unix_seconds: int)
    requires
        unix_seconds >= 0,
    ensures
        framing::one_line(date::http_date_text(unix_seconds)),
{
    reveal_strlit("Sun");
    reveal_strlit("Mon");
    reveal_strlit("Tue");
    reveal_strlit("Wed");
    reveal_strlit("Thu");
    reveal_strlit("Fri");
    reveal_strlit("Sat");
    reveal_strlit("Jan");
    reveal_strlit("Feb");
    reveal_strlit("Mar");
    reveal_strlit("Apr");
    reveal_strlit("May");
    reveal_strlit("Jun");
    reveal_strlit("Jul");
    reveal_strlit("Aug");
    reveal_strlit("Sep");
    reveal_strlit("Oct");
    reveal_strlit("Nov");
    reveal_strlit("Dec");
    reveal_strlit(", ");
    reveal_strlit(" ");
    reveal_strlit(":");
    reveal_strlit(" GMT");
    let n = unix_seconds / 86400;
    let t = unix_seconds % 86400;
    let d = date::civil_date(n);
    let day = date::weekday_name((n + 4) % 7);
    let month = date::month_name(d.month);
    assert(framing::one_line(day) && framing::one_line(month));
    lemma_decimal_line(d.day as nat);
    lemma_decimal_line(d.year as nat);
    lemma_decimal_line((t / 3600) as nat);
    lemma_decimal_line(((t / 60) % 60) as nat);
    lemma_decimal_line((t % 60) as nat);
}

proof fn lemma_lines_fit(response: ResponseView, keep_alive: bool, unix_seconds: int)
    requires
        forall|i: int|
            0 <= i < response.headers.len() ==> framing::one_line((#[trigger] response.headers[i]).0)
                && framing::one_line(response.headers[i].1),
        framing::one_line(date::http_date_text(unix_seconds)),
    ensures
        forall|i: int|
            0 <= i < answer_lines(response, keep_alive, unix_seconds).len() ==> framing::one_line(
                #[trigger] answer_lines(response, keep_alive, unix_seconds)[i],
            ),
        forall|i: int|
            0 < i < answer_lines(response, keep_alive, unix_seconds).len() ==> (
            #[trigger] answer_lines(response, keep_alive, unix_seconds)[i]).len() > 0,
{
    reveal_strlit("HTTP/1.1 ");
    reveal_strlit("Content-Length: ");
    reveal_strlit("Date: ");
    reveal_strlit("Server: localhost-rs");
    reveal_strlit("Connection: keep-alive");
    reveal_strlit("Connection: close");
    let lines = answer_lines(response, keep_alive, unix_seconds);
    lemma_decimal_line(response.status as nat);
    lemma_decimal_line(response.body.len());
    lemma_reason_line(response.status);
    assert forall|i: int| 0 <= i < lines.len() implies framing::one_line(#[trigger] lines[i]) && (i
        > 0 ==> lines[i].len() > 0) by {
        if i >= 5 {
            let header = response.headers[i - 5];
            assert(lines[i] == framing::header_line(header));
            assert(framing::one_line(header.0) && framing::one_line(header.1));
        }
    }
}

// --------------------------------------------------------------------------- dates

/// Two decimal digits.
pub open spec fn two_figures(n: int) -> Seq<char> {
    seq![(48 + n / 10) as char, (48 + n % 10) as char]
}

/// The days of the week in their order from Thursday on, which the first of January
/// 1970 was.
pub open spec fn weekdays() -> Seq<Seq<char>> {
    seq!["Thu"@, "Fri"@, "Sat"@, "Sun"@, "Mon"@, "Tue"@, "Wed"@]
}

/// The months in their order.
pub open spec fn months() -> Seq<Seq<char>> {
    seq![
        "Jan"@,
        "Feb"@,
        "Mar"@,
        "Apr"@,
        "May"@,
        "Jun"@,
        "Jul"@,
        "Aug"@,
        "Sep"@,
        "Oct"@,
        "Nov"@,
        "Dec"@,
    ]
}

proof fn lemma_two_figures(n: int)
    requires
        0 <= n < 100,
    ensures
        numeral::two_digits(n as nat) == two_figures(n),
{
    reveal_with_fuel(numeral::in_radix, 3);
    if n >= 10 {
        assert(numeral::in_radix((n / 10) as nat, 10) =~= seq![numeral::digit_char(n / 10)]);
    }
    assert(numeral::two_digits(n as nat) =~= two_figures(n));
}

/// A time is written with its day of the week, its date and its time of day, each
/// with as many figures as the protocol wants.
pub proof fn time_is_written_as_the_protocol_has_it(d: Date, h: int, m: int, s: int)
    requires
        d.valid(),
        0 <= h < 24,
        0 <= m < 60,
        0 <= s < 60,
    ensures
        date::http_date_text(d.day_number() * 86400 + h * 3600 + m * 60 + s) == weekdays()[
        d.day_number() % 7] + ", "@ + two_figures(d.day) + " "@ + months()[d.month - 1] + " "@
            + numeral::decimal(d.year as nat) + " "@ + two_figures(h) + ":"@ + two_figures(m) + ":"@
            + two_figures(s) + " GMT"@,
{
    let n = d.day_number();
    let t = h * 3600 + m * 60 + s;
    let unix = n * 86400 + t;
    date::civil_date_is(d);
    assert(unix / 86400 == n && unix % 86400 == t) by (nonlinear_arith)
        requires
            unix == n * 86400 + t,
            0 <= t < 86400,
    ;
    assert(t / 3600 == h && (t / 60) % 60 == m && t % 60 == s);
    lemma_two_figures(d.day);
    lemma_two_figures(h);
    lemma_two_figures(m);
    lemma_two_figures(s);
    assert((n + 4) % 7 == (n % 7 + 4) % 7);
    assert(date::weekday_name((n + 4) % 7) == weekdays()[n % 7]);
    assert(date::month_name(d.month) == months()[d.month - 1]);
}

// --------------------------------------------------------------------------- pages

/// A link to a name, as an item of a list.
pub open spec fn item(name: Seq<char>) -> Seq<char> {
    "<li><a href=\""@ + name + "\">"@ + name + "</a></li>"@
}

/// The text stands in the page.
pub open spec fn shows(page: Seq<char>, part: Seq<char>) -> bool {
    exists|a: Seq<char>, b: Seq<char>| page == #[trigger] (a + part + b)
}

/// The items of the names, one behind the other.
pub open spec fn items(names: Seq<Seq<char>>) -> Seq<char>
    decreases names.len(),
{
    if names.len() == 0 {
        seq![]
    } else {
        items(names.drop_last()) + item(names.last())
    }
}

proof fn lemma_items(names: Seq<Seq<char>>)
    ensures
        pages::link_items(names) == items(names),
    decreases names.len(),
{
    if names.len() > 0 {
        lemma_items(names.drop_last());
        assert(pages::link_items(names) =~= items(names));
    }
}

/// Names are in order where the first is the beginning of the second, or comes before
/// it at the first character in which they differ.
pub proof fn names_are_ordered_by_their_first_difference(
    a: Seq<char>,
    b: Seq<char>,
    k: int,
)
    requires
        0 <= k <= a.len(),
        k <= b.len(),
        a.take(k) == b.take(k),
        k == a.len() || k == b.len() || a[k] != b[k],
    ensures
        pages::in_order(a, b) == (k == a.len() || k < b.len() && a[k] < b[k]),
    decreases k,
{
    if k > 0 {
        assert(a.take(k)[0] == a[0] && b.take(k)[0] == b[0]);
        assert(a.drop_first().take(k - 1) =~= a.take(k).drop_first());
        assert(b.drop_first().take(k - 1) =~= b.take(k).drop_first());
        names_are_ordered_by_their_first_difference(a.drop_first(), b.drop_first(), k - 1);
    }
}

/// A listing links to every entry of the directory, once for each, in the order of
/// their names, with a slash behind those that are directories, and to the directory
/// above.
pub proof fn listing_links_to_every_entry(url_path: Seq<char>, entries: Seq<EntryView>) -> (names:
    Seq<Seq<char>>)
    ensures
        names.to_multiset() == Seq::new(
            entries.len(),
            |i: int|
                if entries[i].is_dir {
                    entries[i].name.push('/')
                } else {
                    entries[i].name
                },
        ).to_multiset(),
        pages::all_in_order(names),
        shows(pages::listing_text(url_path, entries), item("../"@) + items(names)),
        shows(pages::listing_text(url_path, entries), url_path),
{
    let listed = Seq::new(
        entries.len(),
        |i: int|
            if entries[i].is_dir {
                entries[i].name.push('/')
            } else {
                entries[i].name
            },
    );
    reveal_strlit("/");
    assert(pages::listed_names(entries) =~= listed) by {
        assert forall|i: int| 0 <= i < entries.len() implies pages::listed_names(entries)[i]
            == listed[i] by {
            assert(entries[i].name + "/"@ =~= entries[i].name.push('/'));
        }
    }
    let names = pages::sorted(listed);
    pages::sorting_keeps_every_name(listed);
    lemma_items(names);
    let page = pages::listing_text(url_path, entries);
    reveal_strlit("</h1><ul><li><a href=\"../\">../</a></li>");
    reveal_strlit("<li><a href=\"");
    reveal_strlit("../");
    reveal_strlit("\">");
    reveal_strlit("</a></li>");
    reveal_strlit("</h1><ul>");
    let up = item("../"@);
    assert("</h1><ul><li><a href=\"../\">../</a></li>"@ =~= "</h1><ul>"@ + up);
    let a = "<!DOCTYPE html><html><head><title>Index of "@;
    let b = "</title></head><body><h1>Index of "@;
    let z = "</ul></body></html>"@;
    assert(page =~= (a + url_path + b + url_path + "</h1><ul>"@) + (up + items(names)) + z);
    assert(page =~= a + url_path + (b + url_path + "</h1><ul>"@ + up + items(names) + z));
    names
}

/// The page behind an upload links to every file that was stored; the page for an
/// error shows its status and reason; that of a session shows its id and the number
/// of its visits; and that of a redirection links to its target.
pub proof fn pages_show_what_they_are_about(
    names: Seq<Seq<char>>,
    status: u16,
    id: Seq<char>,
    count: u64,
    target: Seq<char>,
)
    ensures
        shows(pages::stored_text(names), items(names)),
        shows(
            pages::error_text(status),
            numeral::decimal(status as nat) + " "@ + http::reason_text(status),
        ),
        shows(pages::session_text(id, count), "<code>"@ + id + "</code>"@),
        shows(pages::session_text(id, count), "<b>"@ + numeral::decimal(count as nat) + "</b>"@),
        shows(pages::moved_text(target), "<a href=\""@ + target + "\">"@),
{
    lemma_items(names);
    let stored = pages::stored_text(names);
    assert(stored =~= "<h1>201 Created</h1><ul>"@ + items(names)
        + "</ul><p><a href=\"./\">back</a></p>"@);
    let said = numeral::decimal(status as nat) + " "@ + http::reason_text(status);
    let a = "<!DOCTYPE html><html><head><title>"@;
    let b =
        "</title></head><body style=\"font-family:sans-serif;text-align:center;margin-top:15vh\"><h1>"@;
    let c = "</h1><hr style=\"width:12rem\"><p>localhost-rs</p></body></html>"@;
    assert(pages::error_text(status) =~= a + said + (b + said + c));
    reveal_strlit("<!DOCTYPE html><html><body><h1>Session</h1><p>Your session id: <code>");
    reveal_strlit("<!DOCTYPE html><html><body><h1>Session</h1><p>Your session id: ");
    reveal_strlit("</code></p><p>You visited this page <b>");
    reveal_strlit("</p><p>You visited this page ");
    reveal_strlit("</p><p>You visited this page <b>");
    reveal_strlit("</b> time(s).</p><p><a href=\"/\">home</a></p></body></html>");
    reveal_strlit(" time(s).</p><p><a href=\"/\">home</a></p></body></html>");
    reveal_strlit("<code>");
    reveal_strlit("</code>");
    reveal_strlit("<b>");
    reveal_strlit("</b>");
    let page = pages::session_text(id, count);
    let shown_id = "<code>"@ + id + "</code>"@;
    let shown_count = "<b>"@ + numeral::decimal(count as nat) + "</b>"@;
    let p = "<!DOCTYPE html><html><body><h1>Session</h1><p>Your session id: "@;
    let q = "</p><p>You visited this page "@;
    let z = " time(s).</p><p><a href=\"/\">home</a></p></body></html>"@;
    assert(page =~= p + shown_id + (q + shown_count + z));
    assert(page =~= (p + shown_id + q) + shown_count + z);
    reveal_strlit("<h1>301 Moved Permanently</h1><p><a href=\"");
    reveal_strlit("<h1>301 Moved Permanently</h1><p>");
    reveal_strlit("<a href=\"");
    assert(pages::moved_text(target) =~= "<h1>301 Moved Permanently</h1><p>"@ + ("<a href=\""@
        + target + "\">"@) + (target + "</a></p>"@));
}

} // verus!
