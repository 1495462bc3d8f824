//! Requests, responses and dates.

use localhost::date::format_http_date;
use localhost::http::{
    declared_body_size, decode_chunked, http_date, percent_decode, reason, seconds_read, try_parse,
    ChunkStatus, ParseStatus, Request, Response,
};
use localhost::strmap::StrMap;

fn complete(raw: &[u8]) -> (Request, usize) {
    match try_parse(raw) {
        ParseStatus::Complete { request, used } => (request, used),
        other => panic!("expected Complete, got {other:?}"),
    }
}

#[test]
fn parses_a_simple_get() {
    let raw = b"GET /index.html?a=1 HTTP/1.1\r\nHost: example.com:8080\r\n\r\n";
    let (request, used) = complete(raw);
    assert_eq!(request.method, "GET");
    assert_eq!(request.path, "/index.html");
    assert_eq!(request.query, "a=1");
    assert_eq!(request.hostname().as_deref(), Some("example.com"));
    assert!(request.keep_alive());
    assert_eq!(used, raw.len());
}

#[test]
fn waits_for_the_full_body() {
    let raw = b"POST /x HTTP/1.1\r\nContent-Length: 10\r\n\r\n12345";
    assert_eq!(try_parse(raw), ParseStatus::NeedMoreBody);
    let full = b"POST /x HTTP/1.1\r\nContent-Length: 10\r\n\r\n1234567890";
    let (request, _) = complete(full);
    assert_eq!(request.body, b"1234567890");
}

#[test]
fn decodes_a_chunked_body() {
    let raw = b"POST /x HTTP/1.1\r\nTransfer-Encoding: chunked\r\n\r\n\
                4\r\nWiki\r\n5\r\npedia\r\n0\r\n\r\n";
    let (request, used) = complete(raw);
    assert_eq!(request.body, b"Wikipedia");
    assert_eq!(used, raw.len());
}

#[test]
fn incomplete_chunked_asks_for_more() {
    let raw = b"POST /x HTTP/1.1\r\nTransfer-Encoding: chunked\r\n\r\n4\r\nWi";
    assert_eq!(try_parse(raw), ParseStatus::NeedMoreBody);
}

#[test]
fn rejects_garbage() {
    assert!(matches!(try_parse(b"NOT A REQUEST\r\n\r\n"), ParseStatus::Bad(_)));
    assert!(matches!(
        try_parse(b"GET nothing HTTP/1.1\r\n\r\n"),
        ParseStatus::Bad(_)
    ));
    assert!(matches!(
        try_parse(b"GET / FTP/9\r\n\r\n"),
        ParseStatus::Bad(_)
    ));
}

#[test]
fn percent_decoding_works() {
    let raw = b"GET /my%20file.txt HTTP/1.1\r\n\r\n";
    let (request, _) = complete(raw);
    assert_eq!(request.path, "/my file.txt");
}

#[test]
fn cookies_are_parsed() {
    let raw = b"GET / HTTP/1.1\r\nCookie: SID=abc; theme=dark\r\n\r\n";
    let (request, _) = complete(raw);
    let cookies = request.cookies();
    assert_eq!(cookies.get("SID").map(String::as_str), Some("abc"));
    assert_eq!(cookies.get("theme").map(String::as_str), Some("dark"));
}

#[test]
fn keep_alive_rules() {
    let (one, _) = complete(b"GET / HTTP/1.0\r\n\r\n");
    assert!(!one.keep_alive());
    let (two, _) = complete(b"GET / HTTP/1.1\r\nConnection: close\r\n\r\n");
    assert!(!two.keep_alive());
}

#[test]
fn formats_http_dates_like_rfc_9110() {
    // Reference points cross-checked with `date -u -d @<seconds>`.
    assert_eq!(format_http_date(784_111_777), "Sun, 06 Nov 1994 08:49:37 GMT");
    assert_eq!(format_http_date(0), "Thu, 01 Jan 1970 00:00:00 GMT");
    assert_eq!(format_http_date(1_709_164_800), "Thu, 29 Feb 2024 00:00:00 GMT");
}

#[test]
fn head_answers_announce_a_length_but_send_no_body() {
    let mut response = Response::html(200, "<h1>hey</h1>".into());
    response.suppress_body = true;
    let text = String::from_utf8(response.serialize(true)).unwrap();
    assert!(text.contains("Content-Length: 12\r\n"));
    assert!(text.ends_with("\r\n\r\n"), "no body may follow the headers");
}

#[test]
fn serializes_a_response() {
    let mut response = Response::html(200, "<h1>hey</h1>".into());
    response.set_header("Set-Cookie", "SID=1");
    let bytes = response.serialize(true);
    let text = String::from_utf8(bytes).unwrap();
    assert!(text.starts_with("HTTP/1.1 200 OK\r\n"));
    assert!(text.contains("Content-Length: 12\r\n"));
    assert!(text.contains("Connection: keep-alive\r\n"));
    assert!(text.contains("Set-Cookie: SID=1\r\n"));
    assert!(text.contains("Date: "));
    assert!(text.ends_with("<h1>hey</h1>"));
}

#[test]
fn every_refusal_says_what_is_wrong() {
    let refusals: Vec<(&[u8], &str)> = vec![
        (b"GET /  HTTP/1.1\r\n\r\n", "malformed request line"),
        (b"GET /\r\n\r\n", "malformed request line"),
        (b" / HTTP/1.1\r\n\r\n", "malformed request line"),
        (b"GET x HTTP/1.1\r\n\r\n", "malformed request line"),
        (b"GET / HTTP/2\r\n\r\n", "unsupported protocol version"),
        (b"GET / HTTP/1.1\r\nno colon\r\n\r\n", "malformed header line"),
        (b"GET /%zz HTTP/1.1\r\n\r\n", "bad percent-encoding in path"),
        (b"GET /%ff HTTP/1.1\r\n\r\n", "bad percent-encoding in path"),
        (b"GET /\xff HTTP/1.1\r\n\r\n", "headers are not valid utf-8"),
        (
            b"GET / HTTP/1.1\r\nContent-Length: many\r\n\r\n",
            "invalid content-length",
        ),
        (
            b"GET / HTTP/1.1\r\nTransfer-Encoding: chunked\r\n\r\nzz\r\n",
            "malformed chunked body",
        ),
    ];
    for (raw, why) in refusals {
        assert_eq!(try_parse(raw), ParseStatus::Bad(why));
    }
}

#[test]
fn a_head_over_the_limit_is_refused() {
    assert_eq!(try_parse(&[b'a'; 32768]), ParseStatus::NeedMoreHeaders);
    assert_eq!(
        try_parse(&[b'a'; 32769]),
        ParseStatus::Bad("header section too large")
    );
}

#[test]
fn the_method_is_put_in_upper_case() {
    assert_eq!(complete(b"get / HTTP/1.1\r\n\r\n").0.method, "GET");
    let raw = "stra\u{df}e / HTTP/1.1\r\n\r\n".as_bytes();
    assert_eq!(complete(raw).0.method, "STRASSE");
}

#[test]
fn headers_are_found_whatever_their_case() {
    let (request, _) = complete(b"GET / HTTP/1.1\r\nX-Thing:  some value \r\n\r\n");
    assert_eq!(request.header("x-thing"), Some("some value"));
    assert_eq!(request.header("X-THING"), Some("some value"));
    assert_eq!(request.header("x-other"), None);
    assert_eq!(request.hostname(), None);
}

#[test]
fn the_last_of_two_headers_counts() {
    let (request, _) = complete(b"GET / HTTP/1.1\r\nA: 1\r\na: 2\r\n\r\n");
    assert_eq!(request.header("a"), Some("2"));
}

#[test]
fn keep_alive_can_be_asked_for() {
    let (one, _) = complete(b"GET / HTTP/1.0\r\nConnection: Keep-Alive\r\n\r\n");
    assert!(one.keep_alive());
    let (two, _) = complete(b"GET / HTTP/1.1\r\nConnection: upgrade\r\n\r\n");
    assert!(two.keep_alive());
    let (three, _) = complete(b"GET / HTTP/1.1\r\nConnection: keep-alive, CLOSE\r\n\r\n");
    assert!(!three.keep_alive());
}

#[test]
fn pipelined_requests_come_one_by_one() {
    let first = b"POST /a HTTP/1.1\r\nContent-Length: 2\r\n\r\nhi";
    let second = b"GET /b HTTP/1.1\r\n\r\n";
    let mut both = first.to_vec();
    both.extend_from_slice(second);
    let (request, used) = complete(&both);
    assert_eq!(used, first.len());
    assert_eq!(request, complete(first).0);
    assert_eq!(complete(&both[used..]).0.path, "/b");
}

#[test]
fn a_part_of_a_request_asks_for_more() {
    let whole = b"POST /a HTTP/1.1\r\nTransfer-Encoding: chunked\r\n\r\n3\r\nabc\r\n0\r\nT: 1\r\n\r\n";
    let head = 48;
    for n in 0..whole.len() {
        let expected = if n < head {
            ParseStatus::NeedMoreHeaders
        } else {
            ParseStatus::NeedMoreBody
        };
        assert_eq!(try_parse(&whole[..n]), expected, "at {n}");
    }
    assert_eq!(complete(whole).0.body, b"abc");
}

#[test]
fn chunks_may_have_extensions_and_trailers() {
    match decode_chunked(b"3;x=1\r\nabc\r\nA\r\n0123456789\r\n0\r\nT: 1\r\nU: 2\r\n\r\nmore") {
        ChunkStatus::Complete { body, used } => {
            assert_eq!(body, b"abc0123456789");
            assert_eq!(used, 44);
        }
        _ => panic!("expected a whole body"),
    }
}

#[test]
fn broken_chunks_are_bad() {
    assert!(matches!(decode_chunked(b"3\r\nabcd\r\n"), ChunkStatus::Bad));
    assert!(matches!(decode_chunked(b"\r\n"), ChunkStatus::Bad));
    assert!(matches!(decode_chunked(b"\xff\r\n"), ChunkStatus::Bad));
    assert!(matches!(decode_chunked(b"-1\r\n"), ChunkStatus::Bad));
    assert!(matches!(decode_chunked(b"0\r\n"), ChunkStatus::Incomplete));
    assert!(matches!(decode_chunked(b"3\r\nab"), ChunkStatus::Incomplete));
}

#[test]
fn absurd_sizes_are_waited_for_without_a_crash() {
    assert!(matches!(
        decode_chunked(b"ffffffffffffffff\r\nabc"),
        ChunkStatus::Incomplete
    ));
    assert!(matches!(
        decode_chunked(b"10000000000000000\r\nabc"),
        ChunkStatus::Bad
    ));
    let raw = b"POST / HTTP/1.1\r\nContent-Length: 18446744073709551615\r\n\r\nabc";
    assert_eq!(try_parse(raw), ParseStatus::NeedMoreBody);
}

#[test]
fn the_announced_length_is_found() {
    let raw = b"POST / HTTP/1.1\r\nHost: x\r\ncontent-LENGTH : +77\r\n\r\n";
    assert_eq!(declared_body_size(raw), Some(77));
    assert_eq!(declared_body_size(b"POST / HTTP/1.1\r\n\r\n"), None);
    assert_eq!(declared_body_size(b"POST / HTTP/1.1\r\nContent-Length: 7\r\n"), None);
    assert_eq!(
        declared_body_size(b"POST / HTTP/1.1\r\nContent-Length: x\r\nContent-Length: 7\r\n\r\n"),
        None
    );
}

#[test]
fn percent_decoding_undoes_encoding() {
    let text = "a b/\u{e9}\u{1f600}%+";
    let mut encoded = String::new();
    for byte in text.bytes() {
        encoded.push_str(&format!("%{byte:02x}"));
    }
    assert_eq!(percent_decode(&encoded).as_deref(), Some(text));
    assert_eq!(percent_decode("a+b").as_deref(), Some("a b"));
    assert_eq!(percent_decode("plain/\u{e9}").as_deref(), Some("plain/\u{e9}"));
    assert_eq!(percent_decode("%4"), None);
    assert_eq!(percent_decode("%g0"), None);
    assert_eq!(percent_decode("%c3%28"), None);
}

#[test]
fn cookies_are_trimmed_and_the_last_one_counts() {
    let raw = b"GET / HTTP/1.1\r\nCookie:  a=1=2 ;b; c= ;a=3\r\n\r\n";
    let cookies = complete(raw).0.cookies();
    assert_eq!(cookies.get("a").map(String::as_str), Some("3"));
    assert_eq!(cookies.get("b"), None);
    assert_eq!(cookies.get("c").map(String::as_str), Some(""));
}

#[test]
fn the_whole_serialization_is_as_stated() {
    let mut response = Response::with_body(404, "text/plain", b"no\xff".to_vec());
    response.set_header("X", "\u{e9}");
    let expected = "HTTP/1.1 404 Not Found\r\nContent-Length: 3\r\n\
        Date: Sun, 06 Nov 1994 08:49:37 GMT\r\nServer: localhost-rs\r\nConnection: close\r\n\
        Content-Type: text/plain\r\nX: \u{e9}\r\n\r\n";
    let mut bytes = expected.as_bytes().to_vec();
    bytes.extend_from_slice(b"no\xff");
    assert_eq!(response.serialize_at(false, 784_111_777), bytes);
}

#[test]
fn the_head_answer_is_the_get_answer_without_its_body() {
    let mut response = Response::html(200, "<p>hello</p>".into());
    let get = response.serialize_at(true, 5);
    response.suppress_body = true;
    let mut head = response.serialize_at(true, 5);
    head.extend_from_slice(b"<p>hello</p>");
    assert_eq!(get, head);
}

#[test]
fn an_empty_response_has_no_headers() {
    let response = Response::new(204);
    assert_eq!(response.status, 204);
    assert!(response.headers.is_empty());
    assert!(response.body.is_empty());
    assert!(!response.suppress_body);
}

#[test]
fn the_current_date_is_one_of_this_age() {
    let date = http_date();
    assert_eq!(date.len(), 29);
    assert!(date.ends_with(" GMT"));
    let year: u32 = date[12..16].parse().unwrap();
    assert!((2020..2200).contains(&year), "{date}");
    let seconds = std::time::SystemTime::now()
        .duration_since(std::time::UNIX_EPOCH)
        .unwrap()
        .as_secs();
    let near: Vec<String> = (seconds - 5..=seconds).map(format_http_date).collect();
    assert!(near.contains(&date));
}

#[test]
fn dates_follow_the_calendar() {
    assert_eq!(format_http_date(951_782_399), "Mon, 28 Feb 2000 23:59:59 GMT");
    assert_eq!(format_http_date(951_782_400), "Tue, 29 Feb 2000 00:00:00 GMT");
    assert_eq!(format_http_date(951_868_800), "Wed, 01 Mar 2000 00:00:00 GMT");
    assert_eq!(format_http_date(4_107_542_399), "Sun, 28 Feb 2100 23:59:59 GMT");
    assert_eq!(format_http_date(4_107_542_400), "Mon, 01 Mar 2100 00:00:00 GMT");
    assert_eq!(format_http_date(1_767_225_599), "Wed, 31 Dec 2025 23:59:59 GMT");
    assert_eq!(format_http_date(253_402_300_800), "Sat, 01 Jan 10000 00:00:00 GMT");
}

#[test]
fn dates_go_up_day_by_day() {
    let lengths = [31, 28, 31, 30, 31, 30, 31, 31, 30, 31, 30, 31];
    let names = [
        "Jan", "Feb", "Mar", "Apr", "May", "Jun", "Jul", "Aug", "Sep", "Oct", "Nov", "Dec",
    ];
    let week = ["Thu", "Fri", "Sat", "Sun", "Mon", "Tue", "Wed"];
    let mut day = 0u64;
    for year in 1970..2420 {
        let leap = year % 4 == 0 && (year % 100 != 0 || year % 400 == 0);
        for month in 0..12 {
            let length = lengths[month] + if leap && month == 1 { 1 } else { 0 };
            for number in 1..=length {
                let expected = format!(
                    "{}, {:02} {} {} 00:00:00 GMT",
                    week[(day % 7) as usize],
                    number,
                    names[month],
                    year
                );
                assert_eq!(format_http_date(day * 86_400), expected);
                day += 1;
            }
        }
    }
}

#[test]
fn reasons_are_those_of_the_protocol() {
    let reasons = [
        (200, "OK"),
        (201, "Created"),
        (204, "No Content"),
        (301, "Moved Permanently"),
        (302, "Found"),
        (400, "Bad Request"),
        (403, "Forbidden"),
        (404, "Not Found"),
        (405, "Method Not Allowed"),
        (408, "Request Timeout"),
        (411, "Length Required"),
        (413, "Payload Too Large"),
        (500, "Internal Server Error"),
        (501, "Not Implemented"),
        (505, "HTTP Version Not Supported"),
        (418, "Unknown"),
    ];
    for (status, phrase) in reasons {
        assert_eq!(reason(status), phrase);
    }
}

#[test]
fn maps_are_equal_whatever_the_order() {
    let mut a = StrMap::new();
    a.insert("x".into(), "1".into());
    a.insert("y".into(), "2".into());
    let mut b = StrMap::new();
    b.insert("y".into(), "2".into());
    b.insert("x".into(), "0".into());
    assert!(a != b);
    b.insert("x".into(), "1".into());
    assert!(a == b);
    assert!(a == a.clone());
    assert_eq!(b.get("x").map(String::as_str), Some("1"));
    assert_eq!(b.get("z"), None);
}

#[test]
fn a_sent_request_is_read_back() {
    let raw = b"PUT /a%20b?q=1 HTTP/1.1\r\nHost: x\r\nX-Note: one\r\ncontent-length: 5\r\n\r\nhelloGET / HTTP/1.0\r\n\r\n";
    let (request, used) = complete(raw);
    assert_eq!(request.method, "PUT");
    assert_eq!(request.path, "/a b");
    assert_eq!(request.query, "q=1");
    assert_eq!(request.version, "HTTP/1.1");
    assert_eq!(request.headers.get("x-note").map(|note| note.as_str()), Some("one"));
    assert_eq!(request.body, b"hello");
    assert_eq!(&raw[used..], b"GET / HTTP/1.0\r\n\r\n");
    let (next, rest) = complete(&raw[used..]);
    assert_eq!(next.version, "HTTP/1.0");
    assert_eq!(used + rest, raw.len());
}

#[test]
fn a_body_sent_in_chunks_is_put_together() {
    let parts = ["a".repeat(1), "b".repeat(16), "c".repeat(300)];
    let mut raw = b"POST /x HTTP/1.1\r\nTransfer-Encoding: chunked\r\n\r\n".to_vec();
    for part in &parts {
        raw.extend_from_slice(format!("{:x}\r\n{part}\r\n", part.len()).as_bytes());
    }
    raw.extend_from_slice(b"0\r\n\r\n");
    let length = raw.len();
    raw.extend_from_slice(b"GET /");
    let (request, used) = complete(&raw);
    assert_eq!(request.body, parts.concat().into_bytes());
    assert_eq!(used, length);
    for cut in 0..length {
        assert!(
            matches!(
                try_parse(&raw[..cut]),
                ParseStatus::NeedMoreHeaders | ParseStatus::NeedMoreBody
            ),
            "{cut}"
        );
    }
}

#[test]
fn a_clock_before_the_epoch_reads_as_zero() {
    assert_eq!(seconds_read(Some(784_111_777)), 784_111_777);
    assert_eq!(seconds_read(None), 0);
    assert_eq!(
        format_http_date(seconds_read(Some(784_111_777))),
        "Sun, 06 Nov 1994 08:49:37 GMT"
    );
}
