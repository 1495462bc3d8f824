//! Programs and their output.

use localhost::cgi::{
    environment, parse_cgi_output, response_from, CgiRun, PipeAction, PipeEvent, CGI_TIMEOUT,
};
use localhost::http::{try_parse, ParseStatus};

#[test]
fn parses_cgi_headers_and_body() {
    let output = b"Status: 201 Created\r\nContent-Type: text/plain\r\nX-Extra: 1\r\n\r\nhello".to_vec();
    let response = parse_cgi_output(output);
    assert_eq!(response.status, 201);
    assert_eq!(response.body, b"hello");
    assert!(response
        .headers
        .iter()
        .any(|(n, v)| n == "X-Extra" && v == "1"));
}

#[test]
fn headerless_output_becomes_the_body() {
    let response = parse_cgi_output(b"<h1>raw</h1>".to_vec());
    assert_eq!(response.status, 200);
    assert_eq!(response.body, b"<h1>raw</h1>");
}

#[test]
fn newline_only_separator_is_accepted() {
    let response = parse_cgi_output(b"Content-Type: text/plain\n\nbody".to_vec());
    assert_eq!(response.body, b"body");
}

fn headers(response: &localhost::http::Response) -> Vec<(&str, &str)> {
    response
        .headers
        .iter()
        .map(|(name, value)| (name.as_str(), value.as_str()))
        .collect()
}

#[test]
fn the_content_type_comes_first() {
    let response = parse_cgi_output(b"A: 1\nCONTENT-type: text/css\nB:\nA: 2\n\n".to_vec());
    assert_eq!(
        headers(&response),
        vec![("Content-Type", "text/css"), ("A", "1"), ("B", ""), ("A", "2")]
    );
    assert!(response.body.is_empty());
    let plain = parse_cgi_output(b"A: 1\n\n".to_vec());
    assert_eq!(
        headers(&plain),
        vec![("Content-Type", "text/html; charset=utf-8"), ("A", "1")]
    );
}

#[test]
fn text_that_is_no_header_is_body() {
    let output = b"Title: x\nno colon here\n\nmore".to_vec();
    let response = parse_cgi_output(output.clone());
    assert_eq!(response.status, 200);
    assert_eq!(response.body, output);
    let blank_first = b"\n\nTitle: x".to_vec();
    assert_eq!(parse_cgi_output(blank_first.clone()).body, blank_first);
}

#[test]
fn a_status_that_is_no_number_is_two_hundred() {
    assert_eq!(parse_cgi_output(b"Status: 404\n\n".to_vec()).status, 404);
    assert_eq!(parse_cgi_output(b"Status: teapot\n\n".to_vec()).status, 200);
    assert_eq!(parse_cgi_output(b"Status: 65536 x\n\n".to_vec()).status, 200);
}

#[test]
fn the_first_blank_line_counts_whatever_its_form() {
    let response = parse_cgi_output(b"Content-Type: text/plain\n\nbody\r\n\r\nmore".to_vec());
    assert_eq!(response.status, 200);
    assert_eq!(headers(&response), vec![("Content-Type", "text/plain")]);
    assert_eq!(response.body, b"body\r\n\r\nmore");
    let response = parse_cgi_output(b"A: 1\r\n\r\nB: 2\n\nbody".to_vec());
    assert_eq!(headers(&response)[1], ("A", "1"));
    assert_eq!(response.body, b"B: 2\n\nbody");
}

#[test]
fn headers_that_are_no_text_are_read_with_replacements() {
    let response = parse_cgi_output(b"X: \xff!\n\nbody".to_vec());
    assert_eq!(
        headers(&response),
        vec![("Content-Type", "text/html; charset=utf-8"), ("X", "\u{fffd}!")]
    );
}

#[test]
fn headers_alone_make_a_response() {
    let response = response_from("Status: 302\r\nLocation: /x", b"b".to_vec()).unwrap();
    assert_eq!(response.status, 302);
    assert_eq!(headers(&response)[1], ("Location", "/x"));
    assert_eq!(response.body, b"b");
    assert!(response_from("", Vec::new()).is_none());
    assert!(response_from("x", Vec::new()).is_none());
}

#[test]
fn a_program_learns_about_the_request() {
    let raw = b"POST /cgi/x.py?a=b HTTP/1.1\r\nContent-Type: text/x\r\nContent-Length: 3\r\n\r\nabc";
    let request = match try_parse(raw) {
        ParseStatus::Complete { request, .. } => request,
        other => panic!("{other:?}"),
    };
    let expected = [
        ("GATEWAY_INTERFACE", "CGI/1.1"),
        ("SERVER_PROTOCOL", "HTTP/1.1"),
        ("REQUEST_METHOD", "POST"),
        ("QUERY_STRING", "a=b"),
        ("SCRIPT_NAME", "/cgi/x.py"),
        ("CONTENT_LENGTH", "3"),
        ("CONTENT_TYPE", "text/x"),
    ];
    let variables = environment(&request);
    assert_eq!(variables.len(), expected.len());
    for (variable, (name, value)) in variables.iter().zip(expected) {
        assert_eq!((variable.0.as_str(), variable.1.as_str()), (name, value));
    }
}

#[test]
fn output_is_collected_until_the_pipe_closes() {
    let mut run = CgiRun::new(100);
    assert!(matches!(
        run.on_read(PipeEvent::Data(b"Status: 2".to_vec()), 100),
        PipeAction::Read
    ));
    assert!(matches!(run.on_read(PipeEvent::NotReady, 200), PipeAction::Pause));
    assert!(matches!(
        run.on_read(PipeEvent::Data(b"01\n\nhi".to_vec()), 300),
        PipeAction::Read
    ));
    match run.on_read(PipeEvent::Closed, 400) {
        PipeAction::Answer(response) => {
            assert_eq!(response.status, 201);
            assert_eq!(response.body, b"hi");
        }
        _ => panic!("expected an answer"),
    }
}

#[test]
fn a_program_that_hangs_is_given_up() {
    let mut run = CgiRun::new(1000);
    assert!(matches!(
        run.on_read(PipeEvent::NotReady, 1000 + CGI_TIMEOUT),
        PipeAction::Pause
    ));
    assert!(matches!(run.on_read(PipeEvent::NotReady, 0), PipeAction::Pause));
    assert!(matches!(
        run.on_read(PipeEvent::NotReady, 1001 + CGI_TIMEOUT),
        PipeAction::TimedOut
    ));
    assert!(matches!(run.on_read(PipeEvent::Failed, 1000), PipeAction::Failed));
    assert!(matches!(
        run.on_read(PipeEvent::Data(b"on and on".to_vec()), 1001 + CGI_TIMEOUT),
        PipeAction::TimedOut
    ));
    assert_eq!(CGI_TIMEOUT, 8_000_000_000);
}
