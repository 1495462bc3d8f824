//! What is around a CGI program: the environment it is given, the collection of
//! its output under a deadline, and the response that the output stands for.

use vstd::prelude::*;
use vstd::slice::{slice_subrange, slice_to_vec};

use crate::framing;
use crate::http;
use crate::http::{Request, Response, ResponseView};
use crate::numeral;
use crate::text;

verus! {

/// How long a program may take, in nanoseconds.
pub const CGI_TIMEOUT: u64 = 8 * 1_000_000_000;

// -------------------------------------------------------------- the environment

/// The variables that tell a program about the request. The full path of the
/// script, which the program finds in `PATH_INFO`, comes on top.
pub open spec fn variables(request: http::RequestView) -> Seq<(Seq<char>, Seq<char>)> {
    seq![
        ("GATEWAY_INTERFACE"@, "CGI/1.1"@),
        ("SERVER_PROTOCOL"@, "HTTP/1.1"@),
        ("REQUEST_METHOD"@, request.method),
        ("QUERY_STRING"@, request.query),
        ("SCRIPT_NAME"@, request.path),
        ("CONTENT_LENGTH"@, numeral::decimal(request.body.len())),
        (
            "CONTENT_TYPE"@,
            match request.header("content-type"@) {
                Some(value) => value,
                None => ""@,
            },
        ),
    ]
}

/// The variables that tell a program about the request.
pub fn environment(request: &Request) -> (vars: Vec<(String, String)>)
    ensures
        http::header_pairs(vars@) == variables(request@),
{
    let mut length: Vec<char> = Vec::new();
    numeral::push_decimal(&mut length, request.body.len() as u64);
    assert(length@ =~= numeral::decimal(request.body@.len()));
    let content_type: &str = match request.header("content-type") {
        Some(value) => value,
        None => "",
    };
    let mut vars: Vec<(String, String)> = Vec::new();
    vars.push(("GATEWAY_INTERFACE".to_owned(), "CGI/1.1".to_owned()));
    vars.push(("SERVER_PROTOCOL".to_owned(), "HTTP/1.1".to_owned()));
    vars.push(("REQUEST_METHOD".to_owned(), request.method.clone()));
    vars.push(("QUERY_STRING".to_owned(), request.query.clone()));
    vars.push(("SCRIPT_NAME".to_owned(), request.path.clone()));
    vars.push(("CONTENT_LENGTH".to_owned(), text::text_of(length.as_slice())));
    vars.push(("CONTENT_TYPE".to_owned(), content_type.to_owned()));
    assert(http::header_pairs(vars@) =~= variables(request@));
    vars
}

// ------------------------------------------------------------------- the output

/// What the headers of a program's output say.
#[verifier::ext_equal]
pub struct OutputHead {
    pub status: u16,
    pub content_type: Seq<char>,
    pub extra: Seq<(Seq<char>, Seq<char>)>,
}

/// The status in the value of a `Status` header.
pub open spec fn status_of(value: Seq<char>) -> u16 {
    match numeral::number_within(text::before(value, ' '), 10, 65535) {
        Some(n) => n as u16,
        None => 200,
    }
}

/// One header more.
pub open spec fn with_line(head: OutputHead, name: Seq<char>, value: Seq<char>) -> OutputHead {
    if text::same_letters(name, "status"@) {
        OutputHead { status: status_of(value), ..head }
    } else if text::same_letters(name, "content-type"@) {
        OutputHead { content_type: value, ..head }
    } else {
        OutputHead { extra: head.extra.push((name, value)), ..head }
    }
}

/// The headers in the lines, behind those that came before; a line without a colon
/// spoils them all.
pub open spec fn read_lines(lines: Seq<Seq<char>>, head: OutputHead) -> Option<OutputHead>
    decreases lines.len(),
{
    if lines.len() == 0 {
        Some(head)
    } else {
        match text::cut_at(lines[0], ':') {
            Some((name, value)) => read_lines(
                lines.skip(1),
                with_line(head, text::trimmed(name), text::trimmed(value)),
            ),
            None => None,
        }
    }
}

/// The response with these headers and this body, if they are headers at all.
pub open spec fn headed_response(headers: Seq<char>, body: Seq<u8>) -> Option<ResponseView> {
    let lines = text::text_lines(headers);
    let none = OutputHead { status: 200, content_type: http::html_type(), extra: seq![] };
    if lines.len() == 0 {
        None
    } else {
        match read_lines(lines, none) {
            Some(head) => Some(
                ResponseView {
                    status: head.status,
                    headers: seq![("Content-Type"@, head.content_type)] + head.extra,
                    body,
                    suppress_body: false,
                },
            ),
            None => None,
        }
    }
}

/// Where the headers of an output end, and how long the blank line behind them is:
/// it is the first of either form.
pub open spec fn output_cut(output: Seq<u8>) -> Option<(int, int)> {
    match (
        text::first_index(output, text::blank_line()),
        text::first_index(output, seq![10u8, 10u8]),
    ) {
        (Some(long), Some(short)) => if long < short {
            Some((long, 4))
        } else {
            Some((short, 2))
        },
        (Some(long), None) => Some((long, 4)),
        (None, Some(short)) => Some((short, 2)),
        (None, None) => None,
    }
}

/// The response that an output stands for: optional headers, a blank line, then
/// the body. What has no headers is a page as a whole.
pub open spec fn output_response(output: Seq<u8>) -> ResponseView {
    let page = ResponseView::with_body(200, http::html_type(), output);
    match output_cut(output) {
        Some((end, separator)) => match headed_response(
            text::lossily(output.take(end)),
            output.skip(end + separator),
        ) {
            Some(response) => response,
            None => page,
        },
        None => page,
    }
}

/// The response with these headers and this body, if they are headers at all.
pub fn response_from(headers: &str, body: Vec<u8>) -> (response: Option<Response>)
    ensures
        match response {
            Some(r) => headed_response(headers@, body@) == Some(r@),
            None => headed_response(headers@, body@) is None,
        },
{
    let chars: Vec<char> = text::chars_of(headers);
    let lines: Vec<&[char]> = text::lines(chars.as_slice());
    let ghost all = text::contents(lines@);
    if lines.len() == 0 {
        return None;
    }
    let status_name: Vec<char> = text::chars_of("status");
    let media_name: Vec<char> = text::chars_of("content-type");
    let mut status: u16 = 200;
    let mut content_type: String = "text/html; charset=utf-8".to_owned();
    let mut extra: Vec<(String, String)> = Vec::new();
    let ghost none = OutputHead { status: 200, content_type: http::html_type(), extra: seq![] };
    let mut i: usize = 0;
    proof {
        assert(all.skip(0) =~= all);
        assert(http::header_pairs(extra@) =~= seq![]);
    }
    while i < lines.len()
        invariant
            i <= lines@.len(),
            all == text::contents(lines@),
            all == text::text_lines(headers@),
            all.len() > 0,
            none == (OutputHead { status: 200, content_type: http::html_type(), extra: seq![] }),
            status_name@ == "status"@,
            media_name@ == "content-type"@,
            read_lines(
                all.skip(i as int),
                OutputHead {
                    status,
                    content_type: content_type@,
                    extra: http::header_pairs(extra@),
                },
            ) == read_lines(all, none),
        decreases lines@.len() - i,
    {
        assert(all.skip(i as int).skip(1) =~= all.skip(i + 1));
        assert(all.skip(i as int)[0] == lines@[i as int]@);
        match text::split_once(lines[i], ':') {
            Some((name, value)) => {
                let name: &[char] = text::trim(name);
                let value: &[char] = text::trim(value);
                if text::eq_ignore_ascii_case(name, status_name.as_slice()) {
                    status = match numeral::parse_number(text::up_to(value, ' '), 10, 65535) {
                        Some(n) => n as u16,
                        None => 200,
                    };
                } else if text::eq_ignore_ascii_case(name, media_name.as_slice()) {
                    content_type = text::text_of(value);
                } else {
                    let ghost before = http::header_pairs(extra@);
                    extra.push((text::text_of(name), text::text_of(value)));
                    assert(http::header_pairs(extra@) =~= before.push((name@, value@)));
                }
            },
            None => {
                // Not header-shaped: the "headers" were actually body text.
                return None;
            },
        }
        i += 1;
    }
    let mut response: Response = Response::with_body(status, content_type.as_str(), body);
    let ghost first = response@;
    let ghost pairs = http::header_pairs(extra@);
    let mut k: usize = 0;
    assert(first.headers + pairs.take(0) =~= first.headers);
    while k < extra.len()
        invariant
            k <= extra@.len(),
            pairs == http::header_pairs(extra@),
            response@ == (ResponseView { headers: first.headers + pairs.take(k as int), ..first }),
        decreases extra@.len() - k,
    {
        response.set_header(extra[k].0.as_str(), extra[k].1.as_str());
        assert((first.headers + pairs.take(k as int)).push(pairs[k as int]) =~= first.headers
            + pairs.take(k + 1));
        k += 1;
    }
    assert(pairs.take(k as int) =~= pairs);
    Some(response)
}

/// CGI output is optional headers, a blank line, then the body.
pub fn parse_cgi_output(output: Vec<u8>) -> (response: Response)
    ensures
        response@ == output_response(output@),
{
    let feeds: [u8; 2] = [10, 10];
    assert(feeds@ =~= seq![10u8, 10u8]);
    let cut: Option<(usize, usize)> = match (
        text::find_blank_line(output.as_slice()),
        text::find(output.as_slice(), &feeds),
    ) {
        (Some(long), Some(short)) => if long < short {
            Some((long, 4))
        } else {
            Some((short, 2))
        },
        (Some(long), None) => Some((long, 4)),
        (None, Some(short)) => Some((short, 2)),
        (None, None) => None,
    };
    if let Some((end, separator)) = cut {
        let header_bytes: &[u8] = slice_subrange(output.as_slice(), 0, end);
        assert(header_bytes@ =~= output@.take(end as int));
        let headers: String = text::from_utf8_lossy(header_bytes);
        let rest: &[u8] = slice_subrange(output.as_slice(), end + separator, output.len());
        let body: Vec<u8> = slice_to_vec(rest);
        assert(body@ =~= output@.skip(end + separator));
        if let Some(response) = response_from(headers.as_str(), body) {
            return response;
        }
    }
    // No header block: treat everything as html.
    Response::with_body(200, "text/html; charset=utf-8", output)
}

// ------------------------------------------------------------ collecting output

/// What a read from the program's output pipe came to.
pub enum PipeEvent {
    /// The program closed the pipe.
    Closed,
    /// Some bytes came.
    Data(Vec<u8>),
    /// There is nothing to read yet.
    NotReady,
    /// The read failed.
    Failed,
}

/// What is to be done next.
pub enum PipeAction {
    /// Read again at once.
    Read,
    /// Read again after a short pause.
    Pause,
    /// The program is done: this is its answer.
    Answer(Response),
    /// The program took too long: kill it.
    TimedOut,
    /// The pipe failed: kill the program.
    Failed,
}

/// The output of a running program so far.
pub struct CgiRun {
    output: Vec<u8>,
    started: u64,
}

/// What is known of a running program.
#[verifier::ext_equal]
pub struct CgiRunView {
    pub output: Seq<u8>,
    pub started: u64,
}

impl View for CgiRun {
    type V = CgiRunView;

    closed spec fn view(&self) -> CgiRunView {
        CgiRunView { output: self.output@, started: self.started }
    }
}

impl CgiRunView {
    /// The program's time is up.
    pub open spec fn overdue(self, now: u64) -> bool {
        now - self.started > CGI_TIMEOUT
    }

    /// The program with some output more.
    pub open spec fn with_piece(self, piece: Seq<u8>) -> CgiRunView {
        CgiRunView { output: self.output + piece, ..self }
    }
}

/// A running program of which some output was read, piece by piece.
pub open spec fn after_pieces(run: CgiRunView, pieces: Seq<Seq<u8>>) -> CgiRunView
    decreases pieces.len(),
{
    if pieces.len() == 0 {
        run
    } else {
        after_pieces(run.with_piece(pieces[0]), pieces.drop_first())
    }
}

/// The answer of a program does not depend on how its output is cut up on the way:
/// it is that of the pieces put together.
pub proof fn output_is_put_together(run: CgiRunView, pieces: Seq<Seq<u8>>)
    ensures
        after_pieces(run, pieces) == run.with_piece(framing::joined(pieces)),
    decreases pieces.len(),
{
    if pieces.len() == 0 {
        assert(run.output + framing::joined(pieces) =~= run.output);
    } else {
        output_is_put_together(run.with_piece(pieces[0]), pieces.drop_first());
        assert((run.output + pieces[0]) + framing::joined(pieces.drop_first()) =~= run.output
            + framing::joined(pieces));
    }
}

impl CgiRun {
    fn is_overdue(&self, now: u64) -> (b: bool)
        ensures
            b == self@.overdue(now),
    {
        now > self.started && now - self.started > CGI_TIMEOUT
    }

    /// A program that was started just now.
    pub fn new(now: u64) -> (run: CgiRun)
        ensures
            run@ == (CgiRunView { output: seq![], started: now }),
    {
        let run: CgiRun = CgiRun { output: Vec::new(), started: now };
        assert(run@.output =~= seq![]);
        run
    }

    /// What a read from the pipe leads to. A program that has not closed the pipe
    /// when its time is up is given up, whether it hangs or goes on writing.
    pub fn on_read(&mut self, event: PipeEvent, now: u64) -> (action: PipeAction)
        ensures
            match event {
                PipeEvent::Closed => {
                    &&& action matches PipeAction::Answer(r) && r@ == output_response(
                        old(self)@.output,
                    )
                    &&& final(self)@ == (CgiRunView { output: seq![], ..old(self)@ })
                },
                PipeEvent::Data(chunk) => {
                    &&& final(self)@ == old(self)@.with_piece(chunk@)
                    &&& if old(self)@.overdue(now) {
                        action is TimedOut
                    } else {
                        action is Read
                    }
                },
                PipeEvent::NotReady => {
                    &&& final(self)@ == old(self)@
                    &&& if old(self)@.overdue(now) {
                        action is TimedOut
                    } else {
                        action is Pause
                    }
                },
                PipeEvent::Failed => {
                    &&& action is Failed
                    &&& final(self)@ == old(self)@
                },
            },
    {
        match event {
            PipeEvent::Closed => {
                let mut output: Vec<u8> = Vec::new();
                std::mem::swap(&mut output, &mut self.output);
                assert(self@.output =~= seq![]);
                PipeAction::Answer(parse_cgi_output(output))
            },
            PipeEvent::Data(chunk) => {
                let ghost before = self@.output;
                self.output.extend_from_slice(chunk.as_slice());
                assert(self@.output =~= before + chunk@);
                if self.is_overdue(now) {
                    PipeAction::TimedOut
                } else {
                    PipeAction::Read
                }
            },
            PipeEvent::NotReady => {
                if self.is_overdue(now) {
                    PipeAction::TimedOut
                } else {
                    PipeAction::Pause
                }
            },
            PipeEvent::Failed => PipeAction::Failed,
        }
    }
}

} // verus!
