//! Configurations as they are written.
//!
//! A configuration is a list of `server` blocks, a block is a list of directives,
//! and each directive says one thing about its server or route. Here that is
//! written down, and what is written is read back as what it says.

use vstd::prelude::*;

use crate::config;
use crate::config::{RouteView, ServerView};
use crate::numeral;
use crate::text;

verus! {

// ------------------------------------------------------------------------- routes

/// A directive of a route.
pub enum RouteLine {
    Root(Seq<char>),
    Index(Seq<char>),
    Redirect(Seq<char>),
    Methods(Seq<Seq<char>>),
    Cgi { extension: Seq<char>, interpreter: Seq<char> },
    DirectoryListing(bool),
    Upload(bool),
}

/// The value of a switch.
pub open spec fn switch(on: bool) -> Seq<char> {
    if on {
        "on"@
    } else {
        "off"@
    }
}

/// A value is any word but a brace.
pub open spec fn is_value(word: Seq<char>) -> bool {
    word != "{"@ && word != "}"@
}

impl RouteLine {
    /// The words of the directive.
    pub open spec fn words(self) -> Seq<Seq<char>> {
        match self {
            RouteLine::Root(dir) => seq!["root"@, dir],
            RouteLine::Index(name) => seq!["index"@, name],
            RouteLine::Redirect(target) => seq!["redirect"@, target],
            RouteLine::Methods(methods) => seq!["methods"@] + methods,
            RouteLine::Cgi { extension, interpreter } => seq!["cgi"@, extension, interpreter],
            RouteLine::DirectoryListing(on) => seq!["directory_listing"@, switch(on)],
            RouteLine::Upload(on) => seq!["upload"@, switch(on)],
        }
    }

    /// The directive can be written.
    pub open spec fn fits(self) -> bool {
        match self {
            RouteLine::Root(dir) => is_value(dir),
            RouteLine::Index(name) => is_value(name),
            RouteLine::Redirect(target) => is_value(target),
            RouteLine::Methods(methods) => methods.len() > 0 && forall|i: int|
                0 <= i < methods.len() ==> config::is_method(#[trigger] methods[i]),
            RouteLine::Cgi { extension, interpreter } => extension.len() > 0 && extension[0] == '.'
                && is_value(interpreter),
            _ => true,
        }
    }

    /// The route as the directive has it.
    pub open spec fn applied(self, route: RouteView) -> RouteView {
        match self {
            RouteLine::Root(dir) => RouteView { root: Some(dir), ..route },
            RouteLine::Index(name) => RouteView { index: Some(name), ..route },
            RouteLine::Redirect(target) => RouteView { redirect: Some(target), ..route },
            RouteLine::Methods(methods) => RouteView { methods, ..route },
            RouteLine::Cgi { extension, interpreter } => RouteView {
                cgi: route.cgi.insert(extension, interpreter),
                ..route
            },
            RouteLine::DirectoryListing(on) => RouteView { directory_listing: on, ..route },
            RouteLine::Upload(on) => RouteView { upload: on, ..route },
        }
    }
}

/// The words of the directives of a route.
pub open spec fn route_words(lines: Seq<RouteLine>) -> Seq<Seq<char>>
    decreases lines.len(),
{
    if lines.len() == 0 {
        seq![]
    } else {
        lines[0].words() + route_words(lines.skip(1))
    }
}

/// The route as the directives have it, one after the other.
pub open spec fn route_with(route: RouteView, lines: Seq<RouteLine>) -> RouteView
    decreases lines.len(),
{
    if lines.len() == 0 {
        route
    } else {
        route_with(lines[0].applied(route), lines.skip(1))
    }
}

/// Every directive can be written.
pub open spec fn route_fits(lines: Seq<RouteLine>) -> bool {
    forall|i: int| 0 <= i < lines.len() ==> (#[trigger] lines[i]).fits()
}

/// A word that ends a list of methods.
proof fn lemma_no_method(word: Seq<char>)
    requires
        word == "root"@ || word == "index"@ || word == "redirect"@ || word == "methods"@ || word
            == "cgi"@ || word == "directory_listing"@ || word == "upload"@ || word == "}"@,
    ensures
        !config::is_method(text::uppercased(word)),
{
    reveal_strlit("root");
    reveal_strlit("index");
    reveal_strlit("redirect");
    reveal_strlit("methods");
    reveal_strlit("cgi");
    reveal_strlit("directory_listing");
    reveal_strlit("upload");
    reveal_strlit("}");
    reveal_strlit("GET");
    reveal_strlit("POST");
    reveal_strlit("DELETE");
    reveal_strlit("PUT");
    reveal_strlit("HEAD");
    assert(vstd::utf8::is_ascii_chars(word));
    let upper = text::raised(word);
    assert(upper.len() == word.len());
    assert(upper[0] == text::upper_char(word[0]));
    assert("GET"@[0] == 'G');
    assert("POST"@[0] == 'P');
    assert("DELETE"@[0] == 'D');
    assert("PUT"@[0] == 'P');
    assert("HEAD"@[0] == 'H');
}

/// A method is read as it is written.
proof fn lemma_method_kept(word: Seq<char>)
    requires
        config::is_method(word),
    ensures
        text::uppercased(word) == word,
{
    reveal_strlit("GET");
    reveal_strlit("POST");
    reveal_strlit("DELETE");
    reveal_strlit("PUT");
    reveal_strlit("HEAD");
    assert(vstd::utf8::is_ascii_chars(word));
    assert(text::raised(word) =~= word);
}

proof fn lemma_methods_read(methods: Seq<Seq<char>>, rest: Seq<Seq<char>>)
    requires
        forall|i: int| 0 <= i < methods.len() ==> config::is_method(#[trigger] methods[i]),
        rest.len() > 0,
        !config::is_method(text::uppercased(rest[0])),
    ensures
        config::read_methods(methods + rest) == (methods, rest),
    decreases methods.len(),
{
    if methods.len() == 0 {
        assert(methods + rest =~= rest);
        assert(methods =~= seq![]);
    } else {
        let more = methods.skip(1);
        lemma_methods_read(more, rest);
        lemma_method_kept(methods[0]);
        assert((methods + rest).skip(1) =~= more + rest);
        assert(seq![methods[0]] + more =~= methods);
    }
}

/// The names of the directives of a route are told apart by their lengths.
proof fn lemma_route_names()
    ensures
        "root"@.len() == 4,
        "index"@.len() == 5,
        "redirect"@.len() == 8,
        "methods"@.len() == 7,
        "cgi"@.len() == 3,
        "directory_listing"@.len() == 17,
        "upload"@.len() == 6,
{
    reveal_strlit("root");
    reveal_strlit("index");
    reveal_strlit("redirect");
    reveal_strlit("methods");
    reveal_strlit("cgi");
    reveal_strlit("directory_listing");
    reveal_strlit("upload");
}

proof fn lemma_braces()
    ensures
        "{"@ == seq!['{'],
        "}"@ == seq!['}'],
        "{"@ != "}"@,
        "on"@.len() == 2,
        "off"@.len() == 3,
{
    reveal_strlit("{");
    reveal_strlit("}");
    reveal_strlit("on");
    reveal_strlit("off");
    assert("{"@ =~= seq!['{']);
    assert("}"@ =~= seq!['}']);
    assert("{"@[0] != "}"@[0]);
}

proof fn lemma_value_read(value: Seq<char>, rest: Seq<Seq<char>>, what: Seq<char>)
    requires
        is_value(value),
        rest.len() > 0,
        rest[0] != "{"@,
    ensures
        config::value_for(seq![value] + rest, what) == config::took(value, rest),
{
    let tokens = seq![value] + rest;
    assert(tokens[1] == rest[0]);
    assert(tokens.skip(1) =~= rest);
}

proof fn lemma_route_line_read(line: RouteLine, rest: Seq<Seq<char>>, route: RouteView)
    requires
        line.fits(),
        rest.len() > 0,
        rest[0] != "{"@,
        !config::is_method(text::uppercased(rest[0])),
    ensures
        line.words().len() > 0,
        is_value(line.words()[0]),
        !config::is_method(text::uppercased(line.words()[0])),
        config::route_directive(line.words() + rest, route) == config::took(
            line.applied(route),
            rest,
        ),
{
    lemma_route_names();
    lemma_braces();
    lemma_no_method(line.words()[0]);
    let tokens = (line.words() + rest).skip(1);
    match line {
        RouteLine::Methods(methods) => {
            assert(tokens =~= methods + rest);
            lemma_methods_read(methods, rest);
        },
        RouteLine::Cgi { extension, interpreter } => {
            assert(tokens.skip(1).skip(1) =~= rest);
            assert(is_value(extension));
        },
        RouteLine::Root(value) => {
            assert(tokens.skip(1) =~= rest);
        },
        RouteLine::Index(value) => {
            assert(tokens.skip(1) =~= rest);
        },
        RouteLine::Redirect(value) => {
            assert(tokens.skip(1) =~= rest);
        },
        RouteLine::DirectoryListing(on) => {
            assert(tokens.skip(1) =~= rest);
        },
        RouteLine::Upload(on) => {
            assert(tokens.skip(1) =~= rest);
        },
    }
}

proof fn lemma_route_read(lines: Seq<RouteLine>, rest: Seq<Seq<char>>, route: RouteView)
    requires
        route_fits(lines),
    ensures
        ({
            let tokens = route_words(lines) + (seq!["}"@] + rest);
            &&& tokens.len() > 0
            &&& tokens[0] != "{"@
            &&& !config::is_method(text::uppercased(tokens[0]))
            &&& config::route_body(tokens, route) == config::took(route_with(route, lines), rest)
        }),
    decreases lines.len(),
{
    let end = seq!["}"@] + rest;
    lemma_braces();
    lemma_no_method("}"@);
    if lines.len() == 0 {
        assert(route_words(lines) + end =~= end);
        assert(end.skip(1) =~= rest);
    } else {
        let more = lines.skip(1);
        assert(route_fits(more)) by {
            assert forall|i: int| 0 <= i < more.len() implies (#[trigger] more[i]).fits() by {
                assert(lines[i + 1].fits());
            }
        }
        lemma_route_read(more, rest, lines[0].applied(route));
        let behind = route_words(more) + end;
        assert(lines[0].fits());
        lemma_route_line_read(lines[0], behind, route);
        assert(route_words(lines) + end =~= lines[0].words() + behind);
    }
}

// ------------------------------------------------------------------------ servers

/// A directive of a server.
pub enum ServerLine {
    Host(Seq<char>),
    Ports(Seq<u16>),
    Name(Seq<char>),
    ErrorPage { status: u16, page: Seq<char> },
    MaxBodySize(nat),
    Route { prefix: Seq<char>, lines: Seq<RouteLine> },
}

/// Numbers in decimal.
pub open spec fn numerals(numbers: Seq<u16>) -> Seq<Seq<char>> {
    Seq::new(numbers.len(), |i: int| numeral::decimal(numbers[i] as nat))
}

impl ServerLine {
    /// The words of the directive.
    pub open spec fn words(self) -> Seq<Seq<char>> {
        match self {
            ServerLine::Host(host) => seq!["host"@, host],
            ServerLine::Ports(ports) => seq!["port"@] + numerals(ports),
            ServerLine::Name(name) => seq!["server_name"@, name],
            ServerLine::ErrorPage { status, page } => seq![
                "error_page"@,
                numeral::decimal(status as nat),
                page,
            ],
            ServerLine::MaxBodySize(size) => seq!["client_max_body_size"@, numeral::decimal(size)],
            ServerLine::Route { prefix, lines } => seq!["route"@, prefix, "{"@] + route_words(lines)
                + seq!["}"@],
        }
    }

    /// The directive can be written for the server as it is so far.
    pub open spec fn fits(self, server: ServerView) -> bool {
        match self {
            ServerLine::Host(host) => is_value(host),
            ServerLine::Ports(ports) => ports.len() > 0 && (server.ports + ports).no_duplicates(),
            ServerLine::Name(name) => is_value(name),
            ServerLine::ErrorPage { page, .. } => is_value(page),
            ServerLine::MaxBodySize(size) => size <= usize::MAX,
            ServerLine::Route { prefix, lines } => {
                &&& prefix.len() > 0
                &&& prefix[0] == '/'
                &&& route_fits(lines)
            },
        }
    }

    /// The server as the directive has it.
    pub open spec fn applied(self, server: ServerView) -> ServerView {
        match self {
            ServerLine::Host(host) => ServerView { host, ..server },
            ServerLine::Ports(ports) => ServerView { ports: server.ports + ports, ..server },
            ServerLine::Name(name) => ServerView { server_name: Some(name), ..server },
            ServerLine::ErrorPage { status, page } => ServerView {
                error_pages: server.error_pages.insert(status, page),
                ..server
            },
            ServerLine::MaxBodySize(size) => ServerView { max_body_size: size as int, ..server },
            ServerLine::Route { prefix, lines } => ServerView {
                routes: server.routes.push(route_with(RouteView::fresh(prefix), lines)),
                ..server
            },
        }
    }
}

/// The words of the directives of a server.
pub open spec fn server_words(lines: Seq<ServerLine>) -> Seq<Seq<char>>
    decreases lines.len(),
{
    if lines.len() == 0 {
        seq![]
    } else {
        lines[0].words() + server_words(lines.skip(1))
    }
}

/// The server as the directives have it, one after the other.
pub open spec fn server_with(server: ServerView, lines: Seq<ServerLine>) -> ServerView
    decreases lines.len(),
{
    if lines.len() == 0 {
        server
    } else {
        server_with(lines[0].applied(server), lines.skip(1))
    }
}

/// Every directive can be written where it stands.
pub open spec fn server_fits(server: ServerView, lines: Seq<ServerLine>) -> bool
    decreases lines.len(),
{
    lines.len() == 0 || lines[0].fits(server) && server_fits(
        lines[0].applied(server),
        lines.skip(1),
    )
}

/// The names of the directives of a server are told apart by their lengths, or by
/// their first letters.
proof fn lemma_server_names()
    ensures
        "host"@.len() == 4 && "host"@[0] == 'h' && "host"@.last() == 't',
        "port"@.len() == 4 && "port"@[0] == 'p' && "port"@.last() == 't',
        "server_name"@.len() == 11 && "server_name"@[0] == 's' && "server_name"@.last() == 'e',
        "error_page"@.len() == 10 && "error_page"@[0] == 'e' && "error_page"@.last() == 'e',
        "client_max_body_size"@.len() == 20 && "client_max_body_size"@[0] == 'c'
            && "client_max_body_size"@.last() == 'e',
        "route"@.len() == 5 && "route"@[0] == 'r' && "route"@.last() == 'e',
{
    reveal_strlit("host");
    reveal_strlit("port");
    reveal_strlit("server_name");
    reveal_strlit("error_page");
    reveal_strlit("client_max_body_size");
    reveal_strlit("route");
}

/// What ends with no digit is no number.
proof fn lemma_no_number(word: Seq<char>, max: int)
    requires
        word.len() > 0,
        word[0] != '+',
        numeral::digit_value(word.last(), 10) is None,
    ensures
        numeral::number_within(word, 10, max) is None,
{
}

/// A number is a value, and is read as it was written.
proof fn lemma_number_read(n: nat, max: int)
    requires
        n <= max,
    ensures
        is_value(numeral::decimal(n)),
        numeral::number_within(numeral::decimal(n), 10, max) == Some(n as int),
{
    numeral::number_round_trip(n, 10);
    lemma_braces();
    lemma_no_number("{"@, max);
    lemma_no_number("}"@, max);
}

proof fn lemma_ports_read(numbers: Seq<u16>, rest: Seq<Seq<char>>, ports: Seq<u16>)
    requires
        (ports + numbers).no_duplicates(),
        rest.len() > 0,
        numeral::number_within(rest[0], 10, 65535) is None,
    ensures
        config::read_ports(numerals(numbers) + rest, ports) == config::took(ports + numbers, rest),
    decreases numbers.len(),
{
    let tokens = numerals(numbers) + rest;
    if numbers.len() == 0 {
        assert(tokens =~= rest);
        assert(ports + numbers =~= ports);
    } else {
        let more = numbers.skip(1);
        lemma_number_read(numbers[0] as nat, 65535);
        assert(tokens[0] == numeral::decimal(numbers[0] as nat));
        assert(tokens.skip(1) =~= numerals(more) + rest);
        assert(ports.push(numbers[0]) + more =~= ports + numbers);
        if ports.contains(numbers[0]) {
            let k = choose|k: int| 0 <= k < ports.len() && ports[k] == numbers[0];
            assert((ports + numbers)[k] == (ports + numbers)[ports.len() as int]);
        }
        lemma_ports_read(more, rest, ports.push(numbers[0]));
    }
}

proof fn lemma_server_line_read(line: ServerLine, rest: Seq<Seq<char>>, server: ServerView)
    requires
        line.fits(server),
        rest.len() > 0,
        rest[0] != "{"@,
        numeral::number_within(rest[0], 10, 65535) is None,
    ensures
        line.words().len() > 0,
        is_value(line.words()[0]),
        numeral::number_within(line.words()[0], 10, 65535) is None,
        config::server_directive(line.words() + rest, server) == config::took(
            line.applied(server),
            rest,
        ),
{
    lemma_server_names();
    lemma_braces();
    lemma_no_number(line.words()[0], 65535);
    let all = line.words() + rest;
    let args = all.skip(1);
    assert(all[0] == line.words()[0]);
    match line {
        ServerLine::Host(value) => {
            assert(args =~= seq![value] + rest);
            lemma_value_read(value, rest, "host"@);
        },
        ServerLine::Ports(ports) => {
            assert(args =~= numerals(ports) + rest);
            lemma_ports_read(ports, rest, server.ports);
        },
        ServerLine::Name(value) => {
            assert(args =~= seq![value] + rest);
            lemma_value_read(value, rest, "server_name"@);
        },
        ServerLine::ErrorPage { status, page } => {
            lemma_number_read(status as nat, 65535);
            let behind = seq![page] + rest;
            assert(args =~= seq![numeral::decimal(status as nat)] + behind);
            lemma_value_read(numeral::decimal(status as nat), behind, "error_page"@);
            lemma_value_read(page, rest, "error_page"@);
        },
        ServerLine::MaxBodySize(size) => {
            lemma_number_read(size, usize::MAX as int);
            assert(args =~= seq![numeral::decimal(size)] + rest);
            lemma_value_read(numeral::decimal(size), rest, "client_max_body_size"@);
        },
        ServerLine::Route { prefix, lines } => {
            let body = route_words(lines) + (seq!["}"@] + rest);
            assert(args.skip(1).skip(1) =~= body);
            assert(args[0] == prefix);
            assert(args.skip(1)[0] == "{"@);
            assert(prefix != "server"@) by {
                reveal_strlit("server");
                assert("server"@[0] == 's');
            }
            lemma_route_read(lines, rest, RouteView::fresh(prefix));
        },
    }
}

proof fn lemma_server_read(lines: Seq<ServerLine>, rest: Seq<Seq<char>>, server: ServerView)
    requires
        server_fits(server, lines),
    ensures
        ({
            let tokens = server_words(lines) + (seq!["}"@] + rest);
            &&& tokens.len() > 0
            &&& tokens[0] != "{"@
            &&& numeral::number_within(tokens[0], 10, 65535) is None
            &&& config::server_body(tokens, server) == config::took(
                server_with(server, lines),
                rest,
            )
        }),
    decreases lines.len(),
{
    let end = seq!["}"@] + rest;
    lemma_braces();
    lemma_no_number("}"@, 65535);
    if lines.len() == 0 {
        assert(server_words(lines) + end =~= end);
        assert(end.skip(1) =~= rest);
    } else {
        let more = lines.skip(1);
        lemma_server_read(more, rest, lines[0].applied(server));
        let behind = server_words(more) + end;
        lemma_server_line_read(lines[0], behind, server);
        assert(server_words(lines) + end =~= lines[0].words() + behind);
    }
}

// ----------------------------------------------------------------- configurations

/// The words of a configuration.
pub open spec fn config_words(blocks: Seq<Seq<ServerLine>>) -> Seq<Seq<char>>
    decreases blocks.len(),
{
    if blocks.len() == 0 {
        seq![]
    } else {
        seq!["server"@, "{"@] + server_words(blocks[0]) + seq!["}"@] + config_words(blocks.skip(1))
    }
}

/// What a block says.
pub open spec fn server_said(lines: Seq<ServerLine>) -> ServerView {
    server_with(ServerView::fresh(), lines)
}

/// Every block can be written.
pub open spec fn config_fits(blocks: Seq<Seq<ServerLine>>) -> bool {
    forall|i: int|
        0 <= i < blocks.len() ==> server_fits(ServerView::fresh(), #[trigger] blocks[i])
}

/// The servers of the blocks behind those accepted already, and why others are left
/// out.
pub open spec fn servers_said(blocks: Seq<Seq<ServerLine>>, accepted: Seq<ServerView>) -> (
    Seq<ServerView>,
    Seq<Seq<char>>,
)
    decreases blocks.len(),
{
    if blocks.len() == 0 {
        (accepted, seq![])
    } else {
        let server = server_said(blocks[0]);
        match config::objection(accepted, server) {
            None => servers_said(blocks.skip(1), accepted.push(server)),
            Some(why) => {
                let (servers, errors) = servers_said(blocks.skip(1), accepted);
                (servers, seq![why] + errors)
            },
        }
    }
}

proof fn lemma_config_read(blocks: Seq<Seq<ServerLine>>, accepted: Seq<ServerView>)
    requires
        config_fits(blocks),
    ensures
        config::read_all(config_words(blocks), accepted) == servers_said(blocks, accepted),
    decreases blocks.len(),
{
    if blocks.len() > 0 {
        let more = blocks.skip(1);
        let rest = config_words(more);
        assert(config_fits(more)) by {
            assert forall|i: int| 0 <= i < more.len() implies server_fits(
                ServerView::fresh(),
                #[trigger] more[i],
            ) by {
                assert(server_fits(ServerView::fresh(), blocks[i + 1]));
            }
        }
        let server = server_said(blocks[0]);
        lemma_config_read(more, accepted);
        lemma_config_read(more, accepted.push(server));
        assert(server_fits(ServerView::fresh(), blocks[0]));
        lemma_server_read(blocks[0], rest, ServerView::fresh());
        let tokens = config_words(blocks);
        let body = server_words(blocks[0]) + (seq!["}"@] + rest);
        assert(tokens[0] == "server"@);
        assert(tokens.skip(1)[0] == "{"@);
        assert(tokens.skip(1).skip(1) =~= body);
    }
}

// -------------------------------------------------------------------------- text

/// A word stays one on its line: it has no white space and no `#` in it, and no
/// brace at either end unless it is one.
pub open spec fn is_word(word: Seq<char>) -> bool {
    &&& word.len() > 0
    &&& forall|i: int|
        0 <= i < word.len() ==> !text::is_space(#[trigger] word[i]) && word[i] != '#'
    &&& word == "{"@ || word == "}"@ || !config::brace().has(word[0]) && !config::brace().has(
        word.last(),
    )
}

/// A line of a configuration file: words, and a comment behind them.
pub struct SourceLine {
    pub words: Seq<Seq<char>>,
    pub comment: Option<Seq<char>>,
}

/// The words, each behind a space.
pub open spec fn spaced(words: Seq<Seq<char>>) -> Seq<char>
    decreases words.len(),
{
    if words.len() == 0 {
        seq![]
    } else {
        seq![' '] + words[0] + spaced(words.skip(1))
    }
}

impl SourceLine {
    /// The text of the line.
    pub open spec fn written(self) -> Seq<char> {
        match self.comment {
            Some(comment) => spaced(self.words) + seq!['#'] + comment,
            None => spaced(self.words),
        }
    }

    /// The words are words, and the comment stays on the line.
    pub open spec fn fits(self) -> bool {
        &&& forall|i: int| 0 <= i < self.words.len() ==> is_word(#[trigger] self.words[i])
        &&& self.comment matches Some(comment) ==> forall|i: int|
            0 <= i < comment.len() ==> #[trigger] comment[i] != '\n' && comment[i] != '\r'
    }
}

/// The text of the lines.
pub open spec fn source_text(lines: Seq<SourceLine>) -> Seq<char>
    decreases lines.len(),
{
    if lines.len() == 0 {
        seq![]
    } else {
        lines[0].written() + seq!['\n'] + source_text(lines.skip(1))
    }
}

/// The words of the lines.
pub open spec fn source_words(lines: Seq<SourceLine>) -> Seq<Seq<char>>
    decreases lines.len(),
{
    if lines.len() == 0 {
        seq![]
    } else {
        lines[0].words + source_words(lines.skip(1))
    }
}

/// Every line can be written.
pub open spec fn source_fits(lines: Seq<SourceLine>) -> bool {
    forall|i: int| 0 <= i < lines.len() ==> (#[trigger] lines[i]).fits()
}

proof fn lemma_word_token(word: Seq<char>)
    requires
        is_word(word),
    ensures
        config::word_tokens(word) == seq![word],
{
    lemma_braces();
    let class = config::brace();
    if word == "{"@ || word == "}"@ {
        assert(word.drop_first() =~= seq![]);
        assert(text::drop_leading(word, class) =~= seq![]) by {
            reveal_with_fuel(text::drop_leading, 2);
        }
        let tail = text::drop_leading(word, class);
        assert(text::drop_trailing(tail, class) =~= seq![]);
        assert(word.take(1) =~= word);
        assert(config::single_tokens(word)[0] =~= word);
        assert(config::word_tokens(word) =~= seq![word]);
    } else {
        assert(text::drop_leading(word, class) == word);
        assert(text::drop_trailing(word, class) == word);
        assert(config::single_tokens(word.take(0)) =~= seq![]);
        assert(config::single_tokens(word.skip(word.len() as int)) =~= seq![]);
        assert(config::word_tokens(word) =~= seq![word]);
    }
}

#[verifier::spinoff_prover]
proof fn lemma_words_tokens(words: Seq<Seq<char>>)
    requires
        forall|i: int| 0 <= i < words.len() ==> is_word(#[trigger] words[i]),
    ensures
        config::words_tokens(words) == words,
    decreases words.len(),
{
    if words.len() > 0 {
        let front = words.drop_last();
        assert forall|i: int| 0 <= i < front.len() implies is_word(#[trigger] front[i]) by {
            assert(is_word(words[i]));
        }
        lemma_words_tokens(front);
        assert(is_word(words[words.len() - 1]));
        lemma_word_token(words.last());
        assert(front + seq![words.last()] =~= words);
    } else {
        assert(words =~= seq![]);
    }
}

proof fn lemma_run(word: Seq<char>, rest: Seq<char>)
    requires
        forall|i: int| 0 <= i < word.len() ==> !text::is_space(#[trigger] word[i]),
        rest.len() > 0 ==> text::is_space(rest[0]),
    ensures
        text::run_length(word + rest) == word.len(),
    decreases word.len(),
{
    if word.len() == 0 {
        assert(word + rest =~= rest);
    } else {
        let more = word.drop_first();
        assert forall|i: int| 0 <= i < more.len() implies !text::is_space(#[trigger] more[i]) by {
            assert(!text::is_space(word[i + 1]));
        }
        lemma_run(more, rest);
        assert(!text::is_space(word[0]));
        assert((word + rest).drop_first() =~= more + rest);
    }
}

/// The words of a line are told apart, and have no line feed and no `#` around them.
proof fn lemma_spaced(words: Seq<Seq<char>>)
    requires
        forall|i: int| 0 <= i < words.len() ==> is_word(#[trigger] words[i]),
    ensures
        text::words(spaced(words)) == words,
        spaced(words).len() > 0 ==> text::is_space(spaced(words)[0]),
        forall|i: int|
            0 <= i < spaced(words).len() ==> (#[trigger] spaced(words)[i]) != '#' && spaced(
                words,
            )[i] != '\n' && spaced(words)[i] != '\r',
    decreases words.len(),
{
    let s = spaced(words);
    if words.len() == 0 {
        assert(words =~= seq![]);
    } else {
        let word = words[0];
        let more = words.skip(1);
        assert forall|i: int| 0 <= i < more.len() implies is_word(#[trigger] more[i]) by {
            assert(is_word(words[i + 1]));
        }
        lemma_spaced(more);
        assert(is_word(word));
        let rest = spaced(more);
        let t = word + rest;
        assert(s.drop_first() =~= t);
        assert(!text::is_space(word[0]));
        reveal_with_fuel(text::drop_leading, 2);
        assert(text::drop_leading(s, text::CharClass::White) == t);
        lemma_run(word, rest);
        assert(t.take(word.len() as int) =~= word);
        assert(t.skip(word.len() as int) =~= rest);
        assert(seq![word] + more =~= words);
        assert forall|i: int| 0 <= i < s.len() implies (#[trigger] s[i]) != '#' && s[i] != '\n'
            && s[i] != '\r' by {
            if 0 < i <= word.len() {
                assert(s[i] == word[i - 1]);
                assert(!text::is_space(word[i - 1]));
            } else if i > word.len() {
                assert(s[i] == rest[i - 1 - word.len()]);
            }
        }
    }
}

proof fn lemma_line_tokens(line: SourceLine)
    requires
        line.fits(),
    ensures
        config::words_tokens(text::words(text::before(line.written(), '#'))) == line.words,
        forall|i: int|
            0 <= i < line.written().len() ==> (#[trigger] line.written()[i]) != '\n'
                && line.written()[i] != '\r',
{
    let s = spaced(line.words);
    lemma_spaced(line.words);
    lemma_words_tokens(line.words);
    match line.comment {
        Some(comment) => {
            text::lemma_first_index_behind(s, seq!['#'], comment);
            assert(line.written().take(s.len() as int) =~= s);
            assert forall|i: int| 0 <= i < line.written().len() implies (
            #[trigger] line.written()[i]) != '\n' && line.written()[i] != '\r' by {
                if i < s.len() {
                    assert(line.written()[i] == s[i]);
                } else if i > s.len() {
                    assert(line.written()[i] == comment[i - s.len() - 1]);
                }
            }
        },
        None => {
            text::lemma_first_index_absent(s, '#');
        },
    }
}

proof fn lemma_lines_tokens(line: Seq<char>, lines: Seq<Seq<char>>)
    ensures
        config::lines_tokens(seq![line] + lines) == config::words_tokens(
            text::words(text::before(line, '#')),
        ) + config::lines_tokens(lines),
    decreases lines.len(),
{
    let all = seq![line] + lines;
    let first = config::words_tokens(text::words(text::before(line, '#')));
    if lines.len() == 0 {
        assert(all.drop_last() =~= seq![]);
        assert(config::lines_tokens(all.drop_last()) =~= seq![]);
        assert(config::lines_tokens(all) =~= first);
        assert(first + config::lines_tokens(lines) =~= first);
    } else {
        lemma_lines_tokens(line, lines.drop_last());
        assert(all.drop_last() =~= seq![line] + lines.drop_last());
        let last = config::words_tokens(text::words(text::before(lines.last(), '#')));
        assert(first + config::lines_tokens(lines.drop_last()) + last =~= first + (
        config::lines_tokens(lines.drop_last()) + last));
    }
}

/// The words of a configuration file are read as they are written, however they
/// are spread over its lines, and without the comments.
pub proof fn words_are_read_without_the_comments(lines: Seq<SourceLine>)
    requires
        source_fits(lines),
    ensures
        config::tokens_of(source_text(lines)) == source_words(lines),
    decreases lines.len(),
{
    let source = source_text(lines);
    if lines.len() == 0 {
        assert(text::text_lines(source) =~= seq![]);
    } else {
        let line = lines[0];
        let more = lines.skip(1);
        assert(source_fits(more)) by {
            assert forall|i: int| 0 <= i < more.len() implies (#[trigger] more[i]).fits() by {
                assert(lines[i + 1].fits());
            }
        }
        words_are_read_without_the_comments(more);
        assert(line.fits());
        lemma_line_tokens(line);
        let w = line.written();
        text::lemma_first_index_behind(w, seq!['\n'], source_text(more));
        assert(source.take(w.len() as int) =~= w);
        assert(source.skip(w.len() as int + 1) =~= source_text(more));
        assert(text::without_cr(w) == w);
        lemma_lines_tokens(w, text::text_lines(source_text(more)));
    }
}

/// A configuration is read as what it says: each directive is applied to its server
/// or route, each block that is sound is a server, and of every other there is an
/// error. How the words are spread over lines, and what the comments say, does not
/// matter.
pub proof fn written_configuration_is_read(
    lines: Seq<SourceLine>,
    blocks: Seq<Seq<ServerLine>>,
)
    requires
        source_fits(lines),
        source_words(lines) == config_words(blocks),
        config_fits(blocks),
    ensures
        config::read_all(config::tokens_of(source_text(lines)), seq![]) == servers_said(
            blocks,
            seq![],
        ),
{
    words_are_read_without_the_comments(lines);
    lemma_config_read(blocks, seq![]);
}

} // verus!
