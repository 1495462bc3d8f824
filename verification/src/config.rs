//! Configuration file parsing and validation.
//!
//! Format (nginx-flavoured, no comments needed):
//!
//! ```text
//! server {
//!     host 127.0.0.1
//!     port 8080 8081
//!     server_name example.com
//!     error_page 404 www/errors/404.html
//!     client_max_body_size 1048576
//!     route / {
//!         root www/site
//!         index index.html
//!         methods GET POST DELETE
//!         directory_listing on
//!     }
//!     route /old {
//!         redirect /new
//!     }
//!     route /cgi {
//!         root www/cgi
//!         cgi .py python3
//!     }
//! }
//! ```
//!
//! A broken `server` block is reported and skipped so one bad
//! configuration never brings down the other servers.

use std::collections::HashMap;

use vstd::prelude::*;
use vstd::slice::slice_subrange;

use crate::numeral;
use crate::strmap::StrMap;
use crate::text;

verus! {

/// What a server answers under a URL prefix.
#[derive(Debug, Clone)]
pub struct RouteConfig {
    pub prefix: String,
    pub root: Option<String>,
    pub index: Option<String>,
    pub methods: Vec<String>,
    pub redirect: Option<String>,
    /// extension -> interpreter, e.g. ".py" -> "python3"
    pub cgi: StrMap,
    pub directory_listing: bool,
    pub upload: bool,
}

/// What a route says.
#[verifier::ext_equal]
pub struct RouteView {
    pub prefix: Seq<char>,
    pub root: Option<Seq<char>>,
    pub index: Option<Seq<char>>,
    pub methods: Seq<Seq<char>>,
    pub redirect: Option<Seq<char>>,
    pub cgi: Map<Seq<char>, Seq<char>>,
    pub directory_listing: bool,
    pub upload: bool,
}

impl View for RouteConfig {
    type V = RouteView;

    open spec fn view(&self) -> RouteView {
        RouteView {
            prefix: self.prefix@,
            root: text::shown(self.root),
            index: text::shown(self.index),
            methods: text::texts(self.methods@),
            redirect: text::shown(self.redirect),
            cgi: self.cgi@,
            directory_listing: self.directory_listing,
            upload: self.upload,
        }
    }
}

/// A virtual server.
#[derive(Debug, Clone)]
pub struct ServerConfig {
    pub host: String,
    pub ports: Vec<u16>,
    pub server_name: Option<String>,
    pub error_pages: HashMap<u16, String>,
    pub max_body_size: usize,
    pub routes: Vec<RouteConfig>,
}

/// What a server says.
#[verifier::ext_equal]
pub struct ServerView {
    pub host: Seq<char>,
    pub ports: Seq<u16>,
    pub server_name: Option<Seq<char>>,
    pub error_pages: Map<u16, Seq<char>>,
    pub max_body_size: int,
    pub routes: Seq<RouteView>,
}

/// The text at each key.
pub open spec fn page_map(pages: Map<u16, String>) -> Map<u16, Seq<char>> {
    pages.map_values(|page: String| page@)
}

/// What each route says.
pub open spec fn route_views(routes: Seq<RouteConfig>) -> Seq<RouteView> {
    Seq::new(routes.len(), |i: int| routes[i]@)
}

impl View for ServerConfig {
    type V = ServerView;

    open spec fn view(&self) -> ServerView {
        ServerView {
            host: self.host@,
            ports: self.ports@,
            server_name: text::shown(self.server_name),
            error_pages: page_map(self.error_pages@),
            max_body_size: self.max_body_size as int,
            routes: route_views(self.routes@),
        }
    }
}

/// What each server says.
pub open spec fn server_views(servers: Seq<ServerConfig>) -> Seq<ServerView> {
    Seq::new(servers.len(), |i: int| servers[i]@)
}

/// What is wrong with a configuration.
#[derive(Debug)]
pub struct ConfigError(pub String);

impl View for ConfigError {
    type V = Seq<char>;

    open spec fn view(&self) -> Seq<char> {
        self.0@
    }
}

impl ConfigError {
    /// The message for the log.
    pub fn message(&self) -> (message: String)
        ensures
            message@ == self@,
    {
        self.0.clone()
    }
}

/// What each error says.
pub open spec fn error_views(errors: Seq<ConfigError>) -> Seq<Seq<char>> {
    Seq::new(errors.len(), |i: int| errors[i]@)
}

// -------------------------------------------------------------------- matching

impl RouteView {
    /// A route as it is before its first directive.
    pub open spec fn fresh(prefix: Seq<char>) -> RouteView {
        RouteView {
            prefix,
            root: None,
            index: None,
            methods: seq!["GET"@, "POST"@, "DELETE"@],
            redirect: None,
            cgi: Map::empty(),
            directory_listing: false,
            upload: false,
        }
    }

    /// The route accepts the method. `HEAD` is accepted wherever `GET` is.
    pub open spec fn allows(self, method: Seq<char>) -> bool {
        self.methods.contains(method) || (method == "HEAD"@ && self.methods.contains("GET"@))
    }

    /// The route is for the path: its prefix is the path, or the root, or ends
    /// where a segment of the path ends.
    pub open spec fn covers(self, path: Seq<char>) -> bool {
        let p = self.prefix;
        ||| path == p
        ||| p == "/"@ && path.len() > 0 && path[0] == '/'
        ||| text::begins(path, p) && path.len() > p.len() && path[p.len() as int] == '/'
    }
}

/// `HEAD` is allowed wherever `GET` is.
pub proof fn head_is_allowed_wherever_get_is(route: RouteView)
    ensures
        route.allows("GET"@) ==> route.allows("HEAD"@),
{
}

impl RouteConfig {
    fn new(prefix: String) -> (route: RouteConfig)
        ensures
            route@ == RouteView::fresh(prefix@),
    {
        let mut methods: Vec<String> = Vec::new();
        methods.push("GET".to_owned());
        methods.push("POST".to_owned());
        methods.push("DELETE".to_owned());
        assert(text::texts(methods@) =~= seq!["GET"@, "POST"@, "DELETE"@]);
        RouteConfig {
            prefix,
            root: None,
            index: None,
            methods,
            redirect: None,
            cgi: StrMap::new(),
            directory_listing: false,
            upload: false,
        }
    }

    /// Whether the route accepts the method.
    pub fn allows(&self, method: &str) -> (b: bool)
        ensures
            b == self@.allows(method@),
    {
        if text::list_holds(&self.methods, method) {
            return true;
        }
        // HEAD is served wherever GET is: the answer is the GET answer with the
        // body left out.
        text::same_text(method, "HEAD") && text::list_holds(&self.methods, "GET")
    }

    /// Whether the route is for the path.
    fn covers(&self, path: &[char]) -> (b: bool)
        ensures
            b == self@.covers(path@),
    {
        let p: Vec<char> = text::chars_of(self.prefix.as_str());
        text::spells(path, self.prefix.as_str()) || (text::same_text(self.prefix.as_str(), "/")
            && path.len() > 0 && path[0] == '/') || (text::starts_with(path, p.as_slice())
            && path.len() > p.len() && path[p.len()] == '/')
    }
}

impl ServerView {
    /// A server as it is before its first directive.
    pub open spec fn fresh() -> ServerView {
        ServerView {
            host: "127.0.0.1"@,
            ports: seq![],
            server_name: None,
            error_pages: Map::empty(),
            max_body_size: 1048576,
            routes: seq![],
        }
    }

    /// The route for the path: no other one for it has a longer prefix, and none
    /// behind it one as long.
    pub open spec fn routes_to(self, path: Seq<char>, i: int) -> bool {
        &&& 0 <= i < self.routes.len()
        &&& self.routes[i].covers(path)
        &&& forall|j: int|
            0 <= j < self.routes.len() && (#[trigger] self.routes[j]).covers(path) ==> {
                ||| self.routes[j].prefix.len() < self.routes[i].prefix.len()
                ||| self.routes[j].prefix.len() == self.routes[i].prefix.len() && j <= i
            }
    }

    /// The index of the route for the path.
    pub open spec fn route_index(self, path: Seq<char>) -> Option<int> {
        if exists|i: int| self.routes_to(path, i) {
            Some(choose|i: int| self.routes_to(path, i))
        } else {
            None
        }
    }

    /// The route for the path.
    pub open spec fn route(self, path: Seq<char>) -> Option<RouteView> {
        match self.route_index(path) {
            Some(i) => Some(self.routes[i]),
            None => None,
        }
    }
}

/// There is one route for a path at most, and one where any is for it.
pub proof fn route_is_unique(server: ServerView, path: Seq<char>, i: int)
    requires
        server.routes_to(path, i),
    ensures
        server.route_index(path) == Some(i),
{
    let k = choose|k: int| server.routes_to(path, k);
    assert(server.routes_to(path, k));
    assert(server.routes[i].covers(path));
    assert(server.routes[k].covers(path));
}

impl ServerConfig {
    fn new() -> (server: ServerConfig)
        ensures
            server@ == ServerView::fresh(),
    {
        broadcast use vstd::std_specs::hash::group_hash_axioms;

        let server: ServerConfig = ServerConfig {
            host: "127.0.0.1".to_owned(),
            ports: Vec::new(),
            server_name: None,
            error_pages: HashMap::new(),
            max_body_size: 1024 * 1024,  // 1 MiB default
            routes: Vec::new(),
        };
        assert(server@.error_pages =~= Map::empty());
        assert(server@.routes =~= seq![]);
        server
    }

    /// Longest matching route prefix wins.
    pub fn route_for(&self, path: &str) -> (route: Option<&RouteConfig>)
        ensures
            match route {
                Some(r) => {
                    &&& self@.route(path@) == Some(r@)
                    &&& r@.covers(path@)
                },
                None => {
                    &&& self@.route(path@) is None
                    &&& forall|j: int|
                        0 <= j < self@.routes.len() ==> !(#[trigger] self@.routes[j]).covers(path@)
                },
            },
    {
        let chars: Vec<char> = text::chars_of(path);
        let mut best: Option<usize> = None;
        let mut longest: usize = 0;
        let mut i: usize = 0;
        while i < self.routes.len()
            invariant
                i <= self.routes@.len(),
                chars@ == path@,
                match best {
                    Some(b) => {
                        &&& b < i
                        &&& self@.routes[b as int].covers(path@)
                        &&& longest == self@.routes[b as int].prefix.len()
                        &&& forall|j: int|
                            0 <= j < i && (#[trigger] self@.routes[j]).covers(path@) ==> {
                                ||| self@.routes[j].prefix.len() < longest
                                ||| self@.routes[j].prefix.len() == longest && j <= b
                            }
                    },
                    None => forall|j: int|
                        0 <= j < i ==> !(#[trigger] self@.routes[j]).covers(path@),
                },
            decreases self.routes@.len() - i,
        {
            let route: &RouteConfig = &self.routes[i];
            assert(self@.routes[i as int] == route@);
            if route.covers(chars.as_slice()) {
                let length: usize = text::chars_of(route.prefix.as_str()).len();
                if best.is_none() || length >= longest {
                    best = Some(i);
                    longest = length;
                }
            }
            i += 1;
        }
        match best {
            Some(b) => {
                proof {
                    assert(self@.routes_to(path@, b as int));
                    route_is_unique(self@, path@, b as int);
                }
                Some(&self.routes[b])
            },
            None => {
                assert(forall|k: int| !self@.routes_to(path@, k));
                None
            },
        }
    }
}

// --------------------------------------------------------------------- parsing

/// A brace.
pub open spec fn brace() -> text::CharClass {
    text::CharClass::Either('{', '}')
}

/// Each character a token of its own.
pub open spec fn single_tokens(s: Seq<char>) -> Seq<Seq<char>> {
    Seq::new(s.len(), |i: int| seq![s[i]])
}

/// The tokens of a word. Braces may be glued to its front and its back; each is a
/// token of its own.
pub open spec fn word_tokens(word: Seq<char>) -> Seq<Seq<char>> {
    let tail = text::drop_leading(word, brace());
    let name = text::drop_trailing(tail, brace());
    single_tokens(word.take(word.len() - tail.len())) + (if name.len() > 0 {
        seq![name]
    } else {
        seq![]
    }) + single_tokens(tail.skip(name.len() as int))
}

/// The tokens of the words.
pub open spec fn words_tokens(words: Seq<Seq<char>>) -> Seq<Seq<char>>
    decreases words.len(),
{
    if words.len() == 0 {
        seq![]
    } else {
        words_tokens(words.drop_last()) + word_tokens(words.last())
    }
}

/// The tokens of the lines, each without the comment behind a `#`.
pub open spec fn lines_tokens(lines: Seq<Seq<char>>) -> Seq<Seq<char>>
    decreases lines.len(),
{
    if lines.len() == 0 {
        seq![]
    } else {
        lines_tokens(lines.drop_last()) + words_tokens(
            text::words(text::before(lines.last(), '#')),
        )
    }
}

/// The tokens of a configuration file.
pub open spec fn tokens_of(source: Seq<char>) -> Seq<Seq<char>> {
    lines_tokens(text::text_lines(source))
}

/// Appends each character as a token of its own.
fn push_single(tokens: &mut Vec<String>, chars: &[char])
    ensures
        text::texts(final(tokens)@) == text::texts(old(tokens)@) + single_tokens(chars@),
{
    let ghost start = text::texts(tokens@);
    let mut i: usize = 0;
    assert(start + single_tokens(chars@.take(0)) =~= start);
    while i < chars.len()
        invariant
            i <= chars.len(),
            text::texts(tokens@) == start + single_tokens(chars@.take(i as int)),
        decreases chars.len() - i,
    {
        let ghost before = text::texts(tokens@);
        let one: [char; 1] = [chars[i]];
        assert(one@ =~= seq![chars@[i as int]]);
        tokens.push(text::text_of(&one));
        proof {
            assert(text::texts(tokens@) =~= before.push(one@));
            assert(before.push(one@) =~= start + single_tokens(chars@.take(i + 1)));
        }
        i += 1;
    }
    assert(chars@.take(i as int) =~= chars@);
}

/// Appends the tokens of a word.
fn push_word(tokens: &mut Vec<String>, word: &[char])
    ensures
        text::texts(final(tokens)@) == text::texts(old(tokens)@) + word_tokens(word@),
{
    let ghost start = text::texts(tokens@);
    let class: text::CharClass = text::CharClass::Either('{', '}');
    let tail: &[char] = text::trim_start_of(word, &class);
    proof {
        text::lemma_drop_leading(word@, class);
        text::lemma_drop_trailing(tail@, class);
    }
    let front: &[char] = slice_subrange(word, 0, word.len() - tail.len());
    assert(front@ =~= word@.take(word@.len() - tail@.len()));
    push_single(tokens, front);
    let name: &[char] = text::trim_end_of(tail, &class);
    if name.len() > 0 {
        let ghost before = text::texts(tokens@);
        tokens.push(text::text_of(name));
        assert(text::texts(tokens@) =~= before + seq![name@]);
    }
    let back: &[char] = slice_subrange(tail, name.len(), tail.len());
    assert(back@ =~= tail@.skip(name@.len() as int));
    push_single(tokens, back);
    assert(text::texts(tokens@) =~= start + word_tokens(word@));
}

/// The tokens of a configuration file.
fn tokenize(source: &str) -> (tokens: Vec<String>)
    ensures
        text::texts(tokens@) == tokens_of(source@),
{
    let chars: Vec<char> = text::chars_of(source);
    let lines: Vec<&[char]> = text::lines(chars.as_slice());
    let ghost all_lines = text::contents(lines@);
    let mut tokens: Vec<String> = Vec::new();
    let mut i: usize = 0;
    assert(text::texts(tokens@) =~= lines_tokens(all_lines.take(0)));
    while i < lines.len()
        invariant
            i <= lines@.len(),
            all_lines == text::contents(lines@),
            text::texts(tokens@) == lines_tokens(all_lines.take(i as int)),
        decreases lines@.len() - i,
    {
        // '#' starts a comment.
        let words: Vec<&[char]> = text::split_whitespace(text::up_to(lines[i], '#'));
        let ghost all_words = text::contents(words@);
        let ghost start = text::texts(tokens@);
        let mut k: usize = 0;
        assert(start + words_tokens(all_words.take(0)) =~= start);
        while k < words.len()
            invariant
                k <= words@.len(),
                all_words == text::contents(words@),
                text::texts(tokens@) == start + words_tokens(all_words.take(k as int)),
            decreases words@.len() - k,
        {
            push_word(&mut tokens, words[k]);
            proof {
                let upto = all_words.take(k + 1);
                assert(upto.drop_last() =~= all_words.take(k as int));
                assert(upto.last() == words@[k as int]@);
                assert(text::texts(tokens@) =~= start + words_tokens(upto));
            }
            k += 1;
        }
        proof {
            assert(all_words.take(k as int) =~= all_words);
            let upto = all_lines.take(i + 1);
            assert(upto.drop_last() =~= all_lines.take(i as int));
            assert(upto.last() == lines@[i as int]@);
        }
        i += 1;
    }
    assert(all_lines.take(i as int) =~= all_lines);
    tokens
}

/// What reading a part of the file came to, and the tokens that are left.
#[verifier::ext_equal]
pub struct Step<T> {
    pub outcome: Result<T, Seq<char>>,
    pub rest: Seq<Seq<char>>,
}

pub open spec fn took<T>(value: T, rest: Seq<Seq<char>>) -> Step<T> {
    Step { outcome: Ok(value), rest }
}

pub open spec fn refused<T>(why: Seq<char>, rest: Seq<Seq<char>>) -> Step<T> {
    Step { outcome: Err(why), rest }
}

/// What a function that reads a part of the file came to.
pub open spec fn step_of<T: View>(
    outcome: Result<T, ConfigError>,
    rest: Seq<Seq<char>>,
) -> Step<T::V> {
    match outcome {
        Ok(value) => took(value@, rest),
        Err(error) => refused(error@, rest),
    }
}

/// One token that has to come.
pub open spec fn expected(tokens: Seq<Seq<char>>, token: Seq<char>) -> Step<()> {
    let found = if tokens.len() > 0 {
        tokens[0]
    } else {
        seq![]
    };
    if tokens.len() > 0 && found == token {
        took((), tokens.skip(1))
    } else {
        refused("expected '"@ + token + "', found '"@ + found + "'"@, tokens)
    }
}

/// A `server` block begins at the place.
pub open spec fn block_begins(tokens: Seq<Seq<char>>, at: int) -> bool {
    at + 1 < tokens.len() && tokens[at] == "server"@ && tokens[at + 1] == "{"@
}

/// The value of a directive: any token but a brace, and but the beginning of the
/// next `server` block.
pub open spec fn value_for(tokens: Seq<Seq<char>>, what: Seq<char>) -> Step<Seq<char>> {
    if tokens.len() > 0 && tokens[0] != "{"@ && tokens[0] != "}"@ && !block_begins(tokens, 0) {
        took(tokens[0], tokens.skip(1))
    } else {
        refused("missing value for '"@ + what + "'"@, tokens)
    }
}

/// The ports at the front of the tokens, behind those that came before.
pub open spec fn read_ports(tokens: Seq<Seq<char>>, ports: Seq<u16>) -> Step<Seq<u16>>
    decreases tokens.len(),
{
    if tokens.len() == 0 {
        took(ports, tokens)
    } else {
        match numeral::number_within(tokens[0], 10, 65535) {
            None => took(ports, tokens),
            Some(port) => if ports.contains(port as u16) {
                refused(
                    "port "@ + numeral::decimal(port as nat)
                        + " is configured twice in the same server"@,
                    tokens,
                )
            } else {
                read_ports(tokens.skip(1), ports.push(port as u16))
            },
        }
    }
}

/// The names of the methods that a route can be given.
pub open spec fn is_method(name: Seq<char>) -> bool {
    name == "GET"@ || name == "POST"@ || name == "DELETE"@ || name == "PUT"@ || name == "HEAD"@
}

/// The methods at the front of the tokens, in upper case.
pub open spec fn read_methods(tokens: Seq<Seq<char>>) -> (Seq<Seq<char>>, Seq<Seq<char>>)
    decreases tokens.len(),
{
    if tokens.len() > 0 && is_method(text::uppercased(tokens[0])) {
        let (methods, rest) = read_methods(tokens.skip(1));
        (seq![text::uppercased(tokens[0])] + methods, rest)
    } else {
        (seq![], tokens)
    }
}

/// A switch is on where its value says so.
pub open spec fn switched(tokens: Seq<Seq<char>>, what: Seq<char>) -> Step<bool> {
    let v = value_for(tokens, what);
    match v.outcome {
        Ok(value) => took(value == "on"@, v.rest),
        Err(why) => refused(why, v.rest),
    }
}

/// One directive of a route: its name, and what belongs to it. A word that is not the
/// name of one is left where it is.
pub open spec fn route_directive(tokens: Seq<Seq<char>>, route: RouteView) -> Step<RouteView> {
    let name = tokens[0];
    let args = tokens.skip(1);
    if name == "root"@ {
        let v = value_for(args, name);
        match v.outcome {
            Ok(value) => took(RouteView { root: Some(value), ..route }, v.rest),
            Err(why) => refused(why, v.rest),
        }
    } else if name == "index"@ {
        let v = value_for(args, name);
        match v.outcome {
            Ok(value) => took(RouteView { index: Some(value), ..route }, v.rest),
            Err(why) => refused(why, v.rest),
        }
    } else if name == "redirect"@ {
        let v = value_for(args, name);
        match v.outcome {
            Ok(value) => took(RouteView { redirect: Some(value), ..route }, v.rest),
            Err(why) => refused(why, v.rest),
        }
    } else if name == "methods"@ {
        let (methods, rest) = read_methods(args);
        if methods.len() == 0 {
            refused("methods expects at least one method"@, rest)
        } else {
            took(RouteView { methods, ..route }, rest)
        }
    } else if name == "cgi"@ {
        let extension = value_for(args, name);
        match extension.outcome {
            Err(why) => refused(why, extension.rest),
            Ok(ext) => {
                let interpreter = value_for(extension.rest, name);
                match interpreter.outcome {
                    Err(why) => refused(why, interpreter.rest),
                    Ok(program) => if ext.len() > 0 && ext[0] == '.' {
                        took(
                            RouteView { cgi: route.cgi.insert(ext, program), ..route },
                            interpreter.rest,
                        )
                    } else {
                        refused("cgi extension must start with '.'"@, interpreter.rest)
                    },
                }
            },
        }
    } else if name == "directory_listing"@ {
        let v = switched(args, name);
        match v.outcome {
            Ok(on) => took(RouteView { directory_listing: on, ..route }, v.rest),
            Err(why) => refused(why, v.rest),
        }
    } else if name == "upload"@ {
        let v = switched(args, name);
        match v.outcome {
            Ok(on) => took(RouteView { upload: on, ..route }, v.rest),
            Err(why) => refused(why, v.rest),
        }
    } else {
        refused("unknown route directive '"@ + name + "'"@, tokens)
    }
}

pub proof fn lemma_read_methods_rest(tokens: Seq<Seq<char>>)
    ensures
        read_methods(tokens).1.len() <= tokens.len(),
    decreases tokens.len(),
{
    if tokens.len() > 0 {
        lemma_read_methods_rest(tokens.skip(1));
    }
}

pub proof fn lemma_route_directive_rest(tokens: Seq<Seq<char>>, route: RouteView)
    requires
        tokens.len() > 0,
    ensures
        route_directive(tokens, route).rest.len() <= tokens.len(),
        route_directive(tokens, route).outcome is Ok ==> route_directive(tokens, route).rest.len()
            < tokens.len(),
{
    lemma_read_methods_rest(tokens.skip(1));
}

/// The directives of a route up to the closing brace.
pub open spec fn route_body(tokens: Seq<Seq<char>>, route: RouteView) -> Step<RouteView>
    decreases tokens.len(),
{
    if tokens.len() == 0 {
        refused("unexpected end of file in route block"@, tokens)
    } else if tokens[0] == "}"@ {
        took(route, tokens.skip(1))
    } else {
        let step = route_directive(tokens, route);
        proof {
            lemma_route_directive_rest(tokens, route);
        }
        match step.outcome {
            Ok(next) => route_body(step.rest, next),
            Err(why) => refused(why, step.rest),
        }
    }
}

/// A route, of which the word `route` has been read.
pub open spec fn read_route(tokens: Seq<Seq<char>>) -> Step<RouteView> {
    let v = value_for(tokens, "route"@);
    match v.outcome {
        Err(why) => refused(why, v.rest),
        Ok(prefix) => if prefix.len() > 0 && prefix[0] == '/' {
            let brace = expected(v.rest, "{"@);
            match brace.outcome {
                Err(why) => refused(why, brace.rest),
                Ok(_) => route_body(brace.rest, RouteView::fresh(prefix)),
            }
        } else {
            refused("route prefix '"@ + prefix + "' must start with '/'"@, v.rest)
        },
    }
}

/// One directive of a server: its name, and what belongs to it. A word that is not the
/// name of one is left where it is.
pub open spec fn server_directive(tokens: Seq<Seq<char>>, server: ServerView) -> Step<ServerView> {
    let name = tokens[0];
    let args = tokens.skip(1);
    if name == "host"@ {
        let v = value_for(args, name);
        match v.outcome {
            Ok(host) => took(ServerView { host, ..server }, v.rest),
            Err(why) => refused(why, v.rest),
        }
    } else if name == "port"@ {
        let v = read_ports(args, server.ports);
        match v.outcome {
            Ok(ports) => if ports.len() == server.ports.len() {
                refused("port expects at least one number"@, v.rest)
            } else {
                took(ServerView { ports, ..server }, v.rest)
            },
            Err(why) => refused(why, v.rest),
        }
    } else if name == "server_name"@ {
        let v = value_for(args, name);
        match v.outcome {
            Ok(value) => took(ServerView { server_name: Some(value), ..server }, v.rest),
            Err(why) => refused(why, v.rest),
        }
    } else if name == "error_page"@ {
        let status = value_for(args, name);
        match status.outcome {
            Err(why) => refused(why, status.rest),
            Ok(numeral) => match numeral::number_within(numeral, 10, 65535) {
                None => refused("error_page expects a status code"@, status.rest),
                Some(code) => {
                    let page = value_for(status.rest, name);
                    match page.outcome {
                        Err(why) => refused(why, page.rest),
                        Ok(path) => took(
                            ServerView {
                                error_pages: server.error_pages.insert(code as u16, path),
                                ..server
                            },
                            page.rest,
                        ),
                    }
                },
            },
        }
    } else if name == "client_max_body_size"@ {
        let v = value_for(args, name);
        match v.outcome {
            Err(why) => refused(why, v.rest),
            Ok(numeral) => match numeral::number_within(numeral, 10, usize::MAX as int) {
                None => refused("client_max_body_size expects a number of bytes"@, v.rest),
                Some(size) => took(ServerView { max_body_size: size, ..server }, v.rest),
            },
        }
    } else if name == "route"@ {
        let v = read_route(args);
        match v.outcome {
            Ok(route) => took(ServerView { routes: server.routes.push(route), ..server }, v.rest),
            Err(why) => refused(why, v.rest),
        }
    } else {
        refused("unknown server directive '"@ + name + "'"@, tokens)
    }
}

pub proof fn lemma_read_ports_rest(tokens: Seq<Seq<char>>, ports: Seq<u16>)
    ensures
        read_ports(tokens, ports).rest.len() <= tokens.len(),
    decreases tokens.len(),
{
    if tokens.len() > 0 {
        if let Some(port) = numeral::number_within(tokens[0], 10, 65535) {
            lemma_read_ports_rest(tokens.skip(1), ports.push(port as u16));
        }
    }
}

pub proof fn lemma_route_body_rest(tokens: Seq<Seq<char>>, route: RouteView)
    ensures
        route_body(tokens, route).rest.len() <= tokens.len(),
    decreases tokens.len(),
{
    if tokens.len() > 0 && tokens[0] != "}"@ {
        let step = route_directive(tokens, route);
        lemma_route_directive_rest(tokens, route);
        if let Ok(next) = step.outcome {
            lemma_route_body_rest(step.rest, next);
        }
    }
}

pub proof fn lemma_server_directive_rest(tokens: Seq<Seq<char>>, server: ServerView)
    requires
        tokens.len() > 0,
    ensures
        server_directive(tokens, server).rest.len() <= tokens.len(),
        server_directive(tokens, server).outcome is Ok ==> server_directive(tokens, server).rest.len()
            < tokens.len(),
{
    lemma_read_ports_rest(tokens.skip(1), server.ports);
    let v = value_for(tokens.skip(1), "route"@);
    if let Ok(prefix) = v.outcome {
        lemma_route_body_rest(expected(v.rest, "{"@).rest, RouteView::fresh(prefix));
    }
}

/// The directives of a server up to the closing brace.
pub open spec fn server_body(tokens: Seq<Seq<char>>, server: ServerView) -> Step<ServerView>
    decreases tokens.len(),
{
    if tokens.len() == 0 {
        refused("unexpected end of file in server block"@, tokens)
    } else if tokens[0] == "}"@ {
        took(server, tokens.skip(1))
    } else {
        let step = server_directive(tokens, server);
        proof {
            lemma_server_directive_rest(tokens, server);
        }
        match step.outcome {
            Ok(next) => server_body(step.rest, next),
            Err(why) => refused(why, step.rest),
        }
    }
}

/// A server, of which the word `server` has been read.
pub open spec fn read_server(tokens: Seq<Seq<char>>) -> Step<ServerView> {
    let brace = expected(tokens, "{"@);
    match brace.outcome {
        Err(why) => refused(why, brace.rest),
        Ok(_) => server_body(brace.rest, ServerView::fresh()),
    }
}

pub proof fn lemma_server_body_rest(tokens: Seq<Seq<char>>, server: ServerView)
    ensures
        server_body(tokens, server).rest.len() <= tokens.len(),
    decreases tokens.len(),
{
    if tokens.len() > 0 && tokens[0] != "}"@ {
        let step = server_directive(tokens, server);
        lemma_server_directive_rest(tokens, server);
        if let Ok(next) = step.outcome {
            lemma_server_body_rest(step.rest, next);
        }
    }
}

pub proof fn lemma_read_server_rest(tokens: Seq<Seq<char>>)
    ensures
        read_server(tokens).rest.len() <= tokens.len(),
{
    lemma_server_body_rest(expected(tokens, "{"@).rest, ServerView::fresh());
}

/// The tokens from the next `server` on.
pub open spec fn from_server(tokens: Seq<Seq<char>>) -> Seq<Seq<char>>
    decreases tokens.len(),
{
    if tokens.len() > 0 && tokens[0] != "server"@ {
        from_server(tokens.skip(1))
    } else {
        tokens
    }
}

pub proof fn lemma_from_server_rest(tokens: Seq<Seq<char>>)
    ensures
        from_server(tokens).len() <= tokens.len(),
    decreases tokens.len(),
{
    if tokens.len() > 0 {
        lemma_from_server_rest(tokens.skip(1));
    }
}

// ------------------------------------------------------------------ validation

/// The first route that has neither a root nor a redirect.
pub open spec fn first_rootless(routes: Seq<RouteView>) -> Option<Seq<char>>
    decreases routes.len(),
{
    if routes.len() == 0 {
        None
    } else if routes[0].redirect is None && routes[0].root is None {
        Some(routes[0].prefix)
    } else {
        first_rootless(routes.skip(1))
    }
}

/// What a finished server lacks.
pub open spec fn lack(server: ServerView) -> Option<Seq<char>> {
    if server.ports.len() == 0 {
        Some("server has no port"@)
    } else if server.routes.len() == 0 {
        Some("server has no route"@)
    } else {
        match first_rootless(server.routes) {
            Some(prefix) => Some(
                "route '"@ + prefix + "' needs either a root or a redirect"@,
            ),
            None => None,
        }
    }
}

/// The first port in a list that is also in the other.
pub open spec fn shared_port(ports: Seq<u16>, taken: Seq<u16>) -> Option<u16>
    decreases ports.len(),
{
    if ports.len() == 0 {
        None
    } else if taken.contains(ports[0]) {
        Some(ports[0])
    } else {
        shared_port(ports.skip(1), taken)
    }
}

/// Nothing tells the names apart.
pub open spec fn same_name(a: Option<Seq<char>>, b: Option<Seq<char>>) -> bool {
    match (a, b) {
        (None, None) => true,
        (Some(x), Some(y)) => text::same_letters(x, y),
        _ => false,
    }
}

/// The port on which a request could be for either server, with nothing to tell
/// them apart.
pub open spec fn clash(existing: ServerView, candidate: ServerView) -> Option<u16> {
    if text::same_letters(existing.host, candidate.host) && same_name(
        existing.server_name,
        candidate.server_name,
    ) {
        shared_port(candidate.ports, existing.ports)
    } else {
        None
    }
}

/// The first port of the candidate that another server holds already.
pub open spec fn first_clash(accepted: Seq<ServerView>, candidate: ServerView) -> Option<u16>
    decreases accepted.len(),
{
    if accepted.len() == 0 {
        None
    } else if clash(accepted[0], candidate) is Some {
        clash(accepted[0], candidate)
    } else {
        first_clash(accepted.skip(1), candidate)
    }
}

/// What keeps a finished server from being accepted beside the others.
pub open spec fn objection(accepted: Seq<ServerView>, candidate: ServerView) -> Option<Seq<char>> {
    match lack(candidate) {
        Some(why) => Some(why),
        None => match first_clash(accepted, candidate) {
            Some(port) => Some(
                candidate.host + ":"@ + numeral::decimal(port as nat)
                    + " is already taken by server_name '"@ + (match candidate.server_name {
                    Some(name) => name,
                    None => "<default>"@,
                })
                    + "'; a host:port may only be repeated with a different server_name"@,
            ),
            None => None,
        },
    }
}

/// The servers of a file behind those accepted already, and the errors in it.
pub open spec fn read_all(tokens: Seq<Seq<char>>, accepted: Seq<ServerView>) -> (
    Seq<ServerView>,
    Seq<Seq<char>>,
)
    decreases tokens.len(),
{
    if tokens.len() == 0 {
        (accepted, seq![])
    } else if tokens[0] != "server"@ {
        let (servers, errors) = read_all(tokens.skip(1), accepted);
        (servers, seq!["expected 'server', found '"@ + tokens[0] + "'"@] + errors)
    } else {
        let step = read_server(tokens.skip(1));
        proof {
            lemma_read_server_rest(tokens.skip(1));
            lemma_from_server_rest(step.rest);
        }
        match step.outcome {
            Ok(server) => match objection(accepted, server) {
                None => read_all(step.rest, accepted.push(server)),
                Some(why) => {
                    let (servers, errors) = read_all(step.rest, accepted);
                    (servers, seq![why] + errors)
                },
            },
            Err(why) => {
                let (servers, errors) = read_all(from_server(step.rest), accepted);
                (servers, seq![why] + errors)
            },
        }
    }
}

// -------------------------------------------------------------- reading a file

/// The tokens from the cursor on.
spec fn left(tokens: &Vec<String>, cursor: usize) -> Seq<Seq<char>> {
    text::texts(tokens@).skip(cursor as int)
}

proof fn lemma_left(tokens: &Vec<String>, cursor: usize)
    requires
        cursor <= tokens@.len(),
    ensures
        left(tokens, cursor).len() == tokens@.len() - cursor,
        cursor < tokens@.len() ==> {
            &&& left(tokens, cursor)[0] == tokens@[cursor as int]@
            &&& left(tokens, cursor).skip(1) == text::texts(tokens@).skip(cursor + 1)
        },
{
    if cursor < tokens@.len() {
        assert(left(tokens, cursor).skip(1) =~= text::texts(tokens@).skip(cursor + 1));
    }
}

fn expect(tokens: &Vec<String>, cursor: &mut usize, token: &str) -> (met: Result<(), ConfigError>)
    requires
        *old(cursor) <= tokens@.len(),
    ensures
        *old(cursor) <= *final(cursor) <= tokens@.len(),
        step_of(met, left(tokens, *final(cursor))) == expected(left(tokens, *old(cursor)), token@),
{
    proof {
        lemma_left(tokens, *cursor);
    }
    if *cursor < tokens.len() && text::same_text(tokens[*cursor].as_str(), token) {
        *cursor += 1;
        return Ok(());
    }
    let mut message: Vec<char> = text::chars_of("expected '");
    text::push_text(&mut message, token);
    text::push_text(&mut message, "', found '");
    if *cursor < tokens.len() {
        text::push_text(&mut message, tokens[*cursor].as_str());
    } else {
        assert(message@ + Seq::<char>::empty() =~= message@);
    }
    text::push_text(&mut message, "'");
    Err(ConfigError(text::text_of(message.as_slice())))
}

/// Whether a `server` block begins at the cursor.
fn begins_block(tokens: &Vec<String>, cursor: usize) -> (b: bool)
    requires
        cursor <= tokens@.len(),
    ensures
        b == block_begins(left(tokens, cursor), 0),
{
    proof {
        lemma_left(tokens, cursor);
        if cursor + 1 < tokens@.len() {
            assert(left(tokens, cursor)[1] == tokens@[cursor + 1]@);
        }
    }
    tokens.len() - cursor > 1 && text::same_text(tokens[cursor].as_str(), "server")
        && text::same_text(tokens[cursor + 1].as_str(), "{")
}

fn next_value(tokens: &Vec<String>, cursor: &mut usize, what: &str) -> (value: Result<
    String,
    ConfigError,
>)
    requires
        *old(cursor) <= tokens@.len(),
    ensures
        *old(cursor) <= *final(cursor) <= tokens@.len(),
        step_of(value, left(tokens, *final(cursor))) == value_for(
            left(tokens, *old(cursor)),
            what@,
        ),
{
    proof {
        lemma_left(tokens, *cursor);
    }
    if *cursor < tokens.len() && !text::same_text(tokens[*cursor].as_str(), "{")
        && !text::same_text(tokens[*cursor].as_str(), "}") && !begins_block(tokens, *cursor) {
        let value: String = tokens[*cursor].clone();
        *cursor += 1;
        return Ok(value);
    }
    Err(ConfigError(text::concat3("missing value for '", what, "'")))
}

fn has_port(ports: &Vec<u16>, port: u16) -> (b: bool)
    ensures
        b == ports@.contains(port),
{
    let mut i: usize = 0;
    while i < ports.len()
        invariant
            i <= ports@.len(),
            forall|j: int| 0 <= j < i ==> ports@[j] != port,
        decreases ports@.len() - i,
    {
        if ports[i] == port {
            return true;
        }
        i += 1;
    }
    false
}

/// Reads a number of at most `max`.
fn number(word: &str, max: u64) -> (n: Option<u64>)
    ensures
        match n {
            Some(v) => numeral::number_within(word@, 10, max as int) == Some(v as int) && v <= max,
            None => numeral::number_within(word@, 10, max as int) is None,
        },
{
    let chars: Vec<char> = text::chars_of(word);
    numeral::parse_number(chars.as_slice(), 10, max)
}

/// Reads one or more ports behind those in `ports`.
fn parse_ports(tokens: &Vec<String>, cursor: &mut usize, ports: Vec<u16>) -> (read: Result<
    Vec<u16>,
    ConfigError,
>)
    requires
        *old(cursor) <= tokens@.len(),
    ensures
        *old(cursor) <= *final(cursor) <= tokens@.len(),
        match read {
            Ok(all) => read_ports(left(tokens, *old(cursor)), ports@) == took(
                all@,
                left(tokens, *final(cursor)),
            ),
            Err(error) => read_ports(left(tokens, *old(cursor)), ports@) == refused::<Seq<u16>>(
                error@,
                left(tokens, *final(cursor)),
            ),
        },
{
    let mut all: Vec<u16> = ports;
    let ghost start = *cursor;
    while *cursor < tokens.len()
        invariant
            start == *old(cursor),
            start <= *cursor <= tokens@.len(),
            read_ports(left(tokens, start), ports@) == read_ports(left(tokens, *cursor), all@),
        ensures
            start <= *cursor <= tokens@.len(),
            read_ports(left(tokens, start), ports@) == took(all@, left(tokens, *cursor)),
        decreases tokens@.len() - *cursor,
    {
        proof {
            lemma_left(tokens, *cursor);
        }
        match number(tokens[*cursor].as_str(), 65535) {
            None => {
                break;
            },
            Some(n) => {
                let port: u16 = n as u16;
                if has_port(&all, port) {
                    let mut message: Vec<char> = text::chars_of("port ");
                    numeral::push_decimal(&mut message, n);
                    text::push_text(&mut message, " is configured twice in the same server");
                    return Err(ConfigError(text::text_of(message.as_slice())));
                }
                all.push(port);
                *cursor += 1;
            },
        }
    }
    Ok(all)
}

/// Whether a route can be given the method.
pub fn known_method(name: &str) -> (b: bool)
    ensures
        b == is_method(name@),
{
    text::same_text(name, "GET") || text::same_text(name, "POST") || text::same_text(name, "DELETE")
        || text::same_text(name, "PUT") || text::same_text(name, "HEAD")
}

/// Reads the methods at the cursor.
fn parse_methods(tokens: &Vec<String>, cursor: &mut usize) -> (methods: Vec<String>)
    requires
        *old(cursor) <= tokens@.len(),
    ensures
        *old(cursor) <= *final(cursor) <= tokens@.len(),
        read_methods(left(tokens, *old(cursor))) == (
            text::texts(methods@),
            left(tokens, *final(cursor)),
        ),
{
    let mut methods: Vec<String> = Vec::new();
    let ghost start = *cursor;
    let ghost whole = read_methods(left(tokens, start));
    assert(text::texts(methods@) + whole.0 =~= whole.0);
    while *cursor < tokens.len()
        invariant
            start <= *cursor <= tokens@.len(),
            whole.0 == text::texts(methods@) + read_methods(left(tokens, *cursor)).0,
            whole.1 == read_methods(left(tokens, *cursor)).1,
        ensures
            start <= *cursor <= tokens@.len(),
            whole.0 == text::texts(methods@),
            whole.1 == left(tokens, *cursor),
        decreases tokens@.len() - *cursor,
    {
        proof {
            lemma_left(tokens, *cursor);
        }
        let upper: String = text::to_uppercase(tokens[*cursor].as_str());
        if !known_method(upper.as_str()) {
            assert(text::texts(methods@) + Seq::<Seq<char>>::empty() =~= text::texts(methods@));
            break;
        }
        let ghost before = text::texts(methods@);
        let ghost name = upper@;
        methods.push(upper);
        *cursor += 1;
        proof {
            assert(text::texts(methods@) =~= before.push(name));
            let rest = read_methods(left(tokens, *cursor)).0;
            assert(before + (seq![name] + rest) =~= before.push(name) + rest);
        }
    }
    proof {
        if *cursor == tokens@.len() {
            lemma_left(tokens, *cursor);
            assert(text::texts(methods@) + Seq::<Seq<char>>::empty() =~= text::texts(methods@));
        }
    }
    methods
}

/// Reads a switch, which is on where its value says so.
fn parse_switch(tokens: &Vec<String>, cursor: &mut usize, what: &str) -> (on: Result<
    bool,
    ConfigError,
>)
    requires
        *old(cursor) <= tokens@.len(),
    ensures
        *old(cursor) <= *final(cursor) <= tokens@.len(),
        step_of(on, left(tokens, *final(cursor))) == switched(left(tokens, *old(cursor)), what@),
{
    match next_value(tokens, cursor, what) {
        Ok(value) => Ok(text::same_text(value.as_str(), "on")),
        Err(error) => Err(error),
    }
}

/// Reads one directive of a route.
fn apply_route_directive(
    tokens: &Vec<String>,
    cursor: &mut usize,
    route: RouteConfig,
) -> (read: Result<RouteConfig, ConfigError>)
    requires
        *old(cursor) < tokens@.len(),
    ensures
        *old(cursor) <= *final(cursor) <= tokens@.len(),
        read is Ok ==> *old(cursor) < *final(cursor),
        step_of(read, left(tokens, *final(cursor))) == route_directive(
            left(tokens, *old(cursor)),
            route@,
        ),
{
    let mut route: RouteConfig = route;
    let name: &str = tokens[*cursor].as_str();
    proof {
        lemma_left(tokens, *cursor);
        assert(*cursor < tokens.len());
    }
    *cursor += 1;
    if text::same_text(name, "root") {
        match next_value(tokens, cursor, name) {
            Ok(value) => {
                route.root = Some(value);
            },
            Err(error) => {
                return Err(error);
            },
        }
    } else if text::same_text(name, "index") {
        match next_value(tokens, cursor, name) {
            Ok(value) => {
                route.index = Some(value);
            },
            Err(error) => {
                return Err(error);
            },
        }
    } else if text::same_text(name, "redirect") {
        match next_value(tokens, cursor, name) {
            Ok(value) => {
                route.redirect = Some(value);
            },
            Err(error) => {
                return Err(error);
            },
        }
    } else if text::same_text(name, "methods") {
        let methods: Vec<String> = parse_methods(tokens, cursor);
        if methods.len() == 0 {
            return Err(ConfigError("methods expects at least one method".to_owned()));
        }
        route.methods = methods;
    } else if text::same_text(name, "cgi") {
        let extension: String = match next_value(tokens, cursor, name) {
            Ok(value) => value,
            Err(error) => {
                return Err(error);
            },
        };
        let interpreter: String = match next_value(tokens, cursor, name) {
            Ok(value) => value,
            Err(error) => {
                return Err(error);
            },
        };
        if !text::leads(extension.as_str(), '.') {
            return Err(ConfigError("cgi extension must start with '.'".to_owned()));
        }
        let mut cgi: StrMap = route.cgi;
        cgi.insert(extension, interpreter);
        route.cgi = cgi;
    } else if text::same_text(name, "directory_listing") {
        match parse_switch(tokens, cursor, name) {
            Ok(on) => {
                route.directory_listing = on;
            },
            Err(error) => {
                return Err(error);
            },
        }
    } else if text::same_text(name, "upload") {
        match parse_switch(tokens, cursor, name) {
            Ok(on) => {
                route.upload = on;
            },
            Err(error) => {
                return Err(error);
            },
        }
    } else {
        // The word may be the beginning of the next block.
        *cursor -= 1;
        return Err(ConfigError(text::concat3("unknown route directive '", name, "'")));
    }
    Ok(route)
}

/// Reads a route, of which the word `route` has been read.
fn parse_route(tokens: &Vec<String>, cursor: &mut usize) -> (read: Result<RouteConfig, ConfigError>)
    requires
        *old(cursor) <= tokens@.len(),
    ensures
        *old(cursor) <= *final(cursor) <= tokens@.len(),
        step_of(read, left(tokens, *final(cursor))) == read_route(left(tokens, *old(cursor))),
{
    let prefix: String = match next_value(tokens, cursor, "route") {
        Ok(value) => value,
        Err(error) => {
            return Err(error);
        },
    };
    if !text::leads(prefix.as_str(), '/') {
        return Err(
            ConfigError(text::concat3("route prefix '", prefix.as_str(), "' must start with '/'")),
        );
    }
    match expect(tokens, cursor, "{") {
        Ok(_) => {},
        Err(error) => {
            return Err(error);
        },
    }
    let mut route: RouteConfig = RouteConfig::new(prefix);
    loop
        invariant
            *old(cursor) <= *cursor <= tokens@.len(),
            route_body(left(tokens, *cursor), route@) == read_route(left(tokens, *old(cursor))),
        decreases tokens@.len() - *cursor,
    {
        proof {
            lemma_left(tokens, *cursor);
        }
        if *cursor >= tokens.len() {
            return Err(ConfigError("unexpected end of file in route block".to_owned()));
        }
        if text::same_text(tokens[*cursor].as_str(), "}") {
            *cursor += 1;
            return Ok(route);
        }
        match apply_route_directive(tokens, cursor, route) {
            Ok(next) => {
                route = next;
            },
            Err(error) => {
                return Err(error);
            },
        }
    }
}

/// Reads one directive of a server.
fn apply_server_directive(
    tokens: &Vec<String>,
    cursor: &mut usize,
    server: ServerConfig,
) -> (read: Result<ServerConfig, ConfigError>)
    requires
        *old(cursor) < tokens@.len(),
    ensures
        *old(cursor) <= *final(cursor) <= tokens@.len(),
        read is Ok ==> *old(cursor) < *final(cursor),
        step_of(read, left(tokens, *final(cursor))) == server_directive(
            left(tokens, *old(cursor)),
            server@,
        ),
{
    broadcast use vstd::std_specs::hash::group_hash_axioms;

    let ghost before = server@;
    let mut server: ServerConfig = server;
    let name: &str = tokens[*cursor].as_str();
    proof {
        lemma_left(tokens, *cursor);
        assert(*cursor < tokens.len());
    }
    *cursor += 1;
    if text::same_text(name, "host") {
        match next_value(tokens, cursor, name) {
            Ok(value) => {
                server.host = value;
            },
            Err(error) => {
                return Err(error);
            },
        }
    } else if text::same_text(name, "port") {
        // One or more ports.
        let count: usize = server.ports.len();
        match parse_ports(tokens, cursor, server.ports) {
            Ok(ports) => {
                if ports.len() == count {
                    return Err(ConfigError("port expects at least one number".to_owned()));
                }
                server.ports = ports;
            },
            Err(error) => {
                return Err(error);
            },
        }
    } else if text::same_text(name, "server_name") {
        match next_value(tokens, cursor, name) {
            Ok(value) => {
                server.server_name = Some(value);
            },
            Err(error) => {
                return Err(error);
            },
        }
    } else if text::same_text(name, "error_page") {
        let status: String = match next_value(tokens, cursor, name) {
            Ok(value) => value,
            Err(error) => {
                return Err(error);
            },
        };
        let code: u16 = match number(status.as_str(), 65535) {
            Some(n) => n as u16,
            None => {
                return Err(ConfigError("error_page expects a status code".to_owned()));
            },
        };
        let page: String = match next_value(tokens, cursor, name) {
            Ok(value) => value,
            Err(error) => {
                return Err(error);
            },
        };
        let ghost path = page@;
        let mut pages: HashMap<u16, String> = server.error_pages;
        pages.insert(code, page);
        server.error_pages = pages;
        assert(server@.error_pages =~= before.error_pages.insert(code, path));
    } else if text::same_text(name, "client_max_body_size") {
        match next_value(tokens, cursor, name) {
            Ok(value) => match number(value.as_str(), usize::MAX as u64) {
                Some(size) => {
                    server.max_body_size = size as usize;
                },
                None => {
                    return Err(
                        ConfigError("client_max_body_size expects a number of bytes".to_owned()),
                    );
                },
            },
            Err(error) => {
                return Err(error);
            },
        }
    } else if text::same_text(name, "route") {
        match parse_route(tokens, cursor) {
            Ok(route) => {
                let ghost added = route@;
                server.routes.push(route);
                assert(server@.routes =~= before.routes.push(added));
            },
            Err(error) => {
                return Err(error);
            },
        }
    } else {
        // The word may be the beginning of the next block.
        *cursor -= 1;
        return Err(ConfigError(text::concat3("unknown server directive '", name, "'")));
    }
    Ok(server)
}

/// Reads a server, of which the word `server` has been read.
fn parse_server(tokens: &Vec<String>, cursor: &mut usize) -> (read: Result<
    ServerConfig,
    ConfigError,
>)
    requires
        *old(cursor) <= tokens@.len(),
    ensures
        *old(cursor) <= *final(cursor) <= tokens@.len(),
        step_of(read, left(tokens, *final(cursor))) == read_server(left(tokens, *old(cursor))),
{
    match expect(tokens, cursor, "{") {
        Ok(_) => {},
        Err(error) => {
            return Err(error);
        },
    }
    let mut server: ServerConfig = ServerConfig::new();
    loop
        invariant
            *old(cursor) <= *cursor <= tokens@.len(),
            server_body(left(tokens, *cursor), server@) == read_server(left(tokens, *old(cursor))),
        decreases tokens@.len() - *cursor,
    {
        proof {
            lemma_left(tokens, *cursor);
        }
        if *cursor >= tokens.len() {
            return Err(ConfigError("unexpected end of file in server block".to_owned()));
        }
        if text::same_text(tokens[*cursor].as_str(), "}") {
            *cursor += 1;
            return Ok(server);
        }
        match apply_server_directive(tokens, cursor, server) {
            Ok(next) => {
                server = next;
            },
            Err(error) => {
                return Err(error);
            },
        }
    }
}

/// After a parse error, resynchronize at the next `server` block.
fn skip_block(tokens: &Vec<String>, cursor: &mut usize)
    requires
        *old(cursor) <= tokens@.len(),
    ensures
        *old(cursor) <= *final(cursor) <= tokens@.len(),
        left(tokens, *final(cursor)) == from_server(left(tokens, *old(cursor))),
{
    while *cursor < tokens.len()
        invariant
            *old(cursor) <= *cursor <= tokens@.len(),
            from_server(left(tokens, *cursor)) == from_server(left(tokens, *old(cursor))),
        decreases tokens@.len() - *cursor,
    {
        proof {
            lemma_left(tokens, *cursor);
        }
        if text::same_text(tokens[*cursor].as_str(), "server") {
            return;
        }
        *cursor += 1;
    }
    proof {
        lemma_left(tokens, *cursor);
    }
}

fn validate(server: &ServerConfig) -> (checked: Result<(), ConfigError>)
    ensures
        match checked {
            Ok(_) => lack(server@) is None,
            Err(error) => lack(server@) == Some(error@),
        },
{
    if server.ports.len() == 0 {
        return Err(ConfigError("server has no port".to_owned()));
    }
    if server.routes.len() == 0 {
        return Err(ConfigError("server has no route".to_owned()));
    }
    let ghost all = server@.routes;
    let mut i: usize = 0;
    assert(all.skip(0) =~= all);
    while i < server.routes.len()
        invariant
            i <= server.routes@.len(),
            server@.ports.len() > 0,
            all == server@.routes,
            all.len() > 0,
            first_rootless(all) == first_rootless(all.skip(i as int)),
        decreases server.routes@.len() - i,
    {
        let route: &RouteConfig = &server.routes[i];
        assert(all.skip(i as int).skip(1) =~= all.skip(i + 1));
        assert(all.skip(i as int)[0] == route@);
        if route.redirect.is_none() && route.root.is_none() {
            return Err(
                ConfigError(
                    text::concat3(
                        "route '",
                        route.prefix.as_str(),
                        "' needs either a root or a redirect",
                    ),
                ),
            );
        }
        i += 1;
    }
    Ok(())
}

/// Whether nothing tells the names apart.
fn names_agree(a: &Option<String>, b: &Option<String>) -> (same: bool)
    ensures
        same == same_name(text::shown(*a), text::shown(*b)),
{
    match (a, b) {
        (None, None) => true,
        (Some(x), Some(y)) => text::same_letters_text(x.as_str(), y.as_str()),
        _ => false,
    }
}

/// The first port in a list that is also in the other.
fn find_shared_port(ports: &Vec<u16>, taken: &Vec<u16>) -> (port: Option<u16>)
    ensures
        port == shared_port(ports@, taken@),
{
    let mut i: usize = 0;
    assert(ports@.skip(0) =~= ports@);
    while i < ports.len()
        invariant
            i <= ports@.len(),
            shared_port(ports@, taken@) == shared_port(ports@.skip(i as int), taken@),
        decreases ports@.len() - i,
    {
        assert(ports@.skip(i as int).skip(1) =~= ports@.skip(i + 1));
        if has_port(taken, ports[i]) {
            return Some(ports[i]);
        }
        i += 1;
    }
    None
}

/// Two servers may share a `host:port` only when a `server_name` tells them
/// apart. Repeating an address with the same name (or with no name on both
/// sides) is a configuration error: the second block could never be reached,
/// so it is reported and skipped instead of silently ignored.
fn no_conflict(accepted: &Vec<ServerConfig>, candidate: &ServerConfig) -> (checked: Result<
    (),
    ConfigError,
>)
    requires
        lack(candidate@) is None,
    ensures
        match checked {
            Ok(_) => objection(server_views(accepted@), candidate@) is None,
            Err(error) => objection(server_views(accepted@), candidate@) == Some(error@),
        },
{
    let ghost all = server_views(accepted@);
    let mut i: usize = 0;
    assert(all.skip(0) =~= all);
    while i < accepted.len()
        invariant
            i <= accepted@.len(),
            lack(candidate@) is None,
            all == server_views(accepted@),
            first_clash(all, candidate@) == first_clash(all.skip(i as int), candidate@),
        decreases accepted@.len() - i,
    {
        let existing: &ServerConfig = &accepted[i];
        assert(all.skip(i as int).skip(1) =~= all.skip(i + 1));
        assert(all.skip(i as int)[0] == existing@);
        if text::same_letters_text(existing.host.as_str(), candidate.host.as_str()) && names_agree(
            &existing.server_name,
            &candidate.server_name,
        ) {
            if let Some(port) = find_shared_port(&candidate.ports, &existing.ports) {
                let mut message: Vec<char> = text::chars_of(candidate.host.as_str());
                text::push_text(&mut message, ":");
                numeral::push_decimal(&mut message, port as u64);
                text::push_text(&mut message, " is already taken by server_name '");
                match &candidate.server_name {
                    Some(name) => text::push_text(&mut message, name.as_str()),
                    None => text::push_text(&mut message, "<default>"),
                }
                text::push_text(
                    &mut message,
                    "'; a host:port may only be repeated with a different server_name",
                );
                return Err(ConfigError(text::text_of(message.as_slice())));
            }
        }
        i += 1;
    }
    Ok(())
}

/// Parse a whole file. Invalid server blocks are returned as errors next to
/// the valid servers so the caller can log them and keep going.
pub fn parse(source: &str) -> (result: (Vec<ServerConfig>, Vec<ConfigError>))
    ensures
        (server_views(result.0@), error_views(result.1@)) == read_all(tokens_of(source@), seq![]),
{
    let tokens: Vec<String> = tokenize(source);
    let mut cursor: usize = 0;
    let mut servers: Vec<ServerConfig> = Vec::new();
    let mut errors: Vec<ConfigError> = Vec::new();
    let ghost whole = read_all(tokens_of(source@), seq![]);
    proof {
        assert(left(&tokens, 0) =~= tokens_of(source@));
        assert(server_views(servers@) =~= seq![]);
        assert(error_views(errors@) + whole.1 =~= whole.1);
    }
    while cursor < tokens.len()
        invariant
            cursor <= tokens@.len(),
            whole.0 == read_all(left(&tokens, cursor), server_views(servers@)).0,
            whole.1 == error_views(errors@) + read_all(
                left(&tokens, cursor),
                server_views(servers@),
            ).1,
        decreases tokens@.len() - cursor,
    {
        let ghost before_servers = server_views(servers@);
        let ghost before_errors = error_views(errors@);
        proof {
            lemma_left(&tokens, cursor);
        }
        if !text::same_text(tokens[cursor].as_str(), "server") {
            let error: ConfigError = ConfigError(
                text::concat3("expected 'server', found '", tokens[cursor].as_str(), "'"),
            );
            let ghost why = error@;
            errors.push(error);
            // Skip to the next plausible block start.
            cursor += 1;
            proof {
                lemma_one_error_more(
                    before_errors,
                    why,
                    read_all(left(&tokens, cursor), before_servers).1,
                );
                assert(error_views(errors@) =~= before_errors.push(why));
            }
            continue;
        }
        cursor += 1;
        match parse_server(&tokens, &mut cursor) {
            Ok(server) => {
                let checked: Result<(), ConfigError> = match validate(&server) {
                    Ok(_) => no_conflict(&servers, &server),
                    Err(error) => Err(error),
                };
                match checked {
                    Ok(_) => {
                        let ghost accepted = server@;
                        servers.push(server);
                        assert(server_views(servers@) =~= before_servers.push(accepted));
                    },
                    Err(error) => {
                        let ghost why = error@;
                        errors.push(error);
                        proof {
                            lemma_one_error_more(
                                before_errors,
                                why,
                                read_all(left(&tokens, cursor), before_servers).1,
                            );
                            assert(error_views(errors@) =~= before_errors.push(why));
                        }
                    },
                }
            },
            Err(error) => {
                let ghost why = error@;
                errors.push(error);
                // Resynchronize: skip past the rest of this block.
                skip_block(&tokens, &mut cursor);
                proof {
                    lemma_one_error_more(
                        before_errors,
                        why,
                        read_all(left(&tokens, cursor), before_servers).1,
                    );
                    assert(error_views(errors@) =~= before_errors.push(why));
                }
            },
        }
    }
    proof {
        lemma_left(&tokens, cursor);
        assert(error_views(errors@) + Seq::<Seq<char>>::empty() =~= error_views(errors@));
    }
    (servers, errors)
}

proof fn lemma_one_error_more(before: Seq<Seq<char>>, why: Seq<char>, after: Seq<Seq<char>>)
    ensures
        before + (seq![why] + after) == before.push(why) + after,
{
    assert(before + (seq![why] + after) =~= before.push(why) + after);
}

// ------------------------------------------------------- what holds of every file

impl RouteView {
    /// The route can answer something, and every part of it has the form it needs.
    pub open spec fn sound(self) -> bool {
        &&& self.well_read()
        &&& self.root is Some || self.redirect is Some
    }

    /// Every part of the route has the form it needs.
    pub open spec fn well_read(self) -> bool {
        &&& self.prefix.len() > 0 && self.prefix[0] == '/'
        &&& self.methods.len() > 0
        &&& forall|i: int| 0 <= i < self.methods.len() ==> is_method(#[trigger] self.methods[i])
        &&& forall|ext: Seq<char>| #[trigger]
            self.cgi.dom().contains(ext) ==> ext.len() > 0 && ext[0] == '.'
    }
}

impl ServerView {
    /// The server can be reached and can answer something.
    pub open spec fn sound(self) -> bool {
        &&& self.ports.len() > 0
        &&& self.ports.no_duplicates()
        &&& self.routes.len() > 0
        &&& forall|i: int| 0 <= i < self.routes.len() ==> (#[trigger] self.routes[i]).sound()
    }

    /// Every part of the server has the form it needs.
    pub open spec fn well_read(self) -> bool {
        &&& self.ports.no_duplicates()
        &&& forall|i: int| 0 <= i < self.routes.len() ==> (#[trigger] self.routes[i]).well_read()
    }
}

/// A request to one host and port could be for either server, with nothing to
/// tell them apart.
pub open spec fn indistinct(a: ServerView, b: ServerView, port: u16) -> bool {
    &&& text::same_letters(a.host, b.host)
    &&& same_name(a.server_name, b.server_name)
    &&& a.ports.contains(port)
    &&& b.ports.contains(port)
}

proof fn lemma_read_ports(tokens: Seq<Seq<char>>, ports: Seq<u16>)
    requires
        ports.no_duplicates(),
    ensures
        read_ports(tokens, ports).outcome matches Ok(all) ==> all.no_duplicates(),
    decreases tokens.len(),
{
    if tokens.len() > 0 {
        if let Some(port) = numeral::number_within(tokens[0], 10, 65535) {
            if !ports.contains(port as u16) {
                lemma_read_ports(tokens.skip(1), ports.push(port as u16));
            }
        }
    }
}

proof fn lemma_read_methods(tokens: Seq<Seq<char>>)
    ensures
        forall|i: int|
            0 <= i < read_methods(tokens).0.len() ==> is_method(
                #[trigger] read_methods(tokens).0[i],
            ),
    decreases tokens.len(),
{
    if tokens.len() > 0 && is_method(text::uppercased(tokens[0])) {
        lemma_read_methods(tokens.skip(1));
        let rest = read_methods(tokens.skip(1)).0;
        assert forall|i: int| 0 <= i < read_methods(tokens).0.len() implies is_method(
            #[trigger] read_methods(tokens).0[i],
        ) by {
            if i > 0 {
                assert(read_methods(tokens).0[i] == rest[i - 1]);
            }
        }
    }
}

proof fn lemma_route_directive(tokens: Seq<Seq<char>>, route: RouteView)
    requires
        route.well_read(),
    ensures
        route_directive(tokens, route).outcome matches Ok(next) ==> next.well_read(),
{
    lemma_read_methods(tokens.skip(1));
    if let Ok(next) = route_directive(tokens, route).outcome {
        assert forall|ext: Seq<char>| #[trigger] next.cgi.dom().contains(ext) implies ext.len() > 0
            && ext[0] == '.' by {
            if route.cgi.dom().contains(ext) {
            }
        }
    }
}

proof fn lemma_route_body(tokens: Seq<Seq<char>>, route: RouteView)
    requires
        route.well_read(),
    ensures
        route_body(tokens, route).outcome matches Ok(r) ==> r.well_read(),
    decreases tokens.len(),
{
    if tokens.len() > 0 && tokens[0] != "}"@ {
        let step = route_directive(tokens, route);
        lemma_route_directive_rest(tokens, route);
        lemma_route_directive(tokens, route);
        if let Ok(next) = step.outcome {
            lemma_route_body(step.rest, next);
        }
    }
}

proof fn lemma_server_directive(tokens: Seq<Seq<char>>, server: ServerView)
    requires
        server.well_read(),
    ensures
        server_directive(tokens, server).outcome matches Ok(next) ==> next.well_read(),
{
    lemma_read_ports(tokens.skip(1), server.ports);
    let v = value_for(tokens.skip(1), "route"@);
    if let Ok(prefix) = v.outcome {
        if prefix.len() > 0 && prefix[0] == '/' {
            lemma_route_body(expected(v.rest, "{"@).rest, RouteView::fresh(prefix));
        }
    }
}

proof fn lemma_server_body(tokens: Seq<Seq<char>>, server: ServerView)
    requires
        server.well_read(),
    ensures
        server_body(tokens, server).outcome matches Ok(s) ==> s.well_read(),
    decreases tokens.len(),
{
    if tokens.len() > 0 && tokens[0] != "}"@ {
        let step = server_directive(tokens, server);
        lemma_server_directive_rest(tokens, server);
        lemma_server_directive(tokens, server);
        if let Ok(next) = step.outcome {
            lemma_server_body(step.rest, next);
        }
    }
}

proof fn lemma_first_rootless(routes: Seq<RouteView>)
    requires
        first_rootless(routes) is None,
    ensures
        forall|i: int|
            0 <= i < routes.len() ==> (#[trigger] routes[i]).root is Some || routes[i].redirect is Some,
    decreases routes.len(),
{
    if routes.len() > 0 {
        lemma_first_rootless(routes.skip(1));
        assert forall|i: int| 0 <= i < routes.len() implies (#[trigger] routes[i]).root is Some
            || routes[i].redirect is Some by {
            if i > 0 {
                assert(routes[i] == routes.skip(1)[i - 1]);
            }
        }
    }
}

proof fn lemma_shared_port(ports: Seq<u16>, taken: Seq<u16>)
    ensures
        shared_port(ports, taken) is None ==> forall|p: u16|
            ports.contains(p) ==> !#[trigger] taken.contains(p),
        shared_port(ports, taken) matches Some(p) ==> ports.contains(p) && taken.contains(p),
    decreases ports.len(),
{
    if ports.len() > 0 {
        lemma_shared_port(ports.skip(1), taken);
        assert(ports.contains(ports[0]));
        if shared_port(ports, taken) is None {
            assert forall|p: u16| ports.contains(p) implies !#[trigger] taken.contains(p) by {
                let i = choose|i: int| 0 <= i < ports.len() && ports[i] == p;
                if i > 0 {
                    assert(ports.skip(1)[i - 1] == p);
                }
            }
        } else if !taken.contains(ports[0]) {
            let p = shared_port(ports, taken)->0;
            let i = choose|i: int| 0 <= i < ports.skip(1).len() && ports.skip(1)[i] == p;
            assert(ports[i + 1] == p);
        }
    }
}

/// Two servers clash exactly where nothing tells them apart on some port.
pub proof fn clash_means_indistinct(a: ServerView, b: ServerView)
    ensures
        clash(a, b) is Some <==> exists|port: u16| indistinct(a, b, port),
{
    lemma_shared_port(b.ports, a.ports);
    if let Some(p) = clash(a, b) {
        assert(indistinct(a, b, p));
    }
}

proof fn lemma_first_clash(accepted: Seq<ServerView>, candidate: ServerView)
    requires
        first_clash(accepted, candidate) is None,
    ensures
        forall|i: int| 0 <= i < accepted.len() ==> clash(#[trigger] accepted[i], candidate) is None,
    decreases accepted.len(),
{
    if accepted.len() > 0 {
        lemma_first_clash(accepted.skip(1), candidate);
        assert forall|i: int| 0 <= i < accepted.len() implies clash(
            #[trigger] accepted[i],
            candidate,
        ) is None by {
            if i > 0 {
                assert(accepted[i] == accepted.skip(1)[i - 1]);
            }
        }
    }
}

/// The servers are sound, and any two of them can be told apart.
pub open spec fn sound_together(servers: Seq<ServerView>) -> bool {
    &&& forall|i: int| 0 <= i < servers.len() ==> (#[trigger] servers[i]).sound()
    &&& forall|i: int, j: int, port: u16|
        0 <= i < j < servers.len() ==> !#[trigger] indistinct(servers[i], servers[j], port)
}

proof fn lemma_accepted(accepted: Seq<ServerView>, server: ServerView)
    requires
        sound_together(accepted),
        server.well_read(),
        objection(accepted, server) is None,
    ensures
        sound_together(accepted.push(server)),
{
    let all = accepted.push(server);
    lemma_first_rootless(server.routes);
    lemma_first_clash(accepted, server);
    assert(server.sound());
    assert forall|i: int| 0 <= i < all.len() implies (#[trigger] all[i]).sound() by {
        if i < accepted.len() {
            assert(all[i] == accepted[i]);
        }
    }
    assert forall|i: int, j: int, port: u16|
        0 <= i < j < all.len() implies !#[trigger] indistinct(all[i], all[j], port) by {
        assert(all[i] == accepted[i]);
        if j < accepted.len() {
            assert(!indistinct(accepted[i], accepted[j], port));
        } else {
            assert(clash(accepted[i], server) is None);
            clash_means_indistinct(accepted[i], server);
        }
    }
}

proof fn lemma_read_all_sound(tokens: Seq<Seq<char>>, accepted: Seq<ServerView>)
    requires
        sound_together(accepted),
    ensures
        sound_together(read_all(tokens, accepted).0),
        accepted.is_prefix_of(read_all(tokens, accepted).0),
    decreases tokens.len(),
{
    if tokens.len() == 0 {
    } else if tokens[0] != "server"@ {
        lemma_read_all_sound(tokens.skip(1), accepted);
    } else {
        let step = read_server(tokens.skip(1));
        lemma_read_server_rest(tokens.skip(1));
        lemma_from_server_rest(step.rest);
        lemma_server_body(expected(tokens.skip(1), "{"@).rest, ServerView::fresh());
        match step.outcome {
            Ok(server) => {
                if objection(accepted, server) is None {
                    lemma_accepted(accepted, server);
                    lemma_read_all_sound(step.rest, accepted.push(server));
                    let all = read_all(step.rest, accepted.push(server)).0;
                    assert(accepted =~= all.subrange(0, accepted.len() as int)) by {
                        let more = accepted.push(server);
                        assert(more =~= all.subrange(0, more.len() as int));
                        assert forall|i: int| 0 <= i < accepted.len() implies accepted[i] == all[i] by {
                            assert(more[i] == all.subrange(0, more.len() as int)[i]);
                        }
                    }
                } else {
                    lemma_read_all_sound(step.rest, accepted);
                }
            },
            Err(_) => {
                lemma_read_all_sound(from_server(step.rest), accepted);
            },
        }
    }
}

/// Whatever a file says, the servers that come out of it are sound: each has a
/// port and lists none twice, each has a route, every route can answer something,
/// and any two servers can be told apart wherever they share a host and port.
pub proof fn accepted_servers_are_sound(source: Seq<char>)
    ensures
        sound_together(read_all(tokens_of(source), seq![]).0),
{
    lemma_read_all_sound(tokens_of(source), seq![]);
}

/// What is skipped after an error goes up to the next `server`, and no further.
pub proof fn recovery_stops_at_the_next_server(tokens: Seq<Seq<char>>)
    ensures
        ({
            let n = tokens.len() - from_server(tokens).len();
            &&& 0 <= n
            &&& from_server(tokens) == tokens.skip(n)
            &&& forall|i: int| 0 <= i < n ==> #[trigger] tokens[i] != "server"@
            &&& from_server(tokens).len() > 0 ==> from_server(tokens)[0] == "server"@
        }),
    decreases tokens.len(),
{
    if tokens.len() > 0 && tokens[0] != "server"@ {
        let t = tokens.skip(1);
        recovery_stops_at_the_next_server(t);
        let n = tokens.len() - from_server(tokens).len();
        assert(t.skip(n - 1) =~= tokens.skip(n));
        assert forall|i: int| 0 <= i < n implies #[trigger] tokens[i] != "server"@ by {
            if i > 0 {
                assert(tokens[i] == t[i - 1]);
            }
        }
    } else {
        assert(tokens.skip(0) =~= tokens);
    }
}

/// The tokens from the next `server` block on.
pub open spec fn next_block(tokens: Seq<Seq<char>>) -> Seq<Seq<char>>
    decreases tokens.len(),
{
    if tokens.len() > 0 && !block_begins(tokens, 0) {
        next_block(tokens.skip(1))
    } else {
        tokens
    }
}

/// From one place in the tokens to a later one, with no block beginning on the way.
spec fn leads_to(tokens: Seq<Seq<char>>, rest: Seq<Seq<char>>) -> bool {
    let n = tokens.len() - rest.len();
    &&& 0 <= n
    &&& rest == tokens.skip(n)
    &&& forall|i: int| 0 <= i < n ==> !#[trigger] block_begins(tokens, i)
}

proof fn lemma_stay(tokens: Seq<Seq<char>>)
    ensures
        leads_to(tokens, tokens),
{
    assert(tokens.skip(0) =~= tokens);
}

proof fn lemma_one_on(tokens: Seq<Seq<char>>)
    requires
        tokens.len() > 0,
        !block_begins(tokens, 0),
    ensures
        leads_to(tokens, tokens.skip(1)),
{
}

proof fn lemma_on_and_on(a: Seq<Seq<char>>, b: Seq<Seq<char>>, c: Seq<Seq<char>>)
    requires
        leads_to(a, b),
        leads_to(b, c),
    ensures
        leads_to(a, c),
{
    let n = a.len() - b.len();
    let m = a.len() - c.len();
    assert(a.skip(m) =~= b.skip(m - n));
    assert forall|i: int| 0 <= i < m implies !#[trigger] block_begins(a, i) by {
        if i >= n {
            assert(!block_begins(b, i - n));
            assert(b[i - n] == a[i]);
            if i + 1 < a.len() {
                assert(b[i - n + 1] == a[i + 1]);
            }
        }
    }
}

proof fn lemma_next_block(tokens: Seq<Seq<char>>, rest: Seq<Seq<char>>)
    requires
        leads_to(tokens, rest),
    ensures
        next_block(tokens) == next_block(rest),
    decreases tokens.len() - rest.len(),
{
    let n = tokens.len() - rest.len();
    if n > 0 {
        let more = tokens.skip(1);
        assert(!block_begins(tokens, 0));
        assert(more.skip(n - 1) =~= tokens.skip(n));
        assert forall|i: int| 0 <= i < n - 1 implies !#[trigger] block_begins(more, i) by {
            assert(!block_begins(tokens, i + 1));
        }
        lemma_next_block(more, rest);
    } else {
        assert(tokens.skip(0) =~= tokens);
    }
}

/// The word `server` is not the name of a directive, and no brace.
proof fn lemma_server_is_no_directive()
    ensures
        "server"@ != "root"@,
        "server"@ != "index"@,
        "server"@ != "redirect"@,
        "server"@ != "methods"@,
        "server"@ != "cgi"@,
        "server"@ != "directory_listing"@,
        "server"@ != "upload"@,
        "server"@ != "host"@,
        "server"@ != "port"@,
        "server"@ != "server_name"@,
        "server"@ != "error_page"@,
        "server"@ != "client_max_body_size"@,
        "server"@ != "route"@,
        "server"@ != "{"@,
        "server"@ != "}"@,
{
    reveal_strlit("server");
    reveal_strlit("root");
    reveal_strlit("index");
    reveal_strlit("redirect");
    reveal_strlit("methods");
    reveal_strlit("cgi");
    reveal_strlit("directory_listing");
    reveal_strlit("upload");
    reveal_strlit("host");
    reveal_strlit("port");
    reveal_strlit("server_name");
    reveal_strlit("error_page");
    reveal_strlit("client_max_body_size");
    reveal_strlit("route");
    reveal_strlit("{");
    reveal_strlit("}");
    assert("server"@.len() == 6);
    assert("root"@.len() == 4);
    assert("index"@.len() == 5);
    assert("redirect"@.len() == 8);
    assert("methods"@.len() == 7);
    assert("cgi"@.len() == 3);
    assert("directory_listing"@.len() == 17);
    assert("upload"@[0] != "server"@[0]);
    assert("host"@.len() == 4);
    assert("port"@.len() == 4);
    assert("server_name"@.len() == 11);
    assert("error_page"@.len() == 10);
    assert("client_max_body_size"@.len() == 20);
    assert("route"@.len() == 5);
    assert("{"@.len() == 1);
    assert("}"@.len() == 1);
}

proof fn lemma_value_leads_on(tokens: Seq<Seq<char>>, what: Seq<char>)
    ensures
        leads_to(tokens, value_for(tokens, what).rest),
{
    lemma_stay(tokens);
}

proof fn lemma_expected_leads_on(tokens: Seq<Seq<char>>)
    ensures
        leads_to(tokens, expected(tokens, "{"@).rest),
{
    lemma_stay(tokens);
    lemma_server_is_no_directive();
}

proof fn lemma_methods_lead_on(tokens: Seq<Seq<char>>)
    ensures
        leads_to(tokens, read_methods(tokens).1),
    decreases tokens.len(),
{
    lemma_stay(tokens);
    if tokens.len() > 0 && is_method(text::uppercased(tokens[0])) {
        lemma_methods_lead_on(tokens.skip(1));
        if tokens[0] == "server"@ {
            reveal_strlit("server");
            reveal_strlit("GET");
            reveal_strlit("POST");
            reveal_strlit("DELETE");
            reveal_strlit("PUT");
            reveal_strlit("HEAD");
            assert(vstd::utf8::is_ascii_chars(tokens[0]));
            let upper = text::raised(tokens[0]);
            assert(upper.len() == 6);
            assert(upper[0] == text::upper_char('s'));
            assert("DELETE"@[0] == 'D');
        }
        lemma_one_on(tokens);
        lemma_on_and_on(tokens, tokens.skip(1), read_methods(tokens).1);
    }
}

proof fn lemma_ports_lead_on(tokens: Seq<Seq<char>>, ports: Seq<u16>)
    ensures
        leads_to(tokens, read_ports(tokens, ports).rest),
    decreases tokens.len(),
{
    lemma_stay(tokens);
    if tokens.len() > 0 {
        if let Some(port) = numeral::number_within(tokens[0], 10, 65535) {
            if !ports.contains(port as u16) {
                let next = ports.push(port as u16);
                lemma_ports_lead_on(tokens.skip(1), next);
                if tokens[0] == "server"@ {
                    reveal_strlit("server");
                    assert(numeral::digit_value(tokens[0].last(), 10) is None);
                }
                lemma_one_on(tokens);
                lemma_on_and_on(tokens, tokens.skip(1), read_ports(tokens, ports).rest);
            }
        }
    }
}

proof fn lemma_route_directive_leads_on(tokens: Seq<Seq<char>>, route: RouteView)
    requires
        tokens.len() > 0,
    ensures
        leads_to(tokens, route_directive(tokens, route).rest),
{
    let name = tokens[0];
    let args = tokens.skip(1);
    let rest = route_directive(tokens, route).rest;
    if rest == tokens {
        lemma_stay(tokens);
    } else {
        lemma_server_is_no_directive();
        lemma_one_on(tokens);
        lemma_value_leads_on(args, name);
        if name == "root"@ || name == "index"@ || name == "redirect"@ {
        } else if name == "methods"@ {
            lemma_methods_lead_on(args);
        } else if name == "cgi"@ {
            let extension = value_for(args, name);
            if extension.outcome is Ok {
                lemma_value_leads_on(extension.rest, name);
                lemma_on_and_on(args, extension.rest, rest);
            }
        }
        lemma_on_and_on(tokens, args, rest);
    }
}

proof fn lemma_route_leads_on(tokens: Seq<Seq<char>>, route: RouteView)
    ensures
        leads_to(tokens, route_body(tokens, route).rest),
    decreases tokens.len(),
{
    lemma_stay(tokens);
    if tokens.len() > 0 {
        lemma_server_is_no_directive();
        if tokens[0] == "}"@ {
            lemma_one_on(tokens);
        } else {
            let step = route_directive(tokens, route);
            lemma_route_directive_rest(tokens, route);
            lemma_route_directive_leads_on(tokens, route);
            if let Ok(next) = step.outcome {
                lemma_route_leads_on(step.rest, next);
                lemma_on_and_on(tokens, step.rest, route_body(tokens, route).rest);
            }
        }
    }
}

proof fn lemma_read_route_leads_on(tokens: Seq<Seq<char>>)
    ensures
        leads_to(tokens, read_route(tokens).rest),
{
    let rest = read_route(tokens).rest;
    let v = value_for(tokens, "route"@);
    lemma_value_leads_on(tokens, "route"@);
    if let Ok(prefix) = v.outcome {
        if prefix.len() > 0 && prefix[0] == '/' {
            let brace = expected(v.rest, "{"@);
            lemma_expected_leads_on(v.rest);
            if brace.outcome is Ok {
                lemma_route_leads_on(brace.rest, RouteView::fresh(prefix));
                lemma_on_and_on(v.rest, brace.rest, rest);
            }
            lemma_on_and_on(tokens, v.rest, rest);
        }
    }
}

proof fn lemma_server_directive_leads_on(tokens: Seq<Seq<char>>, server: ServerView)
    requires
        tokens.len() > 0,
    ensures
        leads_to(tokens, server_directive(tokens, server).rest),
{
    let name = tokens[0];
    let args = tokens.skip(1);
    let rest = server_directive(tokens, server).rest;
    if rest == tokens {
        lemma_stay(tokens);
    } else {
        lemma_server_is_no_directive();
        lemma_one_on(tokens);
        lemma_value_leads_on(args, name);
        lemma_read_route_leads_on(args);
        if name == "host"@ {
        } else if name == "port"@ {
            lemma_ports_lead_on(args, server.ports);
        } else if name == "server_name"@ {
        } else if name == "error_page"@ {
            let status = value_for(args, name);
            if status.outcome is Ok {
                lemma_value_leads_on(status.rest, name);
                lemma_stay(status.rest);
                lemma_on_and_on(args, status.rest, rest);
            }
        }
        lemma_on_and_on(tokens, args, rest);
    }
}

proof fn lemma_server_leads_on(tokens: Seq<Seq<char>>, server: ServerView)
    ensures
        leads_to(tokens, server_body(tokens, server).rest),
    decreases tokens.len(),
{
    lemma_stay(tokens);
    if tokens.len() > 0 {
        lemma_server_is_no_directive();
        if tokens[0] == "}"@ {
            lemma_one_on(tokens);
        } else {
            let step = server_directive(tokens, server);
            lemma_server_directive_rest(tokens, server);
            lemma_server_directive_leads_on(tokens, server);
            if let Ok(next) = step.outcome {
                lemma_server_leads_on(step.rest, next);
                lemma_on_and_on(tokens, step.rest, server_body(tokens, server).rest);
            }
        }
    }
}

proof fn lemma_read_server_leads_on(tokens: Seq<Seq<char>>)
    ensures
        leads_to(tokens, read_server(tokens).rest),
{
    let brace = expected(tokens, "{"@);
    lemma_expected_leads_on(tokens);
    if brace.outcome is Ok {
        lemma_server_leads_on(brace.rest, ServerView::fresh());
        lemma_on_and_on(tokens, brace.rest, read_server(tokens).rest);
    }
}

proof fn lemma_from_server_leads_on(tokens: Seq<Seq<char>>)
    ensures
        leads_to(tokens, from_server(tokens)),
    decreases tokens.len(),
{
    lemma_stay(tokens);
    if tokens.len() > 0 && tokens[0] != "server"@ {
        lemma_from_server_leads_on(tokens.skip(1));
        lemma_one_on(tokens);
        lemma_on_and_on(tokens, tokens.skip(1), from_server(tokens));
    }
}

/// What stands before the next block adds no server.
proof fn lemma_servers_from_next_block(tokens: Seq<Seq<char>>, accepted: Seq<ServerView>)
    ensures
        read_all(tokens, accepted).0 == read_all(next_block(tokens), accepted).0,
    decreases tokens.len(),
{
    if tokens.len() > 0 && !block_begins(tokens, 0) {
        let more = tokens.skip(1);
        if tokens[0] != "server"@ {
            lemma_servers_from_next_block(more, accepted);
        } else {
            let rest = from_server(more);
            assert(read_server(more).outcome is Err && read_server(more).rest == more);
            lemma_from_server_rest(more);
            lemma_from_server_leads_on(more);
            lemma_next_block(more, rest);
            lemma_servers_from_next_block(rest, accepted);
        }
    }
}

/// A broken `server` block costs one error and no other server, whatever is wrong
/// with it, a missing brace at its end included: the servers that are read are those
/// of the file from the next `server` block on. Likewise a block that is accepted
/// takes nothing of the next one.
pub proof fn broken_block_leaves_the_other_servers_alone(
    tokens: Seq<Seq<char>>,
    accepted: Seq<ServerView>,
)
    requires
        tokens.len() > 0,
        tokens[0] == "server"@,
    ensures
        ({
            let others = next_block(tokens.skip(1));
            let all = read_all(tokens, accepted);
            match read_server(tokens.skip(1)).outcome {
                Err(why) => {
                    let rest = from_server(read_server(tokens.skip(1)).rest);
                    &&& all.0 == read_all(others, accepted).0
                    &&& all.1 == seq![why] + read_all(rest, accepted).1
                },
                Ok(server) => match objection(accepted, server) {
                    Some(why) => {
                        let rest = read_server(tokens.skip(1)).rest;
                        &&& all.0 == read_all(others, accepted).0
                        &&& all.1 == seq![why] + read_all(rest, accepted).1
                    },
                    None => all.0 == read_all(others, accepted.push(server)).0,
                },
            }
        }),
{
    let more = tokens.skip(1);
    let step = read_server(more);
    lemma_read_server_rest(more);
    lemma_read_server_leads_on(more);
    lemma_next_block(more, step.rest);
    match step.outcome {
        Err(why) => {
            let rest = from_server(step.rest);
            lemma_from_server_rest(step.rest);
            lemma_from_server_leads_on(step.rest);
            lemma_next_block(step.rest, rest);
            lemma_servers_from_next_block(rest, accepted);
        },
        Ok(server) => {
            lemma_servers_from_next_block(step.rest, accepted);
            lemma_servers_from_next_block(step.rest, accepted.push(server));
        },
    }
}

} // verus!
