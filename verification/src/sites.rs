//! What a configuration means: which route a path belongs to, which servers are
//! accepted, and what holds where nothing is said.

use vstd::prelude::*;

use crate::clients;
use crate::config;
use crate::config::{RouteView, ServerView};
use crate::text;

verus! {

// -------------------------------------------------------------------------- routes

/// A route is for its prefix and for everything below it, and for nothing else: a
/// path that goes on without a slash is not below the prefix. The route of the root
/// is for every path.
pub proof fn route_is_for_what_is_below_its_prefix(route: RouteView, rest: Seq<char>, path: Seq<char>)
    ensures
        route.covers(route.prefix),
        route.covers(route.prefix.push('/') + rest),
        route.prefix == seq!['/'] && path.len() > 0 && path[0] == '/' ==> route.covers(path),
        route.covers(path) && route.prefix != seq!['/'] ==> {
            ||| path == route.prefix
            ||| path.len() > route.prefix.len() && path.take(route.prefix.len() as int)
                == route.prefix && path[route.prefix.len() as int] == '/'
        },
        route.covers(path) && route.prefix == seq!['/'] ==> path.len() > 0 && path[0] == '/',
{
    reveal_strlit("/");
    assert("/"@ =~= seq!['/']);
    let prefix = route.prefix;
    let below = prefix.push('/') + rest;
    assert(below.subrange(0, prefix.len() as int) =~= prefix);
    assert(below[prefix.len() as int] == '/');
    if path.len() >= prefix.len() {
        assert(path.subrange(0, prefix.len() as int) =~= path.take(prefix.len() as int));
    }
    if prefix == seq!['/'] && text::begins(path, prefix) {
        assert(path.subrange(0, 1)[0] == path[0]);
    }
}

/// The best of the first routes, so far as one of them is for the path.
proof fn lemma_best_route(server: ServerView, path: Seq<char>, n: int) -> (best: int)
    requires
        0 <= n <= server.routes.len(),
        exists|j: int| 0 <= j < n && (#[trigger] server.routes[j]).covers(path),
    ensures
        0 <= best < n,
        server.routes[best].covers(path),
        forall|j: int|
            0 <= j < n && (#[trigger] server.routes[j]).covers(path) ==> {
                ||| server.routes[j].prefix.len() < server.routes[best].prefix.len()
                ||| server.routes[j].prefix.len() == server.routes[best].prefix.len() && j <= best
            },
    decreases n,
{
    let last = n - 1;
    if exists|j: int| 0 <= j < last && (#[trigger] server.routes[j]).covers(path) {
        let front = lemma_best_route(server, path, last);
        if server.routes[last].covers(path) && server.routes[last].prefix.len()
            >= server.routes[front].prefix.len() {
            last
        } else {
            front
        }
    } else {
        let j = choose|j: int| 0 <= j < n && (#[trigger] server.routes[j]).covers(path);
        assert(j == last);
        last
    }
}

/// A path belongs to the route with the longest prefix that it lies below; it
/// belongs to none only where it lies below none.
pub proof fn longest_prefix_wins(server: ServerView, path: Seq<char>, j: int)
    requires
        0 <= j < server.routes.len(),
        server.routes[j].covers(path),
    ensures
        server.route(path) matches Some(route) && route.covers(path) && server.routes.contains(route)
            && server.routes[j].prefix.len() <= route.prefix.len(),
{
    let best = lemma_best_route(server, path, server.routes.len() as int);
    assert(server.routes_to(path, best));
    let i = server.route_index(path)->0;
    assert(server.routes_to(path, i));
    assert(server.routes[i].covers(path));
}

/// A path that lies below no prefix has no route.
pub proof fn path_below_no_prefix_has_no_route(server: ServerView, path: Seq<char>)
    requires
        forall|j: int| 0 <= j < server.routes.len() ==> !(#[trigger] server.routes[j]).covers(path),
    ensures
        server.route(path) is None,
{
}

/// A route allows the methods that it lists, and `HEAD` with `GET`; no other.
pub proof fn route_allows_what_it_lists(route: RouteView, method: Seq<char>)
    ensures
        route.allows(method) <==> (exists|i: int|
            0 <= i < route.methods.len() && (#[trigger] route.methods[i] == method || method
                == "HEAD"@ && route.methods[i] == "GET"@)),
{
    if route.allows(method) {
        if route.methods.contains(method) {
            let i = choose|i: int| 0 <= i < route.methods.len() && route.methods[i] == method;
            assert(route.methods[i] == method);
        } else {
            let i = choose|i: int| 0 <= i < route.methods.len() && route.methods[i] == "GET"@;
            assert(route.methods[i] == "GET"@);
        }
    }
}

// ---------------------------------------------------------------------- acceptance

/// The names cannot be told apart: there is none on either side, or they differ in
/// the case of their letters at most.
pub open spec fn names_alike(a: Option<Seq<char>>, b: Option<Seq<char>>) -> bool {
    ||| a is None && b is None
    ||| a is Some && b is Some && clients::same_but_for_case(a->0, b->0)
}

/// The servers have a port of the same host in common.
pub open spec fn share_a_port(a: ServerView, b: ServerView) -> bool {
    &&& clients::same_but_for_case(a.host, b.host)
    &&& exists|i: int, j: int|
        0 <= i < a.ports.len() && 0 <= j < b.ports.len() && #[trigger] a.ports[i]
            == #[trigger] b.ports[j]
}

proof fn lemma_clash(a: ServerView, b: ServerView)
    ensures
        config::clash(a, b) is Some <==> share_a_port(a, b) && names_alike(
            a.server_name,
            b.server_name,
        ),
{
    config::clash_means_indistinct(a, b);
    clients::lemma_same_but_for_case(a.host, b.host);
    if let (Some(x), Some(y)) = (a.server_name, b.server_name) {
        clients::lemma_same_but_for_case(x, y);
    }
    if config::clash(a, b) is Some {
        let p = choose|p: u16| config::indistinct(a, b, p);
        let i = choose|i: int| 0 <= i < a.ports.len() && a.ports[i] == p;
        let j = choose|j: int| 0 <= j < b.ports.len() && b.ports[j] == p;
        assert(a.ports[i] == b.ports[j]);
    }
    if share_a_port(a, b) && names_alike(a.server_name, b.server_name) {
        let (i, j) = choose|i: int, j: int|
            0 <= i < a.ports.len() && 0 <= j < b.ports.len() && #[trigger] a.ports[i]
                == #[trigger] b.ports[j];
        assert(config::indistinct(a, b, a.ports[i]));
    }
}

proof fn lemma_first_clash(accepted: Seq<ServerView>, candidate: ServerView)
    ensures
        config::first_clash(accepted, candidate) is None <==> (forall|i: int|
            0 <= i < accepted.len() ==> config::clash(#[trigger] accepted[i], candidate) is None),
    decreases accepted.len(),
{
    if accepted.len() > 0 {
        let more = accepted.skip(1);
        lemma_first_clash(more, candidate);
        if config::first_clash(accepted, candidate) is None {
            assert forall|i: int| 0 <= i < accepted.len() implies config::clash(
                #[trigger] accepted[i],
                candidate,
            ) is None by {
                if i > 0 {
                    assert(more[i - 1] == accepted[i]);
                }
            }
        }
        if forall|i: int|
            0 <= i < accepted.len() ==> config::clash(#[trigger] accepted[i], candidate) is None {
            assert(config::clash(accepted[0], candidate) is None);
            assert forall|i: int| 0 <= i < more.len() implies config::clash(
                #[trigger] more[i],
                candidate,
            ) is None by {
                assert(more[i] == accepted[i + 1]);
            }
        }
    }
}

proof fn lemma_first_rootless(routes: Seq<RouteView>)
    ensures
        config::first_rootless(routes) is None <==> (forall|i: int|
            0 <= i < routes.len() ==> (#[trigger] routes[i]).root is Some || routes[i].redirect
                is Some),
    decreases routes.len(),
{
    if routes.len() > 0 {
        let more = routes.skip(1);
        lemma_first_rootless(more);
        if config::first_rootless(routes) is None {
            assert forall|i: int| 0 <= i < routes.len() implies (#[trigger] routes[i]).root is Some
                || routes[i].redirect is Some by {
                if i > 0 {
                    assert(more[i - 1] == routes[i]);
                }
            }
        }
        if forall|i: int|
            0 <= i < routes.len() ==> (#[trigger] routes[i]).root is Some || routes[i].redirect
                is Some {
            assert(routes[0].root is Some || routes[0].redirect is Some);
            assert forall|i: int| 0 <= i < more.len() implies (#[trigger] more[i]).root is Some
                || more[i].redirect is Some by {
                assert(more[i] == routes[i + 1]);
            }
        }
    }
}

/// A server is accepted exactly where it can be reached and answer something, and can
/// be told from those before it: it has a port and a route, every route has a root
/// or a redirect, and no accepted server shares a port with it under the same name.
pub proof fn server_is_accepted_exactly_if_sound(accepted: Seq<ServerView>, server: ServerView)
    ensures
        config::objection(accepted, server) is None <==> {
            &&& server.ports.len() > 0
            &&& server.routes.len() > 0
            &&& forall|i: int|
                0 <= i < server.routes.len() ==> (#[trigger] server.routes[i]).root is Some
                    || server.routes[i].redirect is Some
            &&& forall|i: int|
                0 <= i < accepted.len() ==> !(share_a_port(#[trigger] accepted[i], server)
                    && names_alike(accepted[i].server_name, server.server_name))
        },
{
    lemma_first_rootless(server.routes);
    lemma_first_clash(accepted, server);
    assert forall|i: int| 0 <= i < accepted.len() implies (config::clash(
        #[trigger] accepted[i],
        server,
    ) is Some) == (share_a_port(accepted[i], server) && names_alike(
        accepted[i].server_name,
        server.server_name,
    )) by {
        lemma_clash(accepted[i], server);
    }
}

/// Where a configuration says nothing, the host is the local one, a body may have
/// one mebibyte, a route allows `GET`, `POST` and `DELETE`, and everything else is
/// off.
pub proof fn what_is_not_said_has_a_default(prefix: Seq<char>)
    ensures
        ({
            let s = ServerView::fresh();
            let r = RouteView::fresh(prefix);
            &&& s.host == "127.0.0.1"@
            &&& s.max_body_size == 1024 * 1024
            &&& s.server_name is None && s.ports.len() == 0 && s.routes.len() == 0
            &&& forall|status: u16| !#[trigger] s.error_pages.dom().contains(status)
            &&& r.prefix == prefix
            &&& r.methods == seq!["GET"@, "POST"@, "DELETE"@]
            &&& r.root is None && r.index is None && r.redirect is None
            &&& !r.directory_listing && !r.upload
            &&& forall|extension: Seq<char>| !#[trigger] r.cgi.dom().contains(extension)
        }),
{
}

// -------------------------------------------------------------------------- words

/// Braces that are glued to a word are read as if they stood apart.
pub proof fn glued_braces_are_read_apart(word: Seq<char>)
    requires
        word.len() > 0,
        word[0] != '{' && word[0] != '}',
        word.last() != '{' && word.last() != '}',
    ensures
        config::word_tokens(word) == seq![word],
        config::word_tokens(word.push('{')) == seq![word, seq!['{']],
        config::word_tokens(word.push('}')) == seq![word, seq!['}']],
        config::word_tokens(seq!['{'] + word) == seq![seq!['{'], word],
        config::word_tokens(seq!['}'] + word) == seq![seq!['}'], word],
        config::word_tokens(seq!['{']) == seq![seq!['{']],
        config::word_tokens(seq!['}']) == seq![seq!['}']],
{
    lemma_glued(seq![], word, seq![]);
    lemma_glued(seq![], word, seq!['{']);
    lemma_glued(seq![], word, seq!['}']);
    lemma_glued(seq!['{'], word, seq![]);
    lemma_glued(seq!['}'], word, seq![]);
    assert(Seq::<char>::empty() + word + Seq::<char>::empty() =~= word);
    assert(Seq::<char>::empty() + word + seq!['{'] =~= word.push('{'));
    assert(Seq::<char>::empty() + word + seq!['}'] =~= word.push('}'));
    assert(seq!['{'] + word + Seq::<char>::empty() =~= seq!['{'] + word);
    assert(seq!['}'] + word + Seq::<char>::empty() =~= seq!['}'] + word);
    assert(config::word_tokens(word) =~= seq![word]);
    assert(config::word_tokens(word.push('{')) =~= seq![word, seq!['{']]);
    assert(config::word_tokens(word.push('}')) =~= seq![word, seq!['}']]);
    assert(config::word_tokens(seq!['{'] + word) =~= seq![seq!['{'], word]);
    assert(config::word_tokens(seq!['}'] + word) =~= seq![seq!['}'], word]);
    lemma_lone_brace('{');
    lemma_lone_brace('}');
}

proof fn lemma_lone_brace(c: char)
    requires
        c == '{' || c == '}',
    ensures
        config::word_tokens(seq![c]) == seq![seq![c]],
{
    let word = seq![c];
    reveal_with_fuel(text::drop_leading, 2);
    assert(word.drop_first() =~= seq![]);
    let tail = text::drop_leading(word, config::brace());
    assert(tail =~= seq![]);
    assert(text::drop_trailing(tail, config::brace()) =~= seq![]);
    assert(word.take(1) =~= word);
    assert(config::single_tokens(word)[0] =~= word);
    assert(config::word_tokens(word) =~= seq![word]);
}

proof fn lemma_glued(front: Seq<char>, word: Seq<char>, back: Seq<char>)
    requires
        word.len() > 0,
        word[0] != '{' && word[0] != '}',
        word.last() != '{' && word.last() != '}',
        front.len() <= 1,
        back.len() <= 1,
        forall|i: int| 0 <= i < front.len() ==> #[trigger] front[i] == '{' || front[i] == '}',
        forall|i: int| 0 <= i < back.len() ==> #[trigger] back[i] == '{' || back[i] == '}',
    ensures
        config::word_tokens(front + word + back) == config::single_tokens(front) + seq![word]
            + config::single_tokens(back),
{
    let class = config::brace();
    let whole = front + word + back;
    let tail = word + back;
    reveal_with_fuel(text::drop_leading, 3);
    reveal_with_fuel(text::drop_trailing, 3);
    if front.len() == 0 {
        assert(whole =~= tail);
    } else {
        assert(class.has(front[0]));
        assert(whole.drop_first() =~= tail);
    }
    assert(text::drop_leading(whole, class) == tail);
    if back.len() == 0 {
        assert(tail =~= word);
    } else {
        assert(class.has(back[0]));
        assert(tail.drop_last() =~= word);
    }
    assert(text::drop_trailing(tail, class) == word);
    assert(whole.take(whole.len() - tail.len()) =~= front);
    assert(tail.skip(word.len() as int) =~= back);
}

/// The methods of a route are read in any case, and held in capitals.
pub proof fn methods_are_read_in_any_case(words: Seq<Seq<char>>, methods: Seq<Seq<char>>, rest: Seq<Seq<char>>)
    requires
        words.len() == methods.len(),
        forall|i: int|
            0 <= i < words.len() ==> {
                let m = #[trigger] methods[i];
                &&& m == "GET"@ || m == "POST"@ || m == "DELETE"@ || m == "PUT"@ || m == "HEAD"@
                &&& clients::same_but_for_case(words[i], m)
            },
        rest.len() > 0,
        rest[0] == seq!['}'],
    ensures
        config::read_methods(words + rest) == (methods, rest),
    decreases words.len(),
{
    if words.len() == 0 {
        assert(words + rest =~= rest);
        assert(methods =~= seq![]);
        assert(vstd::utf8::is_ascii_chars(rest[0]));
        assert(text::raised(rest[0]).len() == 1);
        reveal_strlit("GET");
        reveal_strlit("POST");
        reveal_strlit("DELETE");
        reveal_strlit("PUT");
        reveal_strlit("HEAD");
        assert("GET"@.len() == 3 && "POST"@.len() == 4 && "DELETE"@.len() == 6 && "PUT"@.len() == 3
            && "HEAD"@.len() == 4);
    } else {
        let more = words.skip(1);
        let others = methods.skip(1);
        assert forall|i: int| 0 <= i < more.len() implies {
            let m = #[trigger] others[i];
            &&& m == "GET"@ || m == "POST"@ || m == "DELETE"@ || m == "PUT"@ || m == "HEAD"@
            &&& clients::same_but_for_case(more[i], m)
        } by {
            assert(others[i] == methods[i + 1]);
        }
        methods_are_read_in_any_case(more, others, rest);
        let m = methods[0];
        assert(clients::same_but_for_case(words[0], m));
        reveal_strlit("GET");
        reveal_strlit("POST");
        reveal_strlit("DELETE");
        reveal_strlit("PUT");
        reveal_strlit("HEAD");
        assert forall|i: int| 0 <= i < m.len() implies 'A' <= #[trigger] m[i] <= 'Z' by {}
        assert forall|i: int| 0 <= i < m.len() implies (#[trigger] words[0][i]) as int == m[i] as int
            || words[0][i] as int == m[i] as int + 32 by {
            let (x, y) = (words[0][i] as int, m[i] as int);
            assert('A' <= m[i] <= 'Z');
        }
        assert(vstd::utf8::is_ascii_chars(words[0]));
        assert(text::raised(words[0]) =~= m);
        assert((words + rest).skip(1) =~= more + rest);
        assert(seq![m] + others =~= methods);
    }
}

/// Only the word `on` switches something on; with any other word it is off.
pub proof fn only_on_switches_on(word: Seq<char>, rest: Seq<Seq<char>>, what: Seq<char>)
    requires
        word != seq!['{'],
        word != seq!['}'],
        rest.len() > 0,
        rest[0] != seq!['{'],
    ensures
        config::switched(seq![word] + rest, what) == config::took(word == seq!['o', 'n'], rest),
{
    reveal_strlit("{");
    reveal_strlit("}");
    reveal_strlit("on");
    assert("{"@ =~= seq!['{']);
    assert("}"@ =~= seq!['}']);
    assert("on"@ =~= seq!['o', 'n']);
    let tokens = seq![word] + rest;
    assert(tokens[1] == rest[0]);
    assert(tokens.skip(1) =~= rest);
}

/// The value cannot be a number.
pub open spec fn no_number(word: Seq<char>) -> bool {
    word.len() == 0 || !('0' <= word[0] <= '9') && word[0] != '+'
}

/// A directive of a route is refused where its name is none, where a script's
/// extension does not begin with a dot, and where no method is listed.
pub proof fn odd_directive_of_a_route_is_refused(
    name: Seq<char>,
    args: Seq<Seq<char>>,
    route: RouteView,
)
    ensures
        ({
            let outcome = config::route_directive(seq![name] + args, route).outcome;
            &&& name != "root"@ && name != "index"@ && name != "redirect"@ && name != "methods"@
                && name != "cgi"@ && name != "directory_listing"@ && name != "upload"@
                ==> outcome is Err
            &&& name == "cgi"@ && args.len() > 0 && (args[0].len() == 0 || args[0][0] != '.')
                ==> outcome is Err
            &&& name == "methods"@ && args.len() > 0 && ({
                let word = text::uppercased(args[0]);
                word != "GET"@ && word != "POST"@ && word != "DELETE"@ && word != "PUT"@ && word
                    != "HEAD"@
            }) ==> outcome is Err
            &&& args.len() == 0 ==> outcome is Err
        }),
{
    reveal_strlit("root");
    reveal_strlit("index");
    reveal_strlit("redirect");
    reveal_strlit("methods");
    reveal_strlit("cgi");
    reveal_strlit("directory_listing");
    reveal_strlit("upload");
    let tokens = seq![name] + args;
    assert(tokens.skip(1) =~= args);
    assert("methods"@.len() == 7 && "cgi"@.len() == 3 && "root"@.len() == 4 && "index"@.len() == 5
        && "redirect"@.len() == 8);
}

/// A directive of a server is refused where its name is none, where it has no value,
/// where a number is due and something else comes, and where a port comes twice.
pub proof fn odd_directive_of_a_server_is_refused(
    name: Seq<char>,
    args: Seq<Seq<char>>,
    server: ServerView,
)
    ensures
        ({
            let outcome = config::server_directive(seq![name] + args, server).outcome;
            &&& name != "host"@ && name != "port"@ && name != "server_name"@ && name
                != "error_page"@ && name != "client_max_body_size"@ && name != "route"@ ==> outcome
                is Err
            &&& args.len() == 0 ==> outcome is Err
            &&& args.len() > 0 && no_number(args[0]) && (name == "port"@ || name == "error_page"@
                || name == "client_max_body_size"@) ==> outcome is Err
            &&& args.len() > 0 && name == "port"@ && clients::all_digits(args[0]) && (exists|i: int|
                0 <= i < server.ports.len() && #[trigger] server.ports[i]
                    == clients::decimal_number(args[0])) ==> outcome is Err
        }),
{
    reveal_strlit("host");
    reveal_strlit("port");
    reveal_strlit("server_name");
    reveal_strlit("error_page");
    reveal_strlit("client_max_body_size");
    reveal_strlit("route");
    let tokens = seq![name] + args;
    assert(tokens.skip(1) =~= args);
    assert("host"@[0] == 'h' && "port"@[0] == 'p' && "route"@.len() == 5 && "server_name"@.len()
        == 11 && "error_page"@.len() == 10 && "client_max_body_size"@.len() == 20);
    if args.len() > 0 {
        if args[0].len() > 0 && no_number(args[0]) {
            clients::lemma_first_decimal_bad(args[0]);
        }
        if clients::all_digits(args[0]) {
            clients::lemma_decimal_number(args[0]);
        }
    }
}

} // verus!
