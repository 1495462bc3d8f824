//! Where things are: the files that URLs stand for, what their names say about them,
//! and the host that a request is for.

use vstd::prelude::*;

use crate::clients;
use crate::config::{RouteView, ServerView};
use crate::framing;
use crate::handlers;
use crate::paths;
use crate::text;

verus! {

// ---------------------------------------------------------------------------- URLs

/// Steps with a slash between them.
pub open spec fn slashed(steps: Seq<Seq<char>>) -> Seq<char>
    decreases steps.len(),
{
    if steps.len() == 0 {
        seq![]
    } else if steps.len() == 1 {
        steps[0]
    } else {
        steps[0] + seq!['/'] + slashed(steps.skip(1))
    }
}

/// A directory with a slash behind it.
pub open spec fn with_slash(dir: Seq<char>) -> Seq<char> {
    if dir.len() == 0 || dir.last() == '/' {
        dir
    } else {
        dir.push('/')
    }
}

proof fn lemma_steps_told_apart(steps: Seq<Seq<char>>)
    requires
        steps.len() > 0,
        forall|i: int| 0 <= i < steps.len() ==> framing::free_of(#[trigger] steps[i], '/'),
    ensures
        text::pieces(slashed(steps), seq!['/']) == steps,
    decreases steps.len(),
{
    let sep = seq!['/'];
    let s = slashed(steps);
    assert(framing::free_of(steps[0], '/'));
    if steps.len() == 1 {
        text::lemma_first_index_absent(steps[0], '/');
        assert(steps =~= seq![steps[0]]);
    } else {
        let rest = steps.skip(1);
        assert forall|i: int| 0 <= i < rest.len() implies framing::free_of(
            #[trigger] rest[i],
            '/',
        ) by {
            assert(rest[i] == steps[i + 1]);
        }
        lemma_steps_told_apart(rest);
        text::lemma_first_index_behind(steps[0], sep, slashed(rest));
        assert(s.take(steps[0].len() as int) =~= steps[0]);
        assert(s.skip(steps[0].len() as int + 1) =~= slashed(rest));
        assert(seq![steps[0]] + rest =~= steps);
    }
}

/// A URL below the prefix of its route stands for the path with the same steps below
/// the root of the route; one with a step that leads up, wherever it stands, stands
/// for nothing.
pub proof fn url_stands_for_the_same_steps_below_the_root(
    root: Seq<char>,
    prefix: Seq<char>,
    steps: Seq<Seq<char>>,
)
    requires
        steps.len() > 0,
        steps[0].len() > 0,
        forall|i: int| 0 <= i < steps.len() ==> framing::free_of(#[trigger] steps[i], '/'),
        prefix != seq!['/'],
    ensures
        paths::resolved(root, prefix, prefix.push('/') + slashed(steps)) == if steps.contains(
            seq!['.', '.'],
        ) {
            None
        } else {
            Some(with_slash(root) + slashed(steps))
        },
        paths::resolved(root, seq!['/'], seq!['/'] + slashed(steps)) == if steps.contains(
            seq!['.', '.'],
        ) {
            None
        } else {
            Some(with_slash(root) + slashed(steps))
        },
{
    reveal_strlit("/");
    reveal_strlit("..");
    assert("/"@ =~= seq!['/']);
    assert(".."@ =~= seq!['.', '.']);
    let rest = slashed(steps);
    let url = prefix.push('/') + rest;
    let tail = seq!['/'] + rest;
    lemma_steps_told_apart(steps);
    assert(framing::free_of(steps[0], '/'));
    assert(rest.len() > 0 && rest[0] == steps[0][0]);
    assert(tail.drop_first() =~= rest);
    assert(text::drop_leading(tail, paths::separator()) == rest) by {
        reveal_with_fuel(text::drop_leading, 3);
    }
    assert(url.subrange(0, prefix.len() as int) =~= prefix);
    paths::lemma_behind_prefix(prefix, url);
    assert(url.skip(prefix.len() as int) =~= tail);
    assert(paths::joined(root, rest) =~= with_slash(root) + rest);
}

// --------------------------------------------------------------------------- names

/// A file name with an extension, in a directory.
pub open spec fn file_path(dir: Seq<char>, stem: Seq<char>, extension: Seq<char>) -> Seq<char> {
    dir + (stem + seq!['.'] + extension)
}

/// The directory, name and extension of a file.
pub open spec fn is_file_path(dir: Seq<char>, stem: Seq<char>, extension: Seq<char>) -> bool {
    &&& dir.len() > 0 ==> dir.last() == '/'
    &&& stem.len() > 0 && framing::free_of(stem, '/')
    &&& extension.len() > 0 && framing::free_of(extension, '/') && framing::free_of(extension, '.')
}

/// The extension of a file is what stands behind the last dot of its name, whatever
/// directory it is in.
pub proof fn extension_is_behind_the_last_dot(
    dir: Seq<char>,
    stem: Seq<char>,
    extension: Seq<char>,
)
    requires
        is_file_path(dir, stem, extension),
    ensures
        paths::extension_of(file_path(dir, stem, extension)) == extension,
{
    reveal_strlit(".");
    reveal_strlit("..");
    let path = file_path(dir, stem, extension);
    let name = stem + seq!['.'] + extension;
    assert(path.last() == extension[extension.len() - 1]);
    assert(paths::trimmed_back(path) == path);
    lemma_tail(dir, name, '/');
    assert(name.last() == extension[extension.len() - 1]);
    assert("."@[0] == '.' && ".."@[1] == '.');
    assert(name != "."@ && name != ".."@) by {
        if name == ".."@ {
            assert(name[1] == '.');
            assert(name.len() >= 3);
        }
    }
    lemma_tail(stem.push('.'), extension, '.');
    assert(stem.push('.') + extension =~= name);
}

/// A name without a dot has no extension, and neither has one whose only dot is in
/// front.
pub proof fn hidden_file_has_no_extension(dir: Seq<char>, name: Seq<char>)
    requires
        dir.len() > 0 ==> dir.last() == '/',
        name.len() > 0,
        framing::free_of(name, '/'),
        framing::free_of(name, '.'),
    ensures
        paths::extension_of(dir + name).len() == 0,
        paths::extension_of(dir + (seq!['.'] + name)).len() == 0,
{
    reveal_strlit(".");
    reveal_strlit("..");
    let hidden = seq!['.'] + name;
    let last = name[name.len() - 1];
    assert((dir + name).last() == last && (dir + hidden).last() == last);
    assert(paths::trimmed_back(dir + name) == dir + name);
    assert(paths::trimmed_back(dir + hidden) == dir + hidden);
    assert(framing::free_of(hidden, '/')) by {
        assert forall|i: int| 0 <= i < hidden.len() implies #[trigger] hidden[i] != '/' by {
            if i > 0 {
                assert(hidden[i] == name[i - 1]);
            }
        }
    }
    lemma_tail(dir, name, '/');
    lemma_tail(dir, hidden, '/');
    assert(name[0] != '.' && hidden[1] == name[0]);
    assert("."@.len() == 1 && "."@[0] == '.' && ".."@.len() == 2 && ".."@[1] == '.');
    lemma_tail(seq![], name, '.');
    assert(Seq::<char>::empty() + name =~= name);
    lemma_tail(seq!['.'], name, '.');
}

/// An absolute path stands for itself wherever it is joined onto another; any other
/// goes behind it, with one separator between them.
pub proof fn only_a_relative_path_goes_behind(base: Seq<char>, path: Seq<char>)
    ensures
        paths::joined(base, seq!['/'] + path) == seq!['/'] + path,
        (path.len() == 0 || path[0] != '/') && base.len() > 0 && base.last() != '/'
            ==> paths::joined(base, path) == base.push('/') + path,
        (path.len() == 0 || path[0] != '/') && base.len() > 0 && base.last() == '/'
            ==> paths::joined(base, path) == base + path,
{
    reveal_strlit("/");
    assert(base + "/"@ + path =~= base.push('/') + path);
}

proof fn lemma_tail(front: Seq<char>, tail: Seq<char>, c: char)
    requires
        front.len() > 0 ==> front.last() == c,
        framing::free_of(tail, c),
    ensures
        text::tail_length(front + tail, text::CharClass::Only(c)) == tail.len(),
        text::behind_last(front + tail, text::CharClass::Only(c)) == tail,
{
    let class = text::CharClass::Only(c);
    let whole = front + tail;
    text::lemma_tail_length(whole, class);
    let n = text::tail_length(whole, class);
    if n < tail.len() {
        assert(whole[whole.len() - n - 1] == tail[tail.len() - n - 1]);
    } else if n > tail.len() {
        assert(whole[front.len() - 1] == front.last());
    }
    assert(whole.skip(whole.len() - n) =~= tail);
}

/// The program that runs a file is the one that its route names for the extension
/// of the file; for any other extension there is none.
pub proof fn interpreter_goes_by_the_extension(
    route: RouteView,
    dir: Seq<char>,
    stem: Seq<char>,
    extension: Seq<char>,
)
    requires
        is_file_path(dir, stem, extension),
    ensures
        ({
            let key = seq!['.'] + extension;
            paths::interpreter_of(route, file_path(dir, stem, extension))
                == if route.cgi.dom().contains(key) {
                Some(route.cgi[key])
            } else {
                None
            }
        }),
{
    reveal_strlit(".");
    extension_is_behind_the_last_dot(dir, stem, extension);
    assert("."@ + extension =~= seq!['.'] + extension);
}

/// Files with the same extension, in any case, have the same type, wherever they are
/// and whatever they are called.
pub proof fn type_goes_by_the_extension(
    dir: Seq<char>,
    stem: Seq<char>,
    extension: Seq<char>,
    other_dir: Seq<char>,
    other_stem: Seq<char>,
    other_extension: Seq<char>,
)
    requires
        is_file_path(dir, stem, extension),
        is_file_path(other_dir, other_stem, other_extension),
        clients::same_but_for_case(extension, other_extension),
    ensures
        paths::media_type_of(file_path(dir, stem, extension)) == paths::media_type_of(
            file_path(other_dir, other_stem, other_extension),
        ),
{
    extension_is_behind_the_last_dot(dir, stem, extension);
    extension_is_behind_the_last_dot(other_dir, other_stem, other_extension);
    clients::lemma_same_but_for_case(extension, other_extension);
}

/// The directory that a path lies in is what stands before its last name.
pub proof fn parent_is_before_the_last_name(dir: Seq<char>, name: Seq<char>)
    requires
        dir.len() > 0,
        dir.last() != '/',
        dir.last() != '.',
        name.len() > 0,
        framing::free_of(name, '/'),
        name.last() != '.',
    ensures
        paths::parent_of(dir.push('/') + name) == dir,
{
    let path = dir.push('/') + name;
    assert(path.last() == name[name.len() - 1]);
    assert(paths::trimmed_back(path) == path);
    lemma_tail(dir.push('/'), name, '/');
    let front = path.take(path.len() - name.len());
    assert(front =~= dir.push('/'));
    assert(front.drop_last() =~= dir);
    assert(path != seq!['/']) by {
        assert(path.len() > 1);
    }
    reveal_with_fuel(paths::trimmed_back, 2);
    assert(paths::trimmed_back(front) == dir);
}

// --------------------------------------------------------------------------- hosts

proof fn lemma_host_line(
    headers: Seq<(Seq<char>, Seq<char>)>,
    lines: Seq<Seq<char>>,
    i: int,
)
    requires
        lines.len() == headers.len(),
        0 <= i < headers.len(),
        text::lowered("host"@) == "host"@,
        forall|k: int|
            0 <= k < headers.len() ==> {
                let (name, value) = #[trigger] headers[k];
                framing::free_of(name, ':') && framing::tight(name) && framing::tight(value)
                    && lines[k] == framing::header_line((name, value))
            },
        clients::same_but_for_case(headers[i].0, "host"@),
        forall|j: int|
            0 <= j < i ==> !clients::same_but_for_case((#[trigger] headers[j]).0, "host"@),
    ensures
        handlers::host_in_lines(lines) == Some(
            text::lowered(text::before(headers[i].1, ':')),
        ),
    decreases headers.len(),
{
    let (name, value) = headers[0];
    let line = lines[0];
    let spaced = seq![' '] + value;
    text::lemma_first_index_behind(name, seq![':'], spaced);
    assert(line.take(name.len() as int) =~= name);
    assert(line.skip(name.len() as int + 1) =~= spaced);
    text::lemma_trimmed_as_is(name);
    assert(spaced.drop_first() =~= value);
    text::lemma_trimmed_as_is(value);
    assert(text::trimmed(spaced) == value);
    clients::lemma_same_but_for_case(name, "host"@);
    if i > 0 {
        let rest = headers.skip(1);
        assert(!clients::same_but_for_case(headers[0].0, "host"@));
        assert forall|k: int| 0 <= k < rest.len() implies {
            let (name, value) = #[trigger] rest[k];
            framing::free_of(name, ':') && framing::tight(name) && framing::tight(value)
                && lines.skip(1)[k] == framing::header_line((name, value))
        } by {
            assert(headers[k + 1] == rest[k]);
        }
        assert forall|j: int| 0 <= j < i - 1 implies !clients::same_but_for_case(
            (#[trigger] rest[j]).0,
            "host"@,
        ) by {
            assert(headers[j + 1] == rest[j]);
        }
        assert(rest[i - 1] == headers[i]);
        lemma_host_line(rest, lines.skip(1), i - 1);
    }
}

/// The host of a request is known as soon as its line is there, whether or not the
/// head is at its end and whatever bytes follow, and is the one that is read in the
/// end.
pub proof fn host_is_known_before_the_body(
    head: framing::SentHead,
    i: int,
    body: Seq<u8>,
    more: Seq<u8>,
)
    requires
        head.well_formed(),
        head.path() is Some,
        0 <= i < head.headers.len(),
        clients::same_but_for_case(head.headers[i].0, "host"@),
        forall|j: int|
            0 <= j < head.headers.len() && j != i ==> !clients::same_but_for_case(
                (#[trigger] head.headers[j]).0,
                "host"@,
            ),
    ensures
        handlers::raw_host_of(head.bytes() + more) == head.request(body).host_name(),
        handlers::raw_host_of(
            vstd::utf8::encode_utf8(framing::joined_lines(head.lines())),
        ) == head.request(body).host_name(),
        head.request(body).host_name() is Some,
{
    reveal_strlit("host");
    assert(text::lowered("host"@) =~= "host"@);
    framing::lemma_head_read(head, more);
    let lines = head.lines();
    let headers = head.headers;
    assert forall|k: int| 0 <= k < lines.len() implies framing::one_line(#[trigger] lines[k]) by {
        if k > 0 {
            let (name, value) = headers[k - 1];
            assert(lines[k] == framing::header_line((name, value)));
            assert(framing::one_line(name) && framing::one_line(value));
        } else {
            reveal_strlit("HTTP/1.1");
            reveal_strlit("HTTP/1.0");
        }
    }
    framing::lemma_lines_told_apart(lines);
    let behind = lines.skip(1);
    lemma_host_line(headers, behind, i);
    clients::header_is_found_in_any_case(head, body, "host"@, i);
    framing::lemma_head_read(head, seq![]);
    let part = vstd::utf8::encode_utf8(framing::joined_lines(lines));
    let whole = head.bytes() + Seq::<u8>::empty();
    text::lemma_first_index_cut(whole, text::blank_line(), part.len() as int);
    assert(whole.take(part.len() as int) =~= part);
}

/// The server goes by the host, in any case.
pub open spec fn answers_to(server: ServerView, host: Option<Seq<char>>) -> bool {
    host matches Some(h) && (server.server_name matches Some(name) && clients::same_but_for_case(
        name,
        h,
    ))
}

/// A request is for the first server behind its listener that goes by the host it
/// names, in any case, and for the first one of all where none does.
pub proof fn host_picks_the_first_server_of_its_name(
    handler: handlers::HandlerView,
    listener: int,
    host: Option<Seq<char>>,
    k: int,
)
    requires
        handler.serves(listener),
        0 <= k < handler.groups[listener].len(),
        ({
            let group = handler.groups[listener];
            ||| answers_to(handler.servers[group[k] as int], host) && forall|j: int|
                0 <= j < k ==> !answers_to(handler.servers[#[trigger] group[j] as int], host)
            ||| k == 0 && forall|j: int|
                0 <= j < group.len() ==> !answers_to(
                    handler.servers[#[trigger] group[j] as int],
                    host,
                )
        }),
    ensures
        handler.server_index(listener, host) == handler.groups[listener][k],
{
    let group = handler.groups[listener];
    if let Some(h) = host {
        if answers_to(handler.servers[group[k] as int], host) {
            lemma_first_named(handler.servers, group, h, k);
        } else {
            lemma_none_named(handler.servers, group, h);
        }
    }
}

proof fn lemma_first_named(
    servers: Seq<ServerView>,
    group: Seq<usize>,
    host: Seq<char>,
    k: int,
)
    requires
        0 <= k < group.len(),
        answers_to(servers[group[k] as int], Some(host)),
        forall|j: int|
            0 <= j < k ==> !answers_to(servers[#[trigger] group[j] as int], Some(host)),
    ensures
        handlers::named_server(servers, group, host) == Some(group[k]),
    decreases group.len(),
{
    if let Some(name) = servers[group[0] as int].server_name {
        clients::lemma_same_but_for_case(name, host);
    }
    if k > 0 {
        let more = group.skip(1);
        assert(more[k - 1] == group[k]);
        assert forall|j: int| 0 <= j < k - 1 implies !answers_to(
            servers[#[trigger] more[j] as int],
            Some(host),
        ) by {
            assert(more[j] == group[j + 1]);
        }
        lemma_first_named(servers, more, host, k - 1);
        assert(!answers_to(servers[group[0] as int], Some(host)));
    }
}

proof fn lemma_none_named(servers: Seq<ServerView>, group: Seq<usize>, host: Seq<char>)
    requires
        forall|j: int|
            0 <= j < group.len() ==> !answers_to(servers[#[trigger] group[j] as int], Some(host)),
    ensures
        handlers::named_server(servers, group, host) is None,
    decreases group.len(),
{
    if group.len() > 0 {
        if let Some(name) = servers[group[0] as int].server_name {
            clients::lemma_same_but_for_case(name, host);
        }
        let more = group.skip(1);
        assert forall|j: int| 0 <= j < more.len() implies !answers_to(
            servers[#[trigger] more[j] as int],
            Some(host),
        ) by {
            assert(more[j] == group[j + 1]);
        }
        assert(!answers_to(servers[group[0] as int], Some(host)));
        lemma_none_named(servers, more, host);
    }
}

} // verus!
