//! File system paths as text: joining, taking apart, and the mapping of URL paths
//! into the directory of a route.

use vstd::prelude::*;

use crate::config;
use crate::config::RouteConfig;
use crate::text;

verus! {

/// A path joined onto another: an absolute one stands for itself, any other goes
/// behind a separator.
pub open spec fn joined(base: Seq<char>, path: Seq<char>) -> Seq<char> {
    if path.len() > 0 && path[0] == '/' {
        path
    } else if base.len() == 0 || base.last() == '/' {
        base + path
    } else {
        base + "/"@ + path
    }
}

/// Joins a path onto another.
pub fn join(base: &str, path: &str) -> (whole: String)
    ensures
        whole@ == joined(base@, path@),
{
    if text::leads(path, '/') {
        return path.to_owned();
    }
    let mut out: Vec<char> = text::chars_of(base);
    if out.len() > 0 && out[out.len() - 1] != '/' {
        text::push_text(&mut out, "/");
    }
    text::push_text(&mut out, path);
    text::text_of(out.as_slice())
}

/// A path without the separators and dots at its end, which name nothing.
pub open spec fn trimmed_back(path: Seq<char>) -> Seq<char>
    decreases path.len(),
{
    if path.len() > 1 && path.last() == '/' {
        trimmed_back(path.drop_last())
    } else if path.len() > 1 && path.last() == '.' && path[path.len() - 2] == '/' {
        trimmed_back(path.drop_last())
    } else {
        path
    }
}

/// A path separator.
pub open spec fn separator() -> text::CharClass {
    text::CharClass::Only('/')
}

/// The directory that a path lies in; empty where the path names none.
pub open spec fn parent_of(path: Seq<char>) -> Seq<char> {
    let t = trimmed_back(path);
    if t == seq!['/'] {
        seq![]
    } else {
        trimmed_back(t.take(t.len() - text::tail_length(t, separator())))
    }
}

/// The last name in a path.
pub open spec fn name_of(path: Seq<char>) -> Option<Seq<char>> {
    let name = text::behind_last(trimmed_back(path), separator());
    if name.len() == 0 || name == "."@ || name == ".."@ {
        None
    } else {
        Some(name)
    }
}

/// What stands behind the last dot of the name, unless the name begins with it;
/// empty where there is nothing.
pub open spec fn extension_of(path: Seq<char>) -> Seq<char> {
    match name_of(path) {
        Some(name) => {
            let n = text::tail_length(name, text::CharClass::Only('.'));
            if n + 1 < name.len() {
                name.skip(name.len() - n)
            } else {
                seq![]
            }
        },
        None => seq![],
    }
}

/// A path without the separators and dots at its end.
fn trim_back<'a>(path: &'a [char]) -> (t: &'a [char])
    ensures
        t@ == trimmed_back(path@),
{
    let mut n: usize = path.len();
    assert(path@.take(n as int) =~= path@);
    while n > 1 && (path[n - 1] == '/' || (path[n - 1] == '.' && path[n - 2] == '/'))
        invariant
            n <= path.len(),
            trimmed_back(path@) == trimmed_back(path@.take(n as int)),
        decreases n,
    {
        assert(path@.take(n as int).drop_last() =~= path@.take(n - 1));
        n -= 1;
    }
    let t: &'a [char] = vstd::slice::slice_subrange(path, 0, n);
    assert(t@ =~= path@.take(n as int));
    t
}

/// The directory that a path lies in; empty where the path names none.
pub fn parent(path: &str) -> (dir: String)
    ensures
        dir@ == parent_of(path@),
{
    let chars: Vec<char> = text::chars_of(path);
    let t: &[char] = trim_back(chars.as_slice());
    if t.len() == 1 && t[0] == '/' {
        assert(t@ =~= seq!['/']);
        let dir: String = String::new();
        assert(dir@ =~= seq![]);
        return dir;
    }
    let (head, _): (&[char], &[char]) = text::split_behind_last(t, &text::CharClass::Only('/'));
    text::text_of(trim_back(head))
}

/// What stands behind the last dot of the last name in a path.
pub fn extension(path: &str) -> (ext: String)
    ensures
        ext@ == extension_of(path@),
{
    let chars: Vec<char> = text::chars_of(path);
    let t: &[char] = trim_back(chars.as_slice());
    let (_, name): (&[char], &[char]) = text::split_behind_last(t, &text::CharClass::Only('/'));
    let nothing: String = String::new();
    assert(nothing@ =~= seq![]);
    if name.len() == 0 || text::spells(name, ".") || text::spells(name, "..") {
        return nothing;
    }
    let (head, ext): (&[char], &[char]) = text::split_behind_last(
        name,
        &text::CharClass::Only('.'),
    );
    proof {
        text::lemma_tail_length(name@, text::CharClass::Only('.'));
    }
    if head.len() <= 1 {
        return nothing;
    }
    text::text_of(ext)
}

// ------------------------------------------------------ mapping URLs into a root

/// What a URL path says behind the prefix of its route.
pub open spec fn behind_prefix(prefix: Seq<char>, url_path: Seq<char>) -> Seq<char> {
    let rest = if prefix == "/"@ {
        url_path
    } else {
        vstd::utf8::decode_utf8(
            vstd::utf8::encode_utf8(url_path).skip(vstd::utf8::encode_utf8(prefix).len() as int),
        )
    };
    text::drop_leading(rest, separator())
}

/// The path can be cut where a prefix of that length ends.
pub open spec fn can_be_cut(prefix: Seq<char>, url_path: Seq<char>) -> bool {
    prefix == "/"@ || vstd::utf8::is_char_boundary(
        vstd::utf8::encode_utf8(url_path),
        vstd::utf8::encode_utf8(prefix).len() as int,
    )
}

/// A step in the path goes up a directory.
pub open spec fn goes_up(path: Seq<char>) -> bool {
    text::pieces(path, seq!['/']).contains(".."@)
}

/// The file system path that a URL path stands for.
pub open spec fn resolved(root: Seq<char>, prefix: Seq<char>, url_path: Seq<char>) -> Option<
    Seq<char>,
> {
    let rest = behind_prefix(prefix, url_path);
    if goes_up(rest) {
        None
    } else {
        Some(joined(root, rest))
    }
}

/// Join the URL path (minus the route prefix) onto the route root while
/// refusing any traversal outside of it.
pub fn resolve_path(root: &str, prefix: &str, url_path: &str) -> (path: Option<String>)
    requires
        can_be_cut(prefix@, url_path@),
    ensures
        text::shown(path) == resolved(root@, prefix@, url_path@),
{
    let behind: Vec<char> = if text::same_text(prefix, "/") {
        text::chars_of(url_path)
    } else {
        let n: usize = prefix.as_bytes().len();
        let (_, rest): (&str, &str) = url_path.split_at(n);
        proof {
            let all = vstd::utf8::encode_utf8(url_path@);
            assert(all.skip(n as int) =~= all.subrange(n as int, all.len() as int));
            vstd::utf8::encode_utf8_decode_utf8(rest@);
        }
        text::chars_of(rest)
    };
    let rest: &[char] = text::trim_start_of(behind.as_slice(), &text::CharClass::Only('/'));
    let steps: Vec<&[char]> = text::split_char(rest, '/');
    let ghost all = text::contents(steps@);
    let mut i: usize = 0;
    while i < steps.len()
        invariant
            i <= steps@.len(),
            all == text::contents(steps@),
            all == text::pieces(rest@, seq!['/']),
            rest@ == behind_prefix(prefix@, url_path@),
            forall|j: int| 0 <= j < i ==> #[trigger] all[j] != ".."@,
        decreases steps@.len() - i,
    {
        if text::spells(steps[i], "..") {
            assert(all[i as int] == ".."@);
            return None;
        }
        assert(all[i as int] == steps@[i as int]@);
        i += 1;
    }
    assert(!goes_up(rest@));
    Some(join(root, text::text_of(rest).as_str()))
}

/// Behind a prefix that the path begins with stands the rest of the path.
pub proof fn lemma_behind_prefix(prefix: Seq<char>, url_path: Seq<char>)
    requires
        text::begins(url_path, prefix),
    ensures
        can_be_cut(prefix, url_path),
        prefix != "/"@ ==> behind_prefix(prefix, url_path) == text::drop_leading(
            url_path.skip(prefix.len() as int),
            separator(),
        ),
{
    let rest = url_path.skip(prefix.len() as int);
    assert(prefix =~= url_path.subrange(0, prefix.len() as int));
    assert(url_path =~= prefix + rest);
    text::lemma_boundary_behind_part(prefix, rest);
    text::lemma_bytes_of_parts(prefix, rest);
    let n = vstd::utf8::encode_utf8(prefix).len() as int;
    assert(vstd::utf8::encode_utf8(url_path).skip(n) =~= vstd::utf8::encode_utf8(rest));
    vstd::utf8::encode_utf8_decode_utf8(rest);
}

/// A route that covers a path has a prefix at which the path can be cut.
pub proof fn lemma_covered_path_can_be_cut(route: config::RouteView, url_path: Seq<char>)
    requires
        route.covers(url_path),
    ensures
        can_be_cut(route.prefix, url_path),
{
    if route.prefix != "/"@ {
        assert(url_path.subrange(0, url_path.len() as int) =~= url_path);
        lemma_behind_prefix(route.prefix, url_path);
    }
}

/// How far the steps lead down from where they start; a negative number is up.
pub open spec fn depth(steps: Seq<Seq<char>>) -> int
    decreases steps.len(),
{
    if steps.len() == 0 {
        0
    } else {
        depth(steps.drop_last()) + if steps.last() == ".."@ {
            -1int
        } else if steps.last().len() == 0 || steps.last() == "."@ {
            0
        } else {
            1
        }
    }
}

/// A resolved path lies under the root: it is the root with something behind it,
/// and no step of that leads above the root.
pub proof fn resolved_path_stays_under_the_root(
    root: Seq<char>,
    prefix: Seq<char>,
    url_path: Seq<char>,
)
    ensures
        resolved(root, prefix, url_path) matches Some(path) ==> {
            let rest = behind_prefix(prefix, url_path);
            let steps = text::pieces(rest, seq!['/']);
            &&& path == joined(root, rest)
            &&& text::begins(path, root)
            &&& forall|k: int| 0 <= k <= steps.len() ==> depth(#[trigger] steps.take(k)) >= 0
        },
{
    if let Some(path) = resolved(root, prefix, url_path) {
        let rest = behind_prefix(prefix, url_path);
        let steps = text::pieces(rest, seq!['/']);
        let whole = if prefix == "/"@ {
            url_path
        } else {
            vstd::utf8::decode_utf8(
                vstd::utf8::encode_utf8(url_path).skip(
                    vstd::utf8::encode_utf8(prefix).len() as int,
                ),
            )
        };
        text::lemma_drop_leading(whole, separator());
        assert(path.subrange(0, root.len() as int) =~= root);
        assert forall|k: int| 0 <= k <= steps.len() implies depth(#[trigger] steps.take(k)) >= 0 by {
            lemma_no_way_up(steps, k);
        }
    }
}

proof fn lemma_no_way_up(steps: Seq<Seq<char>>, k: int)
    requires
        !steps.contains(".."@),
        0 <= k <= steps.len(),
    ensures
        depth(steps.take(k)) >= 0,
    decreases k,
{
    if k > 0 {
        lemma_no_way_up(steps, k - 1);
        assert(steps.take(k).drop_last() =~= steps.take(k - 1));
        assert(steps.contains(steps[k - 1]));
    }
}

proof fn lemma_drop_leading_more(s: Seq<char>, name: Seq<char>)
    requires
        name.len() > 0,
        name[0] != '/',
    ensures
        text::drop_leading(s + name, separator()) == text::drop_leading(s, separator()) + name,
        ({
            let t = text::drop_leading(s, separator());
            t.len() > 0 ==> t.last() == s.last()
        }),
    decreases s.len(),
{
    if s.len() == 0 {
        assert(s + name =~= name);
        assert(text::drop_leading(s, separator()) + name =~= name);
    } else if s[0] == '/' {
        assert((s + name).drop_first() =~= s.drop_first() + name);
        lemma_drop_leading_more(s.drop_first(), name);
    }
}

proof fn lemma_steps_with_name(dir: Seq<char>, name: Seq<char>)
    requires
        dir.len() > 0 ==> dir.last() == '/',
        forall|i: int| 0 <= i < name.len() ==> #[trigger] name[i] != '/',
        name != ".."@,
    ensures
        goes_up(dir + name) ==> goes_up(dir),
    decreases dir.len(),
{
    let sep = seq!['/'];
    if dir.len() == 0 {
        assert(dir + name =~= name);
        text::lemma_first_index_absent(name, '/');
        assert(text::pieces(name, sep) =~= seq![name]);
    } else {
        text::lemma_index_from(dir, sep, 0);
        assert(dir.subrange(dir.len() - 1, dir.len() as int) =~= sep);
        assert(text::occurs_at(dir, sep, dir.len() - 1));
        let i = text::first_index(dir, sep)->0;
        let whole = dir + name;
        assert(whole.take(dir.len() as int) =~= dir.take(dir.len() as int));
        text::lemma_first_index_agrees(dir, whole, sep, dir.len() as int);
        assert(whole.take(i) =~= dir.take(i));
        assert(whole.skip(i + 1) =~= dir.skip(i + 1) + name);
        lemma_steps_with_name(dir.skip(i + 1), name);
        let behind = text::pieces(whole.skip(i + 1), sep);
        let steps = text::pieces(dir.skip(i + 1), sep);
        assert(text::pieces(whole, sep) == seq![dir.take(i)] + behind);
        assert(text::pieces(dir, sep) == seq![dir.take(i)] + steps);
        if goes_up(whole) {
            let k = choose|k: int|
                0 <= k < (seq![dir.take(i)] + behind).len() && (seq![dir.take(i)] + behind)[k]
                    == ".."@;
            if k == 0 {
                assert((seq![dir.take(i)] + steps)[0] == ".."@);
            } else {
                assert(behind[k - 1] == ".."@);
                let m = choose|m: int| 0 <= m < steps.len() && steps[m] == ".."@;
                assert((seq![dir.take(i)] + steps)[m + 1] == ".."@);
            }
        }
    }
}

/// What a URL names in a directory lies in the directory that the URL of the
/// directory stands for.
pub proof fn name_in_a_directory_is_mapped_into_it(
    root: Seq<char>,
    route: config::RouteView,
    url_path: Seq<char>,
    name: Seq<char>,
)
    requires
        route.covers(url_path),
        url_path.len() > 0,
        url_path.last() == '/',
        resolved(root, route.prefix, url_path) is Some,
        name.len() > 0,
        forall|i: int| 0 <= i < name.len() ==> #[trigger] name[i] != '/',
        name != ".."@,
    ensures
        resolved(root, route.prefix, url_path + name) == Some(
            joined(resolved(root, route.prefix, url_path)->0, name),
        ),
{
    let prefix = route.prefix;
    let longer = url_path + name;
    let raw = if prefix == "/"@ {
        url_path
    } else {
        url_path.skip(prefix.len() as int)
    };
    if prefix != "/"@ {
        assert(url_path.subrange(0, url_path.len() as int) =~= url_path);
        assert(longer.subrange(0, prefix.len() as int) =~= url_path.subrange(
            0,
            prefix.len() as int,
        ));
        lemma_behind_prefix(prefix, url_path);
        lemma_behind_prefix(prefix, longer);
        assert(longer.skip(prefix.len() as int) =~= raw + name);
    }
    lemma_drop_leading_more(raw, name);
    let rest = behind_prefix(prefix, url_path);
    assert(behind_prefix(prefix, longer) == rest + name);
    text::lemma_drop_leading(raw, separator());
    lemma_steps_with_name(rest, name);
    reveal_strlit("/");
    assert(joined(joined(root, rest), name) =~= joined(root, rest + name));
}

// ------------------------------------------------------------ what a file is for

/// The program that runs the file at a path: the one configured for the extension.
pub open spec fn interpreter_of(route: config::RouteView, path: Seq<char>) -> Option<Seq<char>> {
    let key = "."@ + extension_of(path);
    if route.cgi.dom().contains(key) {
        Some(route.cgi[key])
    } else {
        None
    }
}

/// The program that runs the file at a path.
pub fn cgi_target(route: &RouteConfig, path: &str) -> (interpreter: Option<String>)
    ensures
        text::shown(interpreter) == interpreter_of(route@, path@),
{
    let mut key: Vec<char> = text::chars_of(".");
    text::push_text(&mut key, extension(path).as_str());
    let key: String = text::text_of(key.as_slice());
    match route.cgi.get(key.as_str()) {
        Some(program) => Some(program.clone()),
        None => None,
    }
}

/// The media type for an extension in small letters.
pub open spec fn media_type(extension: Seq<char>) -> Seq<char> {
    if extension == "html"@ || extension == "htm"@ {
        "text/html; charset=utf-8"@
    } else if extension == "css"@ {
        "text/css"@
    } else if extension == "js"@ {
        "application/javascript"@
    } else if extension == "json"@ {
        "application/json"@
    } else if extension == "txt"@ {
        "text/plain; charset=utf-8"@
    } else if extension == "png"@ {
        "image/png"@
    } else if extension == "jpg"@ || extension == "jpeg"@ {
        "image/jpeg"@
    } else if extension == "gif"@ {
        "image/gif"@
    } else if extension == "svg"@ {
        "image/svg+xml"@
    } else if extension == "ico"@ {
        "image/x-icon"@
    } else if extension == "pdf"@ {
        "application/pdf"@
    } else if extension == "mp4"@ {
        "video/mp4"@
    } else if extension == "ppm"@ {
        "image/x-portable-pixmap"@
    } else {
        "application/octet-stream"@
    }
}

/// The media type of the file at a path.
pub open spec fn media_type_of(path: Seq<char>) -> Seq<char> {
    media_type(text::lowered(extension_of(path)))
}

/// The media type of the file at a path.
pub fn mime_type(path: &str) -> (media: &'static str)
    ensures
        media@ == media_type_of(path@),
{
    let ext: Vec<char> = text::chars_of(extension(path).as_str());
    let lower: Vec<char> = text::to_ascii_lowercase(ext.as_slice());
    let e: &[char] = lower.as_slice();
    if text::spells(e, "html") || text::spells(e, "htm") {
        "text/html; charset=utf-8"
    } else if text::spells(e, "css") {
        "text/css"
    } else if text::spells(e, "js") {
        "application/javascript"
    } else if text::spells(e, "json") {
        "application/json"
    } else if text::spells(e, "txt") {
        "text/plain; charset=utf-8"
    } else if text::spells(e, "png") {
        "image/png"
    } else if text::spells(e, "jpg") || text::spells(e, "jpeg") {
        "image/jpeg"
    } else if text::spells(e, "gif") {
        "image/gif"
    } else if text::spells(e, "svg") {
        "image/svg+xml"
    } else if text::spells(e, "ico") {
        "image/x-icon"
    } else if text::spells(e, "pdf") {
        "application/pdf"
    } else if text::spells(e, "mp4") {
        "video/mp4"
    } else if text::spells(e, "ppm") {
        "image/x-portable-pixmap"
    } else {
        "application/octet-stream"
    }
}

} // verus!
