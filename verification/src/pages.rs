//! The pages that the server makes up: errors, listings, and what became of a
//! request.

use vstd::prelude::*;

use crate::http;
use crate::http::reason;
use crate::numeral;
use crate::text;

verus! {

/// The built-in page for a status.
pub open spec fn error_text(status: u16) -> Seq<char> {
    "<!DOCTYPE html><html><head><title>"@ + numeral::decimal(status as nat) + " "@
        + http::reason_text(status)
        + "</title></head><body style=\"font-family:sans-serif;text-align:center;margin-top:15vh\"><h1>"@
        + numeral::decimal(status as nat) + " "@ + http::reason_text(status)
        + "</h1><hr style=\"width:12rem\"><p>localhost-rs</p></body></html>"@
}

/// The built-in page for a status.
pub fn error_page_text(status: u16) -> (page: String)
    ensures
        page@ == error_text(status),
{
    let mut out: Vec<char> = text::chars_of("<!DOCTYPE html><html><head><title>");
    numeral::push_decimal(&mut out, status as u64);
    text::push_text(&mut out, " ");
    text::push_text(&mut out, reason(status));
    text::push_text(
        &mut out,
        "</title></head><body style=\"font-family:sans-serif;text-align:center;margin-top:15vh\"><h1>",
    );
    numeral::push_decimal(&mut out, status as u64);
    text::push_text(&mut out, " ");
    text::push_text(&mut out, reason(status));
    text::push_text(
        &mut out,
        "</h1><hr style=\"width:12rem\"><p>localhost-rs</p></body></html>",
    );
    text::text_of(out.as_slice())
}

/// The page that shows a session and its visits.
pub open spec fn session_text(id: Seq<char>, count: u64) -> Seq<char> {
    "<!DOCTYPE html><html><body><h1>Session</h1><p>Your session id: <code>"@ + id
        + "</code></p><p>You visited this page <b>"@ + numeral::decimal(count as nat)
        + "</b> time(s).</p><p><a href=\"/\">home</a></p></body></html>"@
}

/// The page that shows a session and its visits.
pub fn session_page(id: &str, count: u64) -> (page: String)
    ensures
        page@ == session_text(id@, count),
{
    let mut out: Vec<char> = text::chars_of(
        "<!DOCTYPE html><html><body><h1>Session</h1><p>Your session id: <code>",
    );
    text::push_text(&mut out, id);
    text::push_text(&mut out, "</code></p><p>You visited this page <b>");
    numeral::push_decimal(&mut out, count);
    text::push_text(
        &mut out,
        "</b> time(s).</p><p><a href=\"/\">home</a></p></body></html>",
    );
    text::text_of(out.as_slice())
}

/// The page that points to where a route has moved.
pub open spec fn moved_text(target: Seq<char>) -> Seq<char> {
    "<h1>301 Moved Permanently</h1><p><a href=\""@ + target + "\">"@ + target + "</a></p>"@
}

/// The page that points to where a route has moved.
pub fn moved_page(target: &str) -> (page: String)
    ensures
        page@ == moved_text(target@),
{
    let mut out: Vec<char> = text::chars_of("<h1>301 Moved Permanently</h1><p><a href=\"");
    text::push_text(&mut out, target);
    text::push_text(&mut out, "\">");
    text::push_text(&mut out, target);
    text::push_text(&mut out, "</a></p>");
    text::text_of(out.as_slice())
}

/// List items that link to the names.
pub open spec fn link_items(names: Seq<Seq<char>>) -> Seq<char>
    decreases names.len(),
{
    if names.len() == 0 {
        seq![]
    } else {
        link_items(names.drop_last()) + "<li><a href=\""@ + names.last() + "\">"@ + names.last()
            + "</a></li>"@
    }
}

/// Appends list items that link to the names.
fn push_link_items(out: &mut Vec<char>, names: &Vec<String>)
    ensures
        final(out)@ == old(out)@ + link_items(text::texts(names@)),
{
    let ghost start = out@;
    let ghost all = text::texts(names@);
    let mut i: usize = 0;
    assert(start + link_items(all.take(0)) =~= start);
    while i < names.len()
        invariant
            i <= names@.len(),
            all == text::texts(names@),
            out@ == start + link_items(all.take(i as int)),
        decreases names@.len() - i,
    {
        text::push_text(out, "<li><a href=\"");
        text::push_text(out, names[i].as_str());
        text::push_text(out, "\">");
        text::push_text(out, names[i].as_str());
        text::push_text(out, "</a></li>");
        proof {
            let upto = all.take(i + 1);
            assert(upto.drop_last() =~= all.take(i as int));
            assert(upto.last() == names@[i as int]@);
            assert(out@ =~= start + link_items(upto));
        }
        i += 1;
    }
    assert(all.take(i as int) =~= all);
}

/// The page that lists the files that were stored.
pub open spec fn stored_text(names: Seq<Seq<char>>) -> Seq<char> {
    "<h1>201 Created</h1><ul>"@ + link_items(names)
        + "</ul><p><a href=\"./\">back</a></p>"@
}

/// The page that lists the files that were stored.
pub fn stored_page(names: &Vec<String>) -> (page: String)
    ensures
        page@ == stored_text(text::texts(names@)),
{
    let mut out: Vec<char> = text::chars_of("<h1>201 Created</h1><ul>");
    push_link_items(&mut out, names);
    text::push_text(&mut out, "</ul><p><a href=\"./\">back</a></p>");
    text::text_of(out.as_slice())
}

/// A number of bytes between two texts.
pub open spec fn bytes_text(before: Seq<char>, count: nat, after: Seq<char>) -> Seq<char> {
    before + numeral::decimal(count) + after
}

/// A number of bytes between two texts.
pub fn bytes_page(before: &str, count: usize, after: &str) -> (page: String)
    ensures
        page@ == bytes_text(before@, count as nat, after@),
{
    let mut out: Vec<char> = text::chars_of(before);
    numeral::push_decimal(&mut out, count as u64);
    text::push_text(&mut out, after);
    text::text_of(out.as_slice())
}

// ---------------------------------------------------------------------- listings

/// `a` does not come behind `b` in the order of strings: they are compared
/// character by character, and a string comes before those that it begins.
pub open spec fn in_order(a: Seq<char>, b: Seq<char>) -> bool
    decreases a.len(),
{
    if a.len() == 0 {
        true
    } else if b.len() == 0 {
        false
    } else if a[0] == b[0] {
        in_order(a.drop_first(), b.drop_first())
    } else {
        a[0] < b[0]
    }
}

/// The names with one more in its place.
pub open spec fn inserted(names: Seq<Seq<char>>, name: Seq<char>) -> Seq<Seq<char>>
    decreases names.len(),
{
    if names.len() > 0 && !in_order(names.last(), name) {
        inserted(names.drop_last(), name).push(names.last())
    } else {
        names.push(name)
    }
}

/// The names in order.
pub open spec fn sorted(names: Seq<Seq<char>>) -> Seq<Seq<char>>
    decreases names.len(),
{
    if names.len() == 0 {
        seq![]
    } else {
        inserted(sorted(names.drop_last()), names.last())
    }
}

proof fn lemma_in_order_total(a: Seq<char>, b: Seq<char>)
    ensures
        in_order(a, b) || in_order(b, a),
    decreases a.len(),
{
    if a.len() > 0 && b.len() > 0 && a[0] == b[0] {
        lemma_in_order_total(a.drop_first(), b.drop_first());
    }
}

proof fn lemma_in_order_transitive(a: Seq<char>, b: Seq<char>, c: Seq<char>)
    requires
        in_order(a, b),
        in_order(b, c),
    ensures
        in_order(a, c),
    decreases a.len(),
{
    if a.len() > 0 && b.len() > 0 && c.len() > 0 && a[0] == b[0] && b[0] == c[0] {
        lemma_in_order_transitive(a.drop_first(), b.drop_first(), c.drop_first());
    }
}

/// Each name stands before those that come behind it.
pub open spec fn all_in_order(names: Seq<Seq<char>>) -> bool {
    forall|i: int, j: int|
        0 <= i <= j < names.len() ==> in_order(#[trigger] names[i], #[trigger] names[j])
}

proof fn lemma_in_order_itself(a: Seq<char>)
    ensures
        in_order(a, a),
    decreases a.len(),
{
    if a.len() > 0 {
        lemma_in_order_itself(a.drop_first());
    }
}

proof fn lemma_inserted(names: Seq<Seq<char>>, name: Seq<char>)
    requires
        all_in_order(names),
    ensures
        all_in_order(inserted(names, name)),
        inserted(names, name).to_multiset() == names.to_multiset().insert(name),
        inserted(names, name).len() == names.len() + 1,
        inserted(names, name).last() == name || (names.len() > 0 && inserted(names, name).last()
            == names.last()),
    decreases names.len(),
{
    broadcast use vstd::seq_lib::group_to_multiset_ensures;

    let all = inserted(names, name);
    lemma_in_order_itself(name);
    if names.len() > 0 && !in_order(names.last(), name) {
        let rest = names.drop_last();
        let last = names.last();
        assert(names =~= rest.push(last));
        assert forall|i: int, j: int| 0 <= i <= j < rest.len() implies in_order(
            #[trigger] rest[i],
            #[trigger] rest[j],
        ) by {
            assert(in_order(names[i], names[j]));
        }
        lemma_inserted(rest, name);
        let front = inserted(rest, name);
        lemma_in_order_total(last, name);
        assert(in_order(names[names.len() - 1], names[names.len() - 1]));
        assert forall|i: int| 0 <= i < front.len() implies in_order(#[trigger] front[i], last) by {
            assert(in_order(front[i], front[front.len() - 1]));
            if front.last() != name {
                assert(in_order(names[names.len() - 2], names[names.len() - 1]));
            }
            lemma_in_order_transitive(front[i], front.last(), last);
        }
        assert forall|i: int, j: int| 0 <= i <= j < all.len() implies in_order(
            #[trigger] all[i],
            #[trigger] all[j],
        ) by {
            if j < front.len() {
                assert(in_order(front[i], front[j]));
            } else if i < front.len() {
                assert(in_order(front[i], last));
            }
        }
        assert(all.to_multiset() =~= names.to_multiset().insert(name));
    } else {
        assert forall|i: int, j: int| 0 <= i <= j < all.len() implies in_order(
            #[trigger] all[i],
            #[trigger] all[j],
        ) by {
            if j < names.len() {
                assert(in_order(names[i], names[j]));
            } else if i < names.len() {
                assert(in_order(names[i], names[names.len() - 1]));
                lemma_in_order_transitive(names[i], names.last(), name);
            }
        }
    }
}

/// A listing has every name, as often as it was given, in order.
pub proof fn sorting_keeps_every_name(names: Seq<Seq<char>>)
    ensures
        all_in_order(sorted(names)),
        sorted(names).to_multiset() == names.to_multiset(),
    decreases names.len(),
{
    broadcast use vstd::seq_lib::group_to_multiset_ensures;

    if names.len() > 0 {
        let rest = names.drop_last();
        sorting_keeps_every_name(rest);
        lemma_inserted(sorted(rest), names.last());
        assert(names =~= rest.push(names.last()));
    }
}

/// Whether `a` does not come behind `b`.
fn ordered(a: &[char], b: &[char]) -> (yes: bool)
    ensures
        yes == in_order(a@, b@),
{
    let mut i: usize = 0;
    assert(a@.skip(0) =~= a@);
    assert(b@.skip(0) =~= b@);
    while i < a.len()
        invariant
            i <= a.len(),
            i <= b.len(),
            in_order(a@, b@) == in_order(a@.skip(i as int), b@.skip(i as int)),
        decreases a.len() - i,
    {
        if i >= b.len() {
            return false;
        }
        if a[i] != b[i] {
            return a[i] < b[i];
        }
        assert(a@.skip(i as int).drop_first() =~= a@.skip(i + 1));
        assert(b@.skip(i as int).drop_first() =~= b@.skip(i + 1));
        i += 1;
    }
    true
}

/// Puts a name in its place.
fn insert_name(names: &mut Vec<String>, name: String)
    ensures
        text::texts(final(names)@) == inserted(text::texts(old(names)@), name@),
{
    let ghost start = text::texts(names@);
    let key: Vec<char> = text::chars_of(name.as_str());
    let ghost n = name@;
    let mut at: usize = names.len();
    proof {
        assert(start.take(at as int) =~= start);
        assert(start.skip(at as int) =~= seq![]);
        assert(inserted(start, n) + start.skip(at as int) =~= inserted(start, n));
    }
    while at > 0
        invariant
            at <= names@.len(),
            start == text::texts(names@),
            key@ == n,
            inserted(start, n) == inserted(start.take(at as int), n) + start.skip(at as int),
        ensures
            at <= names@.len(),
            inserted(start, n) == start.take(at as int).push(n) + start.skip(at as int),
        decreases at,
    {
        let other: Vec<char> = text::chars_of(names[at - 1].as_str());
        if ordered(other.as_slice(), key.as_slice()) {
            break;
        }
        proof {
            let front = start.take(at as int);
            assert(front.drop_last() =~= start.take(at - 1));
            assert(front.last() == start[at - 1]);
            assert(inserted(start.take(at - 1), n).push(start[at - 1]) + start.skip(at as int)
                =~= inserted(start.take(at - 1), n) + start.skip(at - 1));
        }
        at -= 1;
    }
    names.insert(at, name);
    assert(text::texts(names@) =~= start.take(at as int).push(n) + start.skip(at as int));
}

/// The names in order.
pub fn sort_names(names: &Vec<String>) -> (ordered: Vec<String>)
    ensures
        text::texts(ordered@) == sorted(text::texts(names@)),
{
    let ghost all = text::texts(names@);
    let mut out: Vec<String> = Vec::new();
    let mut i: usize = 0;
    assert(text::texts(out@) =~= sorted(all.take(0)));
    while i < names.len()
        invariant
            i <= names@.len(),
            all == text::texts(names@),
            text::texts(out@) == sorted(all.take(i as int)),
        decreases names@.len() - i,
    {
        insert_name(&mut out, names[i].clone());
        proof {
            let upto = all.take(i + 1);
            assert(upto.drop_last() =~= all.take(i as int));
            assert(upto.last() == names@[i as int]@);
        }
        i += 1;
    }
    assert(all.take(i as int) =~= all);
    out
}

/// An entry of a directory.
pub struct DirEntry {
    pub name: String,
    pub is_dir: bool,
}

/// What an entry of a directory says.
pub struct EntryView {
    pub name: Seq<char>,
    pub is_dir: bool,
}

impl View for DirEntry {
    type V = EntryView;

    open spec fn view(&self) -> EntryView {
        EntryView { name: self.name@, is_dir: self.is_dir }
    }
}

/// What each entry says.
pub open spec fn entry_views(entries: Seq<DirEntry>) -> Seq<EntryView> {
    Seq::new(entries.len(), |i: int| entries[i]@)
}

/// The name that an entry is listed under: a directory has a slash behind it.
pub open spec fn listed_name(entry: EntryView) -> Seq<char> {
    if entry.is_dir {
        entry.name + "/"@
    } else {
        entry.name
    }
}

/// The names that the entries are listed under.
pub open spec fn listed_names(entries: Seq<EntryView>) -> Seq<Seq<char>> {
    Seq::new(entries.len(), |i: int| listed_name(entries[i]))
}

/// The page that lists a directory.
pub open spec fn listing_text(url_path: Seq<char>, entries: Seq<EntryView>) -> Seq<char> {
    "<!DOCTYPE html><html><head><title>Index of "@ + url_path
        + "</title></head><body><h1>Index of "@ + url_path
        + "</h1><ul><li><a href=\"../\">../</a></li>"@ + link_items(sorted(listed_names(entries)))
        + "</ul></body></html>"@
}

/// The page that lists a directory.
pub fn listing_page(url_path: &str, entries: &Vec<DirEntry>) -> (page: String)
    ensures
        page@ == listing_text(url_path@, entry_views(entries@)),
{
    let ghost all = listed_names(entry_views(entries@));
    let mut names: Vec<String> = Vec::new();
    let mut i: usize = 0;
    assert(text::texts(names@) =~= all.take(0));
    while i < entries.len()
        invariant
            i <= entries@.len(),
            all == listed_names(entry_views(entries@)),
            text::texts(names@) == all.take(i as int),
        decreases entries@.len() - i,
    {
        let mut name: Vec<char> = text::chars_of(entries[i].name.as_str());
        if entries[i].is_dir {
            text::push_text(&mut name, "/");
        }
        let ghost before = text::texts(names@);
        names.push(text::text_of(name.as_slice()));
        proof {
            assert(all[i as int] == listed_name(entries@[i as int]@));
            assert(text::texts(names@) =~= before.push(name@));
            assert(text::texts(names@) =~= all.take(i + 1));
        }
        i += 1;
    }
    assert(all.take(i as int) =~= all);
    let rows: Vec<String> = sort_names(&names);
    let mut out: Vec<char> = text::chars_of("<!DOCTYPE html><html><head><title>Index of ");
    text::push_text(&mut out, url_path);
    text::push_text(&mut out, "</title></head><body><h1>Index of ");
    text::push_text(&mut out, url_path);
    text::push_text(&mut out, "</h1><ul><li><a href=\"../\">../</a></li>");
    push_link_items(&mut out, &rows);
    text::push_text(&mut out, "</ul></body></html>");
    text::text_of(out.as_slice())
}

} // verus!
