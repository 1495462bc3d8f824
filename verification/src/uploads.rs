//! Browser form uploads: the multipart/form-data format and the names of files.

use vstd::prelude::*;
use vstd::slice::{slice_subrange, slice_to_vec};

use crate::paths;
use crate::text;

verus! {

/// A file in a form.
pub struct UploadedFile {
    pub name: String,
    pub content: Vec<u8>,
}

/// What a file in a form says.
#[verifier::ext_equal]
pub struct FileView {
    pub name: Seq<char>,
    pub content: Seq<u8>,
}

impl View for UploadedFile {
    type V = FileView;

    open spec fn view(&self) -> FileView {
        FileView { name: self.name@, content: self.content@ }
    }
}

/// What each file says.
pub open spec fn file_views(files: Seq<UploadedFile>) -> Seq<FileView> {
    Seq::new(files.len(), |i: int| files[i]@)
}

// ------------------------------------------------------------------ attributes

/// The value of an attribute: what stands behind its key.
pub open spec fn value_of(attribute: Seq<char>, key: Seq<char>) -> Option<Seq<char>> {
    let a = text::trimmed(attribute);
    if text::begins(a, key) {
        Some(text::trimmed_of(a.skip(key.len() as int), text::CharClass::Only('"')))
    } else {
        None
    }
}

/// The value of an attribute, without the quotes around it.
fn attribute_value<'a>(attribute: &'a [char], key: &str) -> (value: Option<&'a [char]>)
    ensures
        match value {
            Some(v) => value_of(attribute@, key@) == Some(v@),
            None => value_of(attribute@, key@) is None,
        },
{
    let a: &'a [char] = text::trim(attribute);
    let k: Vec<char> = text::chars_of(key);
    if text::starts_with(a, k.as_slice()) {
        let rest: &'a [char] = slice_subrange(a, k.len(), a.len());
        assert(rest@ =~= a@.skip(key@.len() as int));
        Some(text::trim_of(rest, &text::CharClass::Only('"')))
    } else {
        None
    }
}

/// The first boundary among the attributes.
pub open spec fn first_boundary(attributes: Seq<Seq<char>>) -> Option<Seq<char>>
    decreases attributes.len(),
{
    if attributes.len() == 0 {
        None
    } else if value_of(attributes[0], "boundary="@) is Some {
        value_of(attributes[0], "boundary="@)
    } else {
        first_boundary(attributes.skip(1))
    }
}

/// The boundary that a content type announces, if it is that of a form.
pub open spec fn boundary_of(content_type: Seq<char>) -> Option<Seq<char>> {
    if text::begins(content_type, "multipart/form-data"@) {
        first_boundary(text::pieces(content_type, seq![';']))
    } else {
        None
    }
}

/// The boundary that a content type announces, if it is that of a form.
pub fn multipart_boundary(content_type: &str) -> (boundary: Option<String>)
    ensures
        text::shown(boundary) == boundary_of(content_type@),
{
    let chars: Vec<char> = text::chars_of(content_type);
    let form: Vec<char> = text::chars_of("multipart/form-data");
    if !text::starts_with(chars.as_slice(), form.as_slice()) {
        return None;
    }
    let parts: Vec<&[char]> = text::split_char(chars.as_slice(), ';');
    let ghost all = text::contents(parts@);
    let mut i: usize = 0;
    assert(all.skip(0) =~= all);
    while i < parts.len()
        invariant
            i <= parts@.len(),
            all == text::contents(parts@),
            boundary_of(content_type@) == first_boundary(all.skip(i as int)),
        decreases parts@.len() - i,
    {
        assert(all.skip(i as int).skip(1) =~= all.skip(i + 1));
        assert(all.skip(i as int)[0] == parts@[i as int]@);
        if let Some(value) = attribute_value(parts[i], "boundary=") {
            return Some(text::text_of(value));
        }
        i += 1;
    }
    None
}

// ------------------------------------------------------------------ file names

/// A character that may stand in the name of an uploaded file.
pub open spec fn is_name_char(c: char) -> bool {
    ||| '0' <= c <= '9'
    ||| 'a' <= c <= 'z'
    ||| 'A' <= c <= 'Z'
    ||| c == '.'
    ||| c == '-'
    ||| c == '_'
}

/// The characters of a name that may stay.
pub open spec fn name_chars(s: Seq<char>) -> Seq<char>
    decreases s.len(),
{
    if s.len() == 0 {
        seq![]
    } else if is_name_char(s.last()) {
        name_chars(s.drop_last()).push(s.last())
    } else {
        name_chars(s.drop_last())
    }
}

/// The name under which a file is stored: the last part of the one that it was
/// sent with, and of that the characters that may stay. What is left may be nothing,
/// or name a directory; neither is the name of a file.
pub open spec fn stored_name(name: Seq<char>) -> Seq<char> {
    let clean = name_chars(text::behind_last(name, text::CharClass::Either('/', '\\')));
    if clean.len() == 0 || clean == "."@ || clean == ".."@ {
        "upload"@
    } else {
        clean
    }
}

/// Keep only the base name; no directories, no weird characters.
pub fn sanitize_filename(name: &str) -> (clean: String)
    ensures
        clean@ == stored_name(name@),
{
    let chars: Vec<char> = text::chars_of(name);
    let (_, base): (&[char], &[char]) = text::split_behind_last(
        chars.as_slice(),
        &text::CharClass::Either('/', '\\'),
    );
    let mut clean: Vec<char> = Vec::new();
    let mut i: usize = 0;
    assert(base@.take(0) =~= seq![]);
    while i < base.len()
        invariant
            i <= base.len(),
            clean@ == name_chars(base@.take(i as int)),
        decreases base.len() - i,
    {
        let c: char = base[i];
        assert(base@.take(i + 1).drop_last() =~= base@.take(i as int));
        assert(base@.take(i + 1).last() == c);
        if ('0' <= c && c <= '9') || ('a' <= c && c <= 'z') || ('A' <= c && c <= 'Z') || c == '.'
            || c == '-' || c == '_' {
            clean.push(c);
        }
        i += 1;
    }
    assert(base@.take(i as int) =~= base@);
    if clean.len() == 0 || text::spells(clean.as_slice(), ".") || text::spells(
        clean.as_slice(),
        "..",
    ) {
        "upload".to_owned()
    } else {
        text::text_of(clean.as_slice())
    }
}

proof fn lemma_name_chars(s: Seq<char>)
    ensures
        forall|i: int| 0 <= i < name_chars(s).len() ==> is_name_char(#[trigger] name_chars(s)[i]),
    decreases s.len(),
{
    if s.len() > 0 {
        lemma_name_chars(s.drop_last());
        let rest = name_chars(s.drop_last());
        assert forall|i: int| 0 <= i < name_chars(s).len() implies is_name_char(
            #[trigger] name_chars(s)[i],
        ) by {
            if i < rest.len() {
                assert(name_chars(s)[i] == rest[i]);
            }
        }
    }
}

proof fn lemma_clean_name(s: Seq<char>)
    requires
        forall|i: int| 0 <= i < s.len() ==> is_name_char(#[trigger] s[i]),
    ensures
        name_chars(s) == s,
    decreases s.len(),
{
    if s.len() > 0 {
        assert forall|i: int| 0 <= i < s.drop_last().len() implies is_name_char(
            #[trigger] s.drop_last()[i],
        ) by {
            assert(is_name_char(s[i]));
        }
        lemma_clean_name(s.drop_last());
        assert(s.drop_last().push(s.last()) =~= s);
    } else {
        assert(s =~= seq![]);
    }
}

/// A stored name is not empty and has only letters, digits, dots, hyphens and
/// underscores, so no separator, and it does not name a directory; a name that is
/// stored once is stored again as it is.
pub proof fn stored_name_is_clean(name: Seq<char>)
    ensures
        stored_name(name).len() > 0,
        forall|i: int| 0 <= i < stored_name(name).len() ==> is_name_char(#[trigger] stored_name(name)[i]),
        stored_name(name) != "."@,
        stored_name(name) != ".."@,
        stored_name(stored_name(name)) == stored_name(name),
{
    reveal_strlit("upload");
    reveal_strlit(".");
    reveal_strlit("..");
    assert("upload"@.len() == 6 && "."@.len() == 1 && ".."@.len() == 2);
    let class = text::CharClass::Either('/', '\\');
    lemma_name_chars(text::behind_last(name, class));
    let s = stored_name(name);
    text::lemma_tail_length(s, class);
    if text::tail_length(s, class) < s.len() {
        let k = s.len() - text::tail_length(s, class) - 1;
        assert(is_name_char(s[k]));
    }
    assert(text::behind_last(s, class) =~= s);
    lemma_clean_name(s);
}

/// A stored file lies in the directory that it is put into: its path is the
/// directory with one name behind it, and the name does not lead up.
pub proof fn stored_file_stays_in_the_directory(dir: Seq<char>, name: Seq<char>)
    ensures
        text::begins(paths::joined(dir, stored_name(name)), dir),
        text::pieces(stored_name(name), seq!['/']) == seq![stored_name(name)],
        !paths::goes_up(stored_name(name)),
{
    stored_name_is_clean(name);
    let s = stored_name(name);
    assert(is_name_char(s[0]));
    assert forall|i: int| 0 <= i < s.len() implies s[i] != '/' by {
        assert(is_name_char(s[i]));
    }
    text::lemma_first_index_absent(s, '/');
    assert(paths::joined(dir, s).subrange(0, dir.len() as int) =~= dir);
}

/// The last file name among the attributes; `found` is what came before.
pub open spec fn last_name(attributes: Seq<Seq<char>>, found: Option<Seq<char>>) -> Option<Seq<char>>
    decreases attributes.len(),
{
    if attributes.len() == 0 {
        found
    } else {
        let next = match value_of(attributes[0], "filename="@) {
            Some(name) => if name.len() > 0 {
                Some(stored_name(name))
            } else {
                found
            },
            None => found,
        };
        last_name(attributes.skip(1), next)
    }
}

/// The last file name in the lines; `found` is what came before.
pub open spec fn name_in_lines(lines: Seq<Seq<char>>, found: Option<Seq<char>>) -> Option<Seq<char>>
    decreases lines.len(),
{
    if lines.len() == 0 {
        found
    } else {
        let next = if text::begins(text::lowered(lines[0]), "content-disposition"@) {
            last_name(text::pieces(lines[0], seq![';']), found)
        } else {
            found
        };
        name_in_lines(lines.skip(1), next)
    }
}

/// The name under which the part of a form with these headers is stored.
pub open spec fn name_in_headers(headers: Seq<char>) -> Option<Seq<char>> {
    name_in_lines(text::pieces(headers, text::line_end()), None)
}

/// The last file name in a line.
fn name_in_line(line: &[char], found: Option<String>) -> (name: Option<String>)
    ensures
        text::shown(name) == last_name(text::pieces(line@, seq![';']), text::shown(found)),
{
    let attributes: Vec<&[char]> = text::split_char(line, ';');
    let ghost all = text::contents(attributes@);
    let mut name: Option<String> = found;
    let mut i: usize = 0;
    assert(all.skip(0) =~= all);
    while i < attributes.len()
        invariant
            i <= attributes@.len(),
            all == text::contents(attributes@),
            last_name(all.skip(i as int), text::shown(name)) == last_name(all, text::shown(found)),
        decreases attributes@.len() - i,
    {
        assert(all.skip(i as int).skip(1) =~= all.skip(i + 1));
        assert(all.skip(i as int)[0] == attributes@[i as int]@);
        if let Some(value) = attribute_value(attributes[i], "filename=") {
            if value.len() > 0 {
                name = Some(sanitize_filename(text::text_of(value).as_str()));
            }
        }
        i += 1;
    }
    name
}

/// The name under which the part of a form with these headers is stored.
pub fn filename_in(headers: &str) -> (name: Option<String>)
    ensures
        text::shown(name) == name_in_headers(headers@),
{
    let chars: Vec<char> = text::chars_of(headers);
    let lines: Vec<&[char]> = text::split_lines(chars.as_slice());
    let ghost all = text::contents(lines@);
    let wanted: Vec<char> = text::chars_of("content-disposition");
    let mut name: Option<String> = None;
    let mut i: usize = 0;
    assert(all.skip(0) =~= all);
    while i < lines.len()
        invariant
            i <= lines@.len(),
            all == text::contents(lines@),
            wanted@ == "content-disposition"@,
            name_in_lines(all.skip(i as int), text::shown(name)) == name_in_headers(headers@),
        decreases lines@.len() - i,
    {
        assert(all.skip(i as int).skip(1) =~= all.skip(i + 1));
        assert(all.skip(i as int)[0] == lines@[i as int]@);
        let lower: Vec<char> = text::to_ascii_lowercase(lines[i]);
        if text::starts_with(lower.as_slice(), wanted.as_slice()) {
            name = name_in_line(lines[i], name);
        }
        i += 1;
    }
    name
}

// ------------------------------------------------------------------- the parts

/// What stands between the parts of a form.
pub open spec fn delimiter(boundary: Seq<char>) -> Seq<u8> {
    vstd::utf8::encode_utf8("--"@ + boundary)
}

/// The two hyphens behind the last delimiter.
pub open spec fn closing() -> Seq<u8> {
    seq![45u8, 45u8]
}

/// A part without the line breaks around it. Where the one at its end is missing,
/// the part stays as it is.
pub open spec fn stripped(section: Seq<u8>) -> Seq<u8> {
    let front = if text::begins(section, text::crlf()) {
        section.skip(2)
    } else {
        section
    };
    if text::ends(front, text::crlf()) {
        front.take(front.len() - 2)
    } else {
        section
    }
}

/// The file in a part of a form: a part has headers, a blank line and its content.
pub open spec fn file_in(section: Seq<u8>) -> Option<FileView> {
    let s = stripped(section);
    match text::first_index(s, text::blank_line()) {
        Some(end) => match name_in_headers(text::lossily(s.take(end))) {
            Some(name) => Some(FileView { name, content: s.skip(end + 4) }),
            None => None,
        },
        None => None,
    }
}

/// The files in the parts of a form up to the closing one.
pub open spec fn files_in(sections: Seq<Seq<u8>>) -> Seq<FileView>
    decreases sections.len(),
{
    if sections.len() == 0 || text::begins(sections[0], closing()) {
        seq![]
    } else {
        match file_in(sections[0]) {
            Some(file) => seq![file] + files_in(sections.skip(1)),
            None => files_in(sections.skip(1)),
        }
    }
}

/// The files in a form.
pub open spec fn form_files(body: Seq<u8>, boundary: Seq<char>) -> Seq<FileView> {
    files_in(text::pieces(body, delimiter(boundary)).skip(1))
}

/// The name is one that a file is stored under.
pub open spec fn is_stored_name(name: Seq<char>) -> bool {
    exists|sent: Seq<char>| name == #[trigger] stored_name(sent)
}

proof fn lemma_last_name(attributes: Seq<Seq<char>>, found: Option<Seq<char>>)
    requires
        found matches Some(name) ==> is_stored_name(name),
    ensures
        last_name(attributes, found) matches Some(name) ==> is_stored_name(name),
    decreases attributes.len(),
{
    if attributes.len() > 0 {
        let next = match value_of(attributes[0], "filename="@) {
            Some(name) => if name.len() > 0 {
                Some(stored_name(name))
            } else {
                found
            },
            None => found,
        };
        lemma_last_name(attributes.skip(1), next);
    }
}

proof fn lemma_name_in_lines(lines: Seq<Seq<char>>, found: Option<Seq<char>>)
    requires
        found matches Some(name) ==> is_stored_name(name),
    ensures
        name_in_lines(lines, found) matches Some(name) ==> is_stored_name(name),
    decreases lines.len(),
{
    if lines.len() > 0 {
        lemma_last_name(text::pieces(lines[0], seq![';']), found);
        let next = if text::begins(text::lowered(lines[0]), "content-disposition"@) {
            last_name(text::pieces(lines[0], seq![';']), found)
        } else {
            found
        };
        lemma_name_in_lines(lines.skip(1), next);
    }
}

proof fn lemma_files_in(sections: Seq<Seq<u8>>, i: int)
    requires
        0 <= i < files_in(sections).len(),
    ensures
        is_stored_name(files_in(sections)[i].name),
    decreases sections.len(),
{
    let more = sections.skip(1);
    match file_in(sections[0]) {
        Some(file) => {
            let s = stripped(sections[0]);
            let end = text::first_index(s, text::blank_line())->0;
            lemma_name_in_lines(
                text::pieces(text::lossily(s.take(end)), text::line_end()),
                None,
            );
            if i > 0 {
                lemma_files_in(more, i - 1);
            }
        },
        None => {
            lemma_files_in(more, i);
        },
    }
}

/// Every file in a form goes by a name that a file can be stored under: it is not
/// empty, has no separator in it and does not name a directory.
pub proof fn every_file_has_a_clean_name(body: Seq<u8>, boundary: Seq<char>, i: int)
    requires
        0 <= i < form_files(body, boundary).len(),
    ensures
        form_files(body, boundary)[i].name.len() > 0,
        form_files(body, boundary)[i].name != "."@,
        form_files(body, boundary)[i].name != ".."@,
        forall|j: int|
            0 <= j < form_files(body, boundary)[i].name.len() ==> is_name_char(
                #[trigger] form_files(body, boundary)[i].name[j],
            ),
{
    lemma_files_in(text::pieces(body, delimiter(boundary)).skip(1), i);
    let name = form_files(body, boundary)[i].name;
    let sent = choose|sent: Seq<char>| name == #[trigger] stored_name(sent);
    stored_name_is_clean(sent);
}

/// A part without the line breaks around it.
fn strip_section<'a>(section: &'a [u8]) -> (s: &'a [u8])
    ensures
        s@ == stripped(section@),
{
    let sep: [u8; 2] = [13, 10];
    assert(sep@ =~= text::crlf());
    let front: &'a [u8] = if text::starts_with(section, &sep) {
        slice_subrange(section, 2, section.len())
    } else {
        section
    };
    assert(text::begins(section@, text::crlf()) ==> front@ =~= section@.skip(2));
    if text::ends_with(front, &sep) {
        let s: &'a [u8] = slice_subrange(front, 0, front.len() - 2);
        assert(s@ =~= front@.take(front@.len() - 2));
        s
    } else {
        section
    }
}

/// The file in a part of a form.
fn read_section(section: &[u8]) -> (file: Option<UploadedFile>)
    ensures
        match file {
            Some(f) => file_in(section@) == Some(f@),
            None => file_in(section@) is None,
        },
{
    let s: &[u8] = strip_section(section);
    let header_end: usize = match text::find_blank_line(s) {
        Some(end) => end,
        None => {
            return None;
        },
    };
    let header_bytes: &[u8] = slice_subrange(s, 0, header_end);
    assert(header_bytes@ =~= s@.take(header_end as int));
    let headers: String = text::from_utf8_lossy(header_bytes);
    match filename_in(headers.as_str()) {
        Some(name) => {
            let content: Vec<u8> = slice_to_vec(slice_subrange(s, header_end + 4, s.len()));
            assert(content@ =~= s@.skip(header_end + 4));
            Some(UploadedFile { name, content })
        },
        None => None,
    }
}

/// Minimal multipart/form-data parser: every part that has a filename, with the
/// name under which it is stored.
pub fn parse_multipart(body: &[u8], boundary: &str) -> (files: Vec<UploadedFile>)
    ensures
        file_views(files@) == form_files(body@, boundary@),
{
    let mut mark: Vec<char> = text::chars_of("--");
    text::push_text(&mut mark, boundary);
    let mark: String = text::text_of(mark.as_slice());
    let sections: Vec<&[u8]> = text::split(body, mark.as_str().as_bytes());
    let ghost all = text::contents(sections@);
    let ghost whole = form_files(body@, boundary@);
    let end: [u8; 2] = [45, 45];
    assert(end@ =~= closing());
    let mut files: Vec<UploadedFile> = Vec::new();
    // What stands before the first boundary is no part.
    let mut i: usize = 1;
    assert(file_views(files@) + whole =~= whole);
    while i < sections.len()
        invariant
            1 <= i <= sections@.len(),
            all == text::contents(sections@),
            end@ == closing(),
            whole == file_views(files@) + files_in(all.skip(i as int)),
        ensures
            whole == file_views(files@),
        decreases sections@.len() - i,
    {
        assert(all.skip(i as int).skip(1) =~= all.skip(i + 1));
        assert(all.skip(i as int)[0] == sections@[i as int]@);
        let ghost before = file_views(files@);
        // The closing delimiter section starts with "--".
        if text::starts_with(sections[i], &end) {
            assert(before + Seq::<FileView>::empty() =~= before);
            break;
        }
        if let Some(file) = read_section(sections[i]) {
            let ghost f = file@;
            files.push(file);
            proof {
                let rest = files_in(all.skip(i + 1));
                assert(file_views(files@) =~= before.push(f));
                assert(before + (seq![f] + rest) =~= before.push(f) + rest);
            }
        }
        i += 1;
        proof {
            if i == sections@.len() {
                assert(files_in(all.skip(i as int)) =~= seq![]);
                assert(file_views(files@) + Seq::<FileView>::empty() =~= file_views(files@));
            }
        }
    }
    files
}

// --------------------------------------------------------- forms and their files

/// A part of a form as it is sent: headers and content.
pub struct Part {
    pub headers: Seq<u8>,
    pub content: Seq<u8>,
}

impl Part {
    /// The bytes between two delimiters.
    pub open spec fn section(self) -> Seq<u8> {
        text::crlf() + self.headers + text::blank_line() + self.content + text::crlf()
    }

    /// The delimiter does not stand in the part, and the blank line behind the
    /// headers is the first one.
    pub open spec fn fits(self, mark: Seq<u8>) -> bool {
        &&& !text::holds(self.headers, mark)
        &&& !text::holds(self.content, mark)
        &&& text::first_index(self.headers + text::blank_line(), text::blank_line()) == Some(
            self.headers.len() as int,
        )
    }
}

/// What follows the first delimiter of a form.
pub open spec fn parts_sent(parts: Seq<Part>, mark: Seq<u8>) -> Seq<u8>
    decreases parts.len(),
{
    if parts.len() == 0 {
        closing() + text::crlf()
    } else {
        parts[0].section() + mark + parts_sent(parts.skip(1), mark)
    }
}

/// A form as it is sent.
pub open spec fn form_sent(parts: Seq<Part>, boundary: Seq<char>) -> Seq<u8> {
    delimiter(boundary) + parts_sent(parts, delimiter(boundary))
}

/// The files among the parts of a form.
pub open spec fn files_sent(parts: Seq<Part>) -> Seq<FileView>
    decreases parts.len(),
{
    if parts.len() == 0 {
        seq![]
    } else {
        match name_in_headers(text::lossily(parts[0].headers)) {
            Some(name) => seq![FileView { name, content: parts[0].content }] + files_sent(
                parts.skip(1),
            ),
            None => files_sent(parts.skip(1)),
        }
    }
}

/// A boundary that can be told from what it sets apart: it is not empty and has no
/// line break.
pub open spec fn usable(boundary: Seq<char>) -> bool {
    &&& boundary.len() > 0
    &&& forall|i: int| 0 <= i < delimiter(boundary).len() ==> #[trigger] delimiter(boundary)[i] != 13
}

/// The delimiter begins with two hyphens and goes on behind them.
pub proof fn lemma_delimiter(boundary: Seq<char>)
    requires
        boundary.len() > 0,
    ensures
        delimiter(boundary).len() > 2,
        delimiter(boundary)[0] == 45,
        delimiter(boundary)[1] == 45,
{
    reveal_strlit("--");
    text::lemma_bytes_of_parts("--"@, boundary);
    vstd::utf8::is_ascii_chars_encode_utf8("--"@);
    assert("--"@[0] as u8 == vstd::utf8::encode_utf8("--"@)[0]);
    assert("--"@[1] as u8 == vstd::utf8::encode_utf8("--"@)[1]);
    let first = vstd::utf8::encode_scalar(boundary[0] as u32);
    assert(vstd::utf8::encode_utf8(boundary) == first + vstd::utf8::encode_utf8(
        boundary.drop_first(),
    ));
}

/// A window that has none of the symbols at `from` and `to`, and does not begin
/// before the one, ends before the other.
proof fn lemma_window_within(whole: Seq<u8>, part: Seq<u8>, mark: Seq<u8>, from: int, j: int)
    requires
        0 <= from <= j < from + part.len(),
        from + part.len() < whole.len(),
        whole.subrange(from, from + part.len()) == part,
        whole[from + part.len()] == 13,
        mark.len() > 0,
        forall|i: int| 0 <= i < mark.len() ==> #[trigger] mark[i] != 13,
        text::occurs_at(whole, mark, j),
    ensures
        text::holds(part, mark),
{
    let w = whole.subrange(j, j + mark.len());
    if j + mark.len() > from + part.len() {
        let k = from + part.len() - j;
        assert(w[k] == whole[from + part.len()]);
        assert(mark[k] != 13);
    }
    assert(part.subrange(j - from, j - from + mark.len()) =~= w) by {
        assert forall|i: int| 0 <= i < mark.len() implies #[trigger] part.subrange(
            j - from,
            j - from + mark.len(),
        )[i] == w[i] by {
            assert(whole.subrange(from, from + part.len())[j - from + i] == whole[j + i]);
        }
    }
    text::lemma_index_from(part, mark, 0);
    assert(text::occurs_at(part, mark, j - from));
}

/// The first delimiter behind the front of a part is the one behind the part.
proof fn lemma_section_found(part: Part, boundary: Seq<char>, rest: Seq<u8>)
    requires
        usable(boundary),
        part.fits(delimiter(boundary)),
    ensures
        text::first_index(part.section() + delimiter(boundary) + rest, delimiter(boundary)) == Some(
            part.section().len() as int,
        ),
{
    let mark = delimiter(boundary);
    let s = part.section();
    let whole = s + mark + rest;
    let h = part.headers.len() as int;
    let c = part.content.len() as int;
    lemma_delimiter(boundary);
    assert(whole.subrange(s.len() as int, (s.len() + mark.len()) as int) =~= mark);
    assert(whole.subrange(2, 2 + h) =~= part.headers);
    assert(whole.subrange(2 + h + 4, 2 + h + 4 + c) =~= part.content);
    assert forall|j: int| 0 <= j < s.len() implies !text::occurs_at(whole, mark, j) by {
        if text::occurs_at(whole, mark, j) {
            assert(whole.subrange(j, j + mark.len())[0] == whole[j]);
            assert(whole[j] == 45);
            assert(whole[j] == s[j]);
            if j < 2 || 2 + h <= j < 2 + h + 4 || j >= 2 + h + 4 + c {
                assert(s[j] == 13 || s[j] == 10);
            } else if j < 2 + h {
                lemma_window_within(whole, part.headers, mark, 2, j);
            } else {
                lemma_window_within(whole, part.content, mark, 2 + h + 4, j);
            }
        }
    }
    text::lemma_first_index_is(whole, mark, s.len() as int);
}

/// A part is read as it was sent.
proof fn lemma_section_read(part: Part, mark: Seq<u8>)
    requires
        part.fits(mark),
    ensures
        !text::begins(part.section(), closing()),
        file_in(part.section()) == match name_in_headers(text::lossily(part.headers)) {
            Some(name) => Some(FileView { name, content: part.content }),
            None => None,
        },
{
    let s = part.section();
    let inner = part.headers + text::blank_line() + part.content;
    assert(s.subrange(0, 2) =~= text::crlf());
    assert(s.subrange(0, 2)[0] == 13);
    let front = s.skip(2);
    assert(front =~= inner + text::crlf());
    assert(front.subrange(front.len() - 2, front.len() as int) =~= text::crlf());
    assert(front.take(front.len() - 2) =~= inner);
    let n = part.headers.len() as int;
    let head = part.headers + text::blank_line();
    assert(inner.take(n + 4) =~= head.take(n + 4));
    text::lemma_first_index_agrees(head, inner, text::blank_line(), n + 4);
    assert(inner.take(n) =~= part.headers);
    assert(inner.skip(n + 4) =~= part.content);
}

proof fn lemma_closing_piece(boundary: Seq<char>)
    requires
        usable(boundary),
    ensures
        text::pieces(closing() + text::crlf(), delimiter(boundary)) == seq![
            closing() + text::crlf(),
        ],
        text::begins(closing() + text::crlf(), closing()),
{
    let mark = delimiter(boundary);
    let end = closing() + text::crlf();
    lemma_delimiter(boundary);
    text::lemma_index_from(end, mark, 0);
    if let Some(i) = text::first_index(end, mark) {
        let w = end.subrange(i, i + mark.len());
        assert(w[0] == end[i]);
        assert(w[2] == end[i + 2]);
        assert(mark[2] != 13);
        assert(w[1] == end[i + 1]);
    }
    assert(end.subrange(0, 2) =~= closing());
}

proof fn lemma_parts_read(parts: Seq<Part>, boundary: Seq<char>)
    requires
        usable(boundary),
        forall|i: int| 0 <= i < parts.len() ==> (#[trigger] parts[i]).fits(delimiter(boundary)),
    ensures
        files_in(text::pieces(parts_sent(parts, delimiter(boundary)), delimiter(boundary)))
            == files_sent(parts),
    decreases parts.len(),
{
    let mark = delimiter(boundary);
    let sent = parts_sent(parts, mark);
    if parts.len() == 0 {
        lemma_closing_piece(boundary);
    } else {
        let part = parts[0];
        let rest = parts_sent(parts.skip(1), mark);
        assert forall|i: int| 0 <= i < parts.skip(1).len() implies (#[trigger] parts.skip(
            1,
        )[i]).fits(mark) by {
            assert(parts[i + 1].fits(mark));
        }
        lemma_parts_read(parts.skip(1), boundary);
        lemma_delimiter(boundary);
        lemma_section_found(part, boundary, rest);
        let n = part.section().len() as int;
        assert(sent.take(n) =~= part.section());
        assert(sent.skip(n + mark.len()) =~= rest);
        let pieces = text::pieces(sent, mark);
        assert(pieces == seq![part.section()] + text::pieces(rest, mark));
        assert(pieces.skip(1) =~= text::pieces(rest, mark));
        lemma_section_read(part, mark);
    }
}

/// The files of a form arrive as they were sent: each part with a file name, in
/// order, with its content byte for byte.
pub proof fn form_round_trip(parts: Seq<Part>, boundary: Seq<char>)
    requires
        usable(boundary),
        forall|i: int| 0 <= i < parts.len() ==> (#[trigger] parts[i]).fits(delimiter(boundary)),
    ensures
        form_files(form_sent(parts, boundary), boundary) == files_sent(parts),
{
    let mark = delimiter(boundary);
    let sent = parts_sent(parts, mark);
    let whole = form_sent(parts, boundary);
    lemma_delimiter(boundary);
    lemma_parts_read(parts, boundary);
    assert(whole =~= Seq::<u8>::empty() + mark + sent);
    text::lemma_first_index_behind(Seq::<u8>::empty(), mark, sent);
    assert(whole.skip(mark.len() as int) =~= sent);
    assert(text::pieces(whole, mark).skip(1) =~= text::pieces(sent, mark));
}

proof fn lemma_closed_parts_read(parts: Seq<Part>, boundary: Seq<char>, epilogue: Seq<u8>)
    requires
        usable(boundary),
        forall|i: int| 0 <= i < parts.len() ==> (#[trigger] parts[i]).fits(delimiter(boundary)),
    ensures
        files_in(
            text::pieces(parts_sent(parts, delimiter(boundary)) + epilogue, delimiter(boundary)),
        ) == files_sent(parts),
    decreases parts.len(),
{
    let mark = delimiter(boundary);
    let sent = parts_sent(parts, mark) + epilogue;
    lemma_delimiter(boundary);
    if parts.len() == 0 {
        let pieces = text::pieces(sent, mark);
        text::lemma_index_from(sent, mark, 0);
        if let Some(i) = text::first_index(sent, mark) {
            let w = sent.subrange(i, i + mark.len());
            assert(w[0] == sent[i] && w[1] == sent[i + 1] && w[2] == sent[i + 2]);
            assert(mark[2] != 13);
            assert(i >= 2);
        }
        assert(pieces[0].subrange(0, 2) =~= closing());
    } else {
        let part = parts[0];
        let rest = parts_sent(parts.skip(1), mark) + epilogue;
        assert forall|i: int| 0 <= i < parts.skip(1).len() implies (#[trigger] parts.skip(
            1,
        )[i]).fits(mark) by {
            assert(parts[i + 1].fits(mark));
        }
        lemma_closed_parts_read(parts.skip(1), boundary, epilogue);
        assert(sent =~= part.section() + mark + rest);
        lemma_section_found(part, boundary, rest);
        let n = part.section().len() as int;
        assert(sent.take(n) =~= part.section());
        assert(sent.skip(n + mark.len()) =~= rest);
        let pieces = text::pieces(sent, mark);
        assert(pieces == seq![part.section()] + text::pieces(rest, mark));
        assert(pieces.skip(1) =~= text::pieces(rest, mark));
        lemma_section_read(part, mark);
    }
}

/// What follows the closing delimiter of a form does not matter, even where it looks
/// like a part.
pub proof fn epilogue_is_not_read(parts: Seq<Part>, boundary: Seq<char>, epilogue: Seq<u8>)
    requires
        usable(boundary),
        forall|i: int| 0 <= i < parts.len() ==> (#[trigger] parts[i]).fits(delimiter(boundary)),
    ensures
        form_files(form_sent(parts, boundary) + epilogue, boundary) == files_sent(parts),
{
    let mark = delimiter(boundary);
    let sent = parts_sent(parts, mark) + epilogue;
    let whole = form_sent(parts, boundary) + epilogue;
    lemma_delimiter(boundary);
    lemma_closed_parts_read(parts, boundary, epilogue);
    assert(whole =~= Seq::<u8>::empty() + mark + sent);
    text::lemma_first_index_behind(Seq::<u8>::empty(), mark, sent);
    assert(whole.skip(mark.len() as int) =~= sent);
    assert(text::pieces(whole, mark).skip(1) =~= text::pieces(sent, mark));
}

/// The headers that a browser sends with a file.
pub open spec fn disposition(name: Seq<char>) -> Seq<char> {
    "Content-Disposition: form-data"@ + ";"@ + " name=\"file\""@ + ";"@ + (" "@ + (
    "filename="@ + ("\""@ + name + "\""@)))
}

/// The name that a browser sends with a file is found in the headers.
pub proof fn sent_name_is_found(name: Seq<char>)
    requires
        name.len() > 0,
        forall|i: int|
            0 <= i < name.len() ==> #[trigger] name[i] != '"' && name[i] != ';' && name[i] != '\r',
    ensures
        name_in_headers(disposition(name)) == Some(stored_name(name)),
{
    reveal_strlit("Content-Disposition: form-data");
    reveal_strlit(";");
    reveal_strlit(" name=\"file\"");
    reveal_strlit(" ");
    reveal_strlit("filename=");
    reveal_strlit("\"");
    reveal_strlit("content-disposition");
    let first = "Content-Disposition: form-data"@;
    let second = " name=\"file\""@;
    let quoted = "\""@ + name + "\""@;
    let value = "filename="@ + quoted;
    let third = " "@ + value;
    let line = disposition(name);
    // One line.
    assert forall|i: int| 0 <= i < line.len() implies line[i] != '\r' by {}
    text::lemma_index_from(line, text::line_end(), 0);
    if let Some(i) = text::first_index(line, text::line_end()) {
        assert(line.subrange(i, i + 2)[0] == line[i]);
    }
    assert(text::pieces(line, text::line_end()) =~= seq![line]);
    let lower = text::lowered(line);
    assert(lower.subrange(0, 19) =~= "content-disposition"@);
    // Three attributes.
    let semicolon = seq![';'];
    assert(line =~= first + semicolon + (second + semicolon + third));
    text::lemma_first_index_behind(first, semicolon, second + semicolon + third);
    assert(line.take(first.len() as int) =~= first);
    assert(line.skip(first.len() as int + 1) =~= second + semicolon + third);
    text::lemma_first_index_behind(second, semicolon, third);
    let tail = second + semicolon + third;
    assert(tail.take(second.len() as int) =~= second);
    assert(tail.skip(second.len() as int + 1) =~= third);
    assert forall|i: int| 0 <= i < third.len() implies third[i] != ';' by {}
    text::lemma_first_index_absent(third, ';');
    assert(text::pieces(third, semicolon) =~= seq![third]);
    let attributes = text::pieces(line, semicolon);
    assert(text::pieces(tail, semicolon) == seq![second] + text::pieces(third, semicolon));
    assert(text::pieces(tail, semicolon) =~= seq![second, third]);
    assert(attributes == seq![first] + text::pieces(tail, semicolon));
    assert(attributes =~= seq![first, second, third]);
    // The first two name no file.
    let key = "filename="@;
    text::lemma_trimmed_as_is(first);
    assert(first.subrange(0, 9)[0] == 'C');
    assert(second.drop_first()[0] == 'n');
    text::lemma_trimmed_as_is(second.drop_first());
    assert(text::trimmed(second) == second.drop_first());
    assert(second.drop_first().subrange(0, 9)[0] == 'n');
    // The third does.
    assert(third.drop_first() =~= value);
    assert(value[0] == 'f');
    assert(value.last() == '"');
    text::lemma_trimmed_as_is(value);
    assert(text::trimmed(third) == value);
    assert(value.subrange(0, 9) =~= key);
    assert(value.skip(9) =~= quoted);
    let quote = text::CharClass::Only('"');
    assert(quoted.drop_first() =~= name + "\""@);
    assert((name + "\""@)[0] == name[0]);
    assert(text::drop_leading(quoted, quote) == name + "\""@) by {
        reveal_with_fuel(text::drop_leading, 2);
    }
    assert((name + "\""@).drop_last() =~= name);
    assert(name.last() == name[name.len() - 1]);
    assert(text::trimmed_of(quoted, quote) == name) by {
        reveal_with_fuel(text::drop_trailing, 2);
    }
    assert(value_of(third, key) == Some(name));
    assert(attributes.skip(1) =~= seq![second, third]);
    assert(attributes.skip(1).skip(1) =~= seq![third]);
    assert(attributes.skip(1).skip(1).skip(1) =~= seq![]);
    reveal_with_fuel(last_name, 4);
    assert(last_name(attributes, None) == Some(stored_name(name)));
    assert(seq![line].skip(1) =~= seq![]);
    reveal_with_fuel(name_in_lines, 2);
}

/// An upload is stored byte for byte: the form that a browser sends with a file
/// gives the content that went in, whatever bytes it has, under the name that it
/// was sent with.
pub proof fn upload_round_trip(name: Seq<char>, content: Seq<u8>, boundary: Seq<char>)
    requires
        usable(boundary),
        name.len() > 0,
        forall|i: int|
            0 <= i < name.len() ==> #[trigger] name[i] != '"' && name[i] != ';' && name[i] != '\r',
        (Part { headers: vstd::utf8::encode_utf8(disposition(name)), content }).fits(
            delimiter(boundary),
        ),
    ensures
        form_files(
            form_sent(
                seq![Part { headers: vstd::utf8::encode_utf8(disposition(name)), content }],
                boundary,
            ),
            boundary,
        ) == seq![FileView { name: stored_name(name), content }],
{
    let part = Part { headers: vstd::utf8::encode_utf8(disposition(name)), content };
    let parts = seq![part];
    form_round_trip(parts, boundary);
    sent_name_is_found(name);
    vstd::utf8::encode_utf8_valid_utf8(disposition(name));
    vstd::utf8::encode_utf8_decode_utf8(disposition(name));
    assert(parts.skip(1) =~= seq![]);
    assert(files_sent(parts.skip(1)) =~= seq![]);
    let file = FileView { name: stored_name(name), content };
    assert(seq![file] + Seq::<FileView>::empty() =~= seq![file]);
}

} // verus!
