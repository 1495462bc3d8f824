//! Forms as browsers send them, and what is stored of them.

use vstd::prelude::*;

use crate::clients;
use crate::framing;
use crate::text;
use crate::uploads;
use crate::uploads::{FileView, Part};

verus! {

// --------------------------------------------------------------------- boundaries

/// Parameters of a media type, each behind a semicolon and a space.
pub open spec fn parameters(words: Seq<Seq<char>>) -> Seq<char>
    decreases words.len(),
{
    if words.len() == 0 {
        seq![]
    } else {
        seq![';'] + (seq![' '] + words[0]) + parameters(words.skip(1))
    }
}

/// A value with quotes around it or without.
pub open spec fn perhaps_quoted(value: Seq<char>, quoted: bool) -> Seq<char> {
    if quoted {
        seq!['"'] + value + seq!['"']
    } else {
        value
    }
}

proof fn lemma_first_piece(first: Seq<char>, rest: Seq<char>)
    requires
        framing::free_of(first, ';'),
        rest.len() > 0 ==> rest[0] == ';',
    ensures
        text::pieces(first + rest, seq![';']) == if rest.len() == 0 {
            seq![first]
        } else {
            seq![first] + text::pieces(rest.skip(1), seq![';'])
        },
{
    let sep = seq![';'];
    if rest.len() == 0 {
        assert(first + rest =~= first);
        text::lemma_first_index_absent(first, ';');
    } else {
        assert(first + rest =~= first + sep + rest.skip(1));
        text::lemma_first_index_behind(first, sep, rest.skip(1));
        assert((first + rest).take(first.len() as int) =~= first);
        assert((first + rest).skip(first.len() as int + 1) =~= rest.skip(1));
    }
}

proof fn lemma_parameters_begin(words: Seq<Seq<char>>, rest: Seq<char>)
    requires
        rest.len() > 0 ==> rest[0] == ';',
    ensures
        (parameters(words) + rest).len() > 0 ==> (parameters(words) + rest)[0] == ';',
{
    if words.len() == 0 {
        assert(parameters(words) + rest =~= rest);
    }
}

proof fn lemma_spaced(word: Seq<char>)
    requires
        framing::tight(word),
    ensures
        text::trimmed(seq![' '] + word) == word,
{
    let s = seq![' '] + word;
    assert(s.drop_first() =~= word);
    text::lemma_trimmed_as_is(word);
    reveal_with_fuel(text::drop_leading, 2);
    assert(text::is_space(s[0]));
}

proof fn lemma_quotes(value: Seq<char>, quoted: bool)
    requires
        framing::free_of(value, '"'),
    ensures
        text::trimmed_of(perhaps_quoted(value, quoted), text::CharClass::Only('"')) == value,
{
    let class = text::CharClass::Only('"');
    let s = perhaps_quoted(value, quoted);
    reveal_with_fuel(text::drop_leading, 3);
    reveal_with_fuel(text::drop_trailing, 3);
    if quoted {
        let tail = value + seq!['"'];
        assert(s.drop_first() =~= tail);
        assert(tail.drop_last() =~= value);
        if value.len() > 0 {
            assert(tail[0] == value[0]);
            assert(value.last() == value[value.len() - 1]);
            assert(text::drop_leading(s, class) == tail);
        } else {
            assert(tail.drop_first() =~= value);
            assert(value =~= seq![]);
        }
    } else if value.len() > 0 {
        assert(value.last() == value[value.len() - 1]);
    }
}

/// Something that is not the boundary.
pub open spec fn other_parameter(word: Seq<char>) -> bool {
    &&& word.len() > 0
    &&& word[0] != 'b'
    &&& framing::tight(word)
    &&& framing::free_of(word, ';')
}

proof fn lemma_no_boundary(attribute: Seq<char>, word: Seq<char>)
    requires
        text::trimmed(attribute) == word,
        word.len() > 0 ==> word[0] != 'b',
    ensures
        uploads::value_of(attribute, "boundary="@) is None,
{
    reveal_strlit("boundary=");
    if text::begins(word, "boundary="@) {
        assert(word.subrange(0, 9)[0] == 'b');
    }
}

proof fn lemma_boundary_found(others: Seq<Seq<char>>, boundary: Seq<char>, quoted: bool, rest: Seq<char>)
    requires
        forall|i: int| 0 <= i < others.len() ==> other_parameter(#[trigger] others[i]),
        framing::free_of(boundary, ';'),
        framing::free_of(boundary, '"'),
        framing::tight(boundary),
        rest.len() > 0 ==> rest[0] == ';',
    ensures
        ({
            let whole = parameters(others) + (seq![';'] + (seq![' '] + ("boundary="@
                + perhaps_quoted(boundary, quoted))) + rest);
            uploads::first_boundary(text::pieces(whole.skip(1), seq![';'])) == Some(boundary)
        }),
    decreases others.len(),
{
    reveal_strlit("boundary=");
    let named = "boundary="@ + perhaps_quoted(boundary, quoted);
    let spaced = seq![' '] + named;
    let end = seq![';'] + spaced + rest;
    let whole = parameters(others) + end;
    if others.len() == 0 {
        assert(whole.skip(1) =~= spaced + rest);
        assert(framing::free_of(spaced, ';'));
        lemma_first_piece(spaced, rest);
        assert(framing::tight(named));
        lemma_spaced(named);
        assert(named.subrange(0, 9) =~= "boundary="@);
        assert(named.skip(9) =~= perhaps_quoted(boundary, quoted));
        lemma_quotes(boundary, quoted);
        assert(uploads::value_of(spaced, "boundary="@) == Some(boundary));
        assert(text::pieces(whole.skip(1), seq![';'])[0] == spaced);
    } else {
        let word = others[0];
        let more = others.skip(1);
        assert(other_parameter(word));
        assert forall|i: int| 0 <= i < more.len() implies other_parameter(#[trigger] more[i]) by {
            assert(more[i] == others[i + 1]);
        }
        lemma_boundary_found(more, boundary, quoted, rest);
        let behind = parameters(more) + end;
        lemma_parameters_begin(more, end);
        let first = seq![' '] + word;
        assert(whole.skip(1) =~= first + behind);
        assert(framing::free_of(first, ';'));
        lemma_first_piece(first, behind);
        lemma_spaced(word);
        lemma_no_boundary(first, word);
        let attributes = text::pieces(whole.skip(1), seq![';']);
        assert(attributes.skip(1) =~= text::pieces(behind.skip(1), seq![';']));
        assert(attributes[0] == first);
    }
}

/// A boundary is read as it is announced, letter by letter, with quotes around it or
/// without, wherever it stands among the parameters.
pub proof fn boundary_is_read_as_announced(
    others: Seq<Seq<char>>,
    boundary: Seq<char>,
    quoted: bool,
    rest: Seq<char>,
)
    requires
        forall|i: int| 0 <= i < others.len() ==> other_parameter(#[trigger] others[i]),
        framing::free_of(boundary, ';'),
        framing::free_of(boundary, '"'),
        framing::tight(boundary),
        rest.len() > 0 ==> rest[0] == ';',
    ensures
        uploads::boundary_of(
            "multipart/form-data"@ + (parameters(others) + (seq![';'] + (seq![' '] + ("boundary="@
                + perhaps_quoted(boundary, quoted))) + rest)),
        ) == Some(boundary),
{
    reveal_strlit("multipart/form-data");
    let form = "multipart/form-data"@;
    let end = seq![';'] + (seq![' '] + ("boundary="@ + perhaps_quoted(boundary, quoted))) + rest;
    let behind = parameters(others) + end;
    let whole = form + behind;
    assert(whole.subrange(0, form.len() as int) =~= form);
    assert forall|i: int| 0 <= i < form.len() implies #[trigger] form[i] != ';' by {}
    lemma_parameters_begin(others, end);
    lemma_first_piece(form, behind);
    text::lemma_trimmed_as_is(form);
    lemma_no_boundary(form, form);
    lemma_boundary_found(others, boundary, quoted, rest);
    let attributes = text::pieces(whole, seq![';']);
    assert(attributes.skip(1) =~= text::pieces(behind.skip(1), seq![';']));
    assert(attributes[0] == form);
}

/// What is no form announces no boundary.
pub proof fn other_types_announce_no_boundary(content_type: Seq<char>)
    requires
        content_type.len() < 19 || content_type.take(19) != "multipart/form-data"@,
    ensures
        uploads::boundary_of(content_type) is None,
{
    reveal_strlit("multipart/form-data");
    if content_type.len() >= 19 {
        assert(content_type.subrange(0, 19) =~= content_type.take(19));
    }
}

// -------------------------------------------------------------------- stored names

proof fn lemma_name_chars_parts(a: Seq<char>, b: Seq<char>)
    ensures
        uploads::name_chars(a + b) == uploads::name_chars(a) + uploads::name_chars(b),
    decreases b.len(),
{
    if b.len() == 0 {
        assert(a + b =~= a);
        assert(uploads::name_chars(a) + uploads::name_chars(b) =~= uploads::name_chars(a));
    } else {
        lemma_name_chars_parts(a, b.drop_last());
        assert((a + b).drop_last() =~= a + b.drop_last());
        if uploads::is_name_char(b.last()) {
            assert((uploads::name_chars(a) + uploads::name_chars(b.drop_last())).push(b.last())
                =~= uploads::name_chars(a) + uploads::name_chars(b));
        }
    }
}

/// A letter, a digit, a dot, a hyphen or an underscore.
pub open spec fn may_stay(c: char) -> bool {
    'a' <= c <= 'z' || 'A' <= c <= 'Z' || '0' <= c <= '9' || c == '.' || c == '-' || c == '_'
}

proof fn lemma_all_stay(name: Seq<char>)
    requires
        forall|i: int| 0 <= i < name.len() ==> may_stay(#[trigger] name[i]),
    ensures
        uploads::name_chars(name) == name,
    decreases name.len(),
{
    if name.len() > 0 {
        let front = name.drop_last();
        assert forall|i: int| 0 <= i < front.len() implies may_stay(#[trigger] front[i]) by {
            assert(may_stay(name[i]));
        }
        lemma_all_stay(front);
        assert(may_stay(name[name.len() - 1]));
        assert(front.push(name.last()) =~= name);
    } else {
        assert(name =~= seq![]);
    }
}

proof fn lemma_behind_separator(dir: Seq<char>, base: Seq<char>)
    requires
        framing::free_of(base, '/'),
        framing::free_of(base, '\\'),
        dir.len() > 0 ==> dir.last() == '/' || dir.last() == '\\',
    ensures
        text::behind_last(dir + base, text::CharClass::Either('/', '\\')) == base,
    decreases base.len(),
{
    let class = text::CharClass::Either('/', '\\');
    let whole = dir + base;
    text::lemma_tail_length(whole, class);
    let n = text::tail_length(whole, class);
    if n < base.len() {
        assert(base[base.len() - n - 1] == whole[whole.len() - n - 1]);
    } else if n > base.len() {
        assert(whole[dir.len() - 1] == dir.last());
    }
    assert(whole.skip(whole.len() - n) =~= base);
}

/// A file keeps the name that it was sent with where every character may stay;
/// folders before it are left out, and characters that may not stay are too. What
/// is left of a name that is empty, or one or two dots, is replaced.
pub proof fn name_is_kept_as_far_as_it_may(
    dir: Seq<char>,
    a: Seq<char>,
    c: char,
    b: Seq<char>,
)
    requires
        dir.len() > 0 ==> dir.last() == '/' || dir.last() == '\\',
        framing::free_of(a + b, '/'),
        framing::free_of(a + b, '\\'),
        c != '/' && c != '\\',
        !may_stay(c),
    ensures
        uploads::stored_name(dir + (a + b)) == uploads::stored_name(a + b),
        uploads::stored_name(a + seq![c] + b) == uploads::stored_name(a + b),
        (forall|i: int| 0 <= i < (a + b).len() ==> may_stay(#[trigger] (a + b)[i])) ==> if a + b
            == Seq::<char>::empty() || a + b == seq!['.'] || a + b == seq!['.', '.'] {
            uploads::stored_name(a + b) == "upload"@
        } else {
            uploads::stored_name(a + b) == a + b
        },
{
    reveal_strlit(".");
    reveal_strlit("..");
    assert("."@ =~= seq!['.']);
    assert(".."@ =~= seq!['.', '.']);
    let base = a + b;
    let none = Seq::<char>::empty();
    assert(none + base =~= base);
    lemma_behind_separator(none, base);
    lemma_behind_separator(dir, base);
    let odd = a + seq![c] + b;
    assert forall|i: int| 0 <= i < odd.len() implies #[trigger] odd[i] != '/' && odd[i] != '\\' by {
        if i < a.len() {
            assert(odd[i] == base[i]);
        } else if i > a.len() {
            assert(odd[i] == base[i - 1]);
        }
    }
    assert(none + odd =~= odd);
    lemma_behind_separator(none, odd);
    lemma_name_chars_parts(a, b);
    lemma_name_chars_parts(a + seq![c], b);
    lemma_name_chars_parts(a, seq![c]);
    assert(seq![c].drop_last() =~= none);
    assert(uploads::name_chars(seq![c]) == uploads::name_chars(none));
    assert(uploads::name_chars(a) + uploads::name_chars(seq![c]) =~= uploads::name_chars(a));
    if forall|i: int| 0 <= i < base.len() ==> may_stay(#[trigger] base[i]) {
        lemma_all_stay(base);
    }
}

// ------------------------------------------------------------------- whole forms

/// A field of a form as a browser sends it: what it is called, the name of the file
/// where it is one, further headers, and its content.
pub struct Field {
    pub keyword: Seq<char>,
    pub name: Seq<char>,
    pub filename: Option<Seq<char>>,
    pub extra: Seq<Seq<char>>,
    pub content: Seq<u8>,
}

impl Field {
    /// The header line that names the field.
    pub open spec fn disposition(self) -> Seq<char> {
        let named = self.keyword + ": form-data"@ + (seq![';'] + (" name="@ + (seq!['"'] + self.name
            + seq!['"'])));
        match self.filename {
            Some(f) => named + (seq![';'] + (seq![' '] + ("filename="@ + (seq!['"'] + f
                + seq!['"'])))),
            None => named,
        }
    }

    /// The header lines.
    pub open spec fn lines(self) -> Seq<Seq<char>> {
        seq![self.disposition()] + self.extra
    }

    /// The headers.
    pub open spec fn headers(self) -> Seq<char> {
        framing::joined_lines(self.lines())
    }

    /// The bytes of the field between two boundaries.
    pub open spec fn section(self) -> Seq<u8> {
        seq![13u8, 10u8] + vstd::utf8::encode_utf8(self.headers()) + seq![13u8, 10u8, 13u8, 10u8]
            + self.content + seq![13u8, 10u8]
    }

    /// The field can be sent with the mark between it and others.
    pub open spec fn fits(self, mark: Seq<u8>) -> bool {
        &&& clients::same_but_for_case(self.keyword, "content-disposition"@)
        &&& framing::free_of(self.name, ';') && framing::one_line(self.name)
        &&& self.filename matches Some(f) ==> framing::free_of(f, ';')
            && framing::free_of(f, '"') && framing::one_line(f)
        &&& forall|i: int|
            0 <= i < self.extra.len() ==> {
                let line = #[trigger] self.extra[i];
                &&& line.len() > 0 && framing::one_line(line)
                &&& line.len() < 19 || !clients::same_but_for_case(
                    line.subrange(0, 19),
                    "content-disposition"@,
                )
            }
        &&& !text::holds(vstd::utf8::encode_utf8(self.headers()), mark)
        &&& !text::holds(self.content, mark)
    }

    /// The field as a part of a form.
    spec fn part(self) -> Part {
        Part { headers: vstd::utf8::encode_utf8(self.headers()), content: self.content }
    }
}

/// Two hyphens and the boundary, as bytes.
pub open spec fn mark_of(boundary: Seq<char>) -> Seq<u8> {
    vstd::utf8::encode_utf8(seq!['-', '-'] + boundary)
}

/// What a browser sends behind the first boundary.
pub open spec fn fields_sent(fields: Seq<Field>, mark: Seq<u8>) -> Seq<u8>
    decreases fields.len(),
{
    if fields.len() == 0 {
        seq![45u8, 45u8, 13u8, 10u8]
    } else {
        fields[0].section() + mark + fields_sent(fields.skip(1), mark)
    }
}

/// The files among the fields.
pub open spec fn files_among(fields: Seq<Field>) -> Seq<FileView>
    decreases fields.len(),
{
    if fields.len() == 0 {
        seq![]
    } else {
        match fields[0].filename {
            Some(f) => if f.len() > 0 {
                seq![FileView { name: uploads::stored_name(f), content: fields[0].content }]
                    + files_among(fields.skip(1))
            } else {
                files_among(fields.skip(1))
            },
            None => files_among(fields.skip(1)),
        }
    }
}

/// Every field can be sent.
pub open spec fn fields_fit(fields: Seq<Field>, mark: Seq<u8>) -> bool {
    forall|i: int| 0 <= i < fields.len() ==> (#[trigger] fields[i]).fits(mark)
}

proof fn lemma_no_filename(attribute: Seq<char>, word: Seq<char>)
    requires
        text::trimmed(attribute) == word,
        word.len() > 0,
        word[0] != 'f',
    ensures
        uploads::value_of(attribute, "filename="@) is None,
{
    reveal_strlit("filename=");
    if text::begins(word, "filename="@) {
        assert(word.subrange(0, 9)[0] == 'f');
    }
}

proof fn lemma_keyword()
    ensures
        "content-disposition"@.len() == 19,
        text::lowered("content-disposition"@) == "content-disposition"@,
        "content-disposition"@[0] == 'c',
        framing::free_of("content-disposition"@, ';'),
        forall|i: int| 0 <= i < 19 ==> 'a' <= #[trigger] "content-disposition"@[i] <= 'z'
            || "content-disposition"@[i] == '-',
{
    reveal_strlit("content-disposition");
    assert(text::lowered("content-disposition"@) =~= "content-disposition"@);
}

proof fn lemma_disposition(field: Field, mark: Seq<u8>, found: Option<Seq<char>>)
    requires
        field.fits(mark),
    ensures
        text::begins(text::lowered(field.disposition()), "content-disposition"@),
        uploads::last_name(text::pieces(field.disposition(), seq![';']), found)
            == match field.filename {
            Some(f) => if f.len() > 0 {
                Some(uploads::stored_name(f))
            } else {
                found
            },
            None => found,
        },
        framing::one_line(field.disposition()),
{
    reveal_strlit(": form-data");
    reveal_strlit(" name=");
    reveal_strlit("filename=");
    lemma_keyword();
    let word = "content-disposition"@;
    let line = field.disposition();
    let keyword = field.keyword;
    clients::lemma_same_but_for_case(keyword, word);
    assert(text::lowered(line).subrange(0, 19) =~= text::lowered(keyword));
    let first = keyword + ": form-data"@;
    let quoted = seq!['"'] + field.name + seq!['"'];
    let second = " name="@ + quoted;
    assert forall|i: int| 0 <= i < keyword.len() implies #[trigger] keyword[i] != ';' && keyword[i]
        != '\r' && !text::is_space(keyword[i]) && keyword[i] != 'f' || i > 0 && keyword[i] != ';'
        && keyword[i] != '\r' by {
        let (x, y) = (keyword[i] as int, word[i] as int);
    }
    assert(keyword[0] as int == word[0] as int || keyword[0] as int + 32 == word[0] as int);
    assert(framing::free_of(first, ';'));
    text::lemma_trimmed_as_is(first);
    lemma_no_filename(first, first);
    assert(framing::free_of(second, ';'));
    let named = second.drop_first();
    assert(second =~= seq![' '] + named);
    assert(named[0] == 'n');
    assert(named.last() == '"');
    lemma_spaced(named);
    lemma_no_filename(second, named);
    let attributes = text::pieces(line, seq![';']);
    reveal_with_fuel(uploads::last_name, 4);
    match field.filename {
        Some(f) => {
            let value = "filename="@ + (seq!['"'] + f + seq!['"']);
            let third = seq![' '] + value;
            let end = seq![';'] + third;
            let behind = seq![';'] + second + end;
            assert(line =~= first + behind);
            lemma_first_piece(first, behind);
            assert(behind.skip(1) =~= second + end);
            lemma_first_piece(second, end);
            assert(end.skip(1) =~= third + Seq::<char>::empty());
            assert(framing::free_of(third, ';'));
            lemma_first_piece(third, seq![]);
            assert(attributes =~= seq![first, second, third]);
            assert(value[0] == 'f');
            assert(value.last() == '"');
            lemma_spaced(value);
            assert(value.subrange(0, 9) =~= "filename="@);
            assert(value.skip(9) =~= perhaps_quoted(f, true));
            lemma_quotes(f, true);
            assert(uploads::value_of(third, "filename="@) == Some(f));
            assert(attributes.skip(1) =~= seq![second, third]);
            assert(attributes.skip(1).skip(1) =~= seq![third]);
            assert(attributes.skip(1).skip(1).skip(1) =~= seq![]);
        },
        None => {
            let behind = seq![';'] + second;
            assert(line =~= first + behind);
            lemma_first_piece(first, behind);
            assert(behind.skip(1) =~= second + Seq::<char>::empty());
            lemma_first_piece(second, seq![]);
            assert(attributes =~= seq![first, second]);
            assert(attributes.skip(1) =~= seq![second]);
            assert(attributes.skip(1).skip(1) =~= seq![]);
        },
    }
}

proof fn lemma_extra_lines(extra: Seq<Seq<char>>, found: Option<Seq<char>>)
    requires
        forall|i: int|
            0 <= i < extra.len() ==> (#[trigger] extra[i]).len() < 19
                || !clients::same_but_for_case(extra[i].subrange(0, 19), "content-disposition"@),
    ensures
        uploads::name_in_lines(extra, found) == found,
    decreases extra.len(),
{
    if extra.len() > 0 {
        let more = extra.skip(1);
        assert forall|i: int| 0 <= i < more.len() implies (#[trigger] more[i]).len() < 19
            || !clients::same_but_for_case(more[i].subrange(0, 19), "content-disposition"@) by {
            assert(more[i] == extra[i + 1]);
        }
        lemma_extra_lines(more, found);
        let line = extra[0];
        lemma_keyword();
        if text::begins(text::lowered(line), "content-disposition"@) {
            let part = line.subrange(0, 19);
            assert(text::lowered(part) =~= text::lowered(line).subrange(0, 19));
            clients::lemma_same_but_for_case(part, "content-disposition"@);
        }
    }
}

proof fn lemma_field(field: Field, mark: Seq<u8>)
    requires
        field.fits(mark),
    ensures
        field.part().fits(mark),
        uploads::name_in_headers(text::lossily(field.part().headers)) == match field.filename {
            Some(f) => if f.len() > 0 {
                Some(uploads::stored_name(f))
            } else {
                None
            },
            None => None,
        },
{
    lemma_disposition(field, mark, None);
    let lines = field.lines();
    let t = field.headers();
    assert forall|i: int| 0 <= i < lines.len() implies framing::one_line(#[trigger] lines[i]) && (i
        > 0 ==> lines[i].len() > 0) by {
        if i > 0 {
            assert(lines[i] == field.extra[i - 1]);
        }
    }
    framing::lemma_lines_told_apart(lines);
    framing::lemma_blank_line_found(lines, seq![]);
    let bytes = vstd::utf8::encode_utf8(t);
    assert(bytes + text::blank_line() + Seq::<u8>::empty() =~= bytes + text::blank_line());
    vstd::utf8::encode_utf8_valid_utf8(t);
    vstd::utf8::encode_utf8_decode_utf8(t);
    assert(lines.skip(1) =~= field.extra);
    lemma_extra_lines(
        field.extra,
        match field.filename {
            Some(f) => if f.len() > 0 {
                Some(uploads::stored_name(f))
            } else {
                None
            },
            None => None,
        },
    );
}

spec fn parts_of(fields: Seq<Field>) -> Seq<Part> {
    Seq::new(fields.len(), |i: int| fields[i].part())
}

proof fn lemma_fields(fields: Seq<Field>, mark: Seq<u8>)
    requires
        fields_fit(fields, mark),
    ensures
        fields_sent(fields, mark) == uploads::parts_sent(parts_of(fields), mark),
        files_among(fields) == uploads::files_sent(parts_of(fields)),
        forall|i: int| 0 <= i < fields.len() ==> (#[trigger] parts_of(fields)[i]).fits(mark),
    decreases fields.len(),
{
    let parts = parts_of(fields);
    if fields.len() == 0 {
        assert(fields_sent(fields, mark) =~= uploads::parts_sent(parts, mark));
    } else {
        let more = fields.skip(1);
        assert forall|i: int| 0 <= i < more.len() implies (#[trigger] more[i]).fits(mark) by {
            assert(more[i] == fields[i + 1]);
        }
        lemma_fields(more, mark);
        assert(parts.skip(1) =~= parts_of(more));
        assert(fields[0].fits(mark));
        lemma_field(fields[0], mark);
        assert(fields[0].section() =~= parts[0].section());
        assert forall|i: int| 0 <= i < fields.len() implies (#[trigger] parts[i]).fits(mark) by {
            if i > 0 {
                assert(parts_of(more)[i - 1] == parts[i]);
            }
        }
    }
}

/// The files in a form are stored as a browser sends them: each file under its name,
/// with exactly the bytes between its headers and the next boundary, in order. Other
/// fields are not stored, and neither is a file that was left out and has no name.
/// Further headers of a field, and the case in which the header that names it is
/// written, do not matter.
pub proof fn form_of_a_browser_is_stored(fields: Seq<Field>, boundary: Seq<char>)
    requires
        boundary.len() > 0,
        framing::one_line(boundary),
        fields_fit(fields, mark_of(boundary)),
    ensures
        uploads::form_files(
            mark_of(boundary) + fields_sent(fields, mark_of(boundary)),
            boundary,
        ) == files_among(fields),
{
    reveal_strlit("--");
    let mark = mark_of(boundary);
    assert("--"@ + boundary =~= seq!['-', '-'] + boundary);
    assert(framing::one_line(seq!['-', '-'] + boundary));
    framing::lemma_line_bytes(seq!['-', '-'] + boundary);
    lemma_fields(fields, mark);
    uploads::form_round_trip(parts_of(fields), boundary);
}

/// What stands behind the end of a form does not matter, even where it looks like one
/// more file: the same files are stored.
pub proof fn epilogue_does_not_matter(
    fields: Seq<Field>,
    boundary: Seq<char>,
    epilogue: Seq<u8>,
)
    requires
        boundary.len() > 0,
        framing::one_line(boundary),
        fields_fit(fields, mark_of(boundary)),
    ensures
        uploads::form_files(
            mark_of(boundary) + fields_sent(fields, mark_of(boundary)) + epilogue,
            boundary,
        ) == files_among(fields),
{
    reveal_strlit("--");
    let mark = mark_of(boundary);
    assert("--"@ + boundary =~= seq!['-', '-'] + boundary);
    assert(framing::one_line(seq!['-', '-'] + boundary));
    framing::lemma_line_bytes(seq!['-', '-'] + boundary);
    lemma_fields(fields, mark);
    uploads::epilogue_is_not_read(parts_of(fields), boundary, epilogue);
}

/// What stands before the first boundary of a form does not matter.
pub proof fn preamble_does_not_matter(preamble: Seq<u8>, boundary: Seq<char>, rest: Seq<u8>)
    requires
        boundary.len() > 0,
        forall|i: int| 0 <= i < preamble.len() ==> #[trigger] preamble[i] != 45,
    ensures
        uploads::form_files(preamble + mark_of(boundary) + rest, boundary) == uploads::form_files(
            mark_of(boundary) + rest,
            boundary,
        ),
{
    reveal_strlit("--");
    let mark = mark_of(boundary);
    assert("--"@ + boundary =~= seq!['-', '-'] + boundary);
    uploads::lemma_delimiter(boundary);
    text::lemma_first_index_behind(preamble, mark, rest);
    let whole = preamble + mark + rest;
    assert(whole.skip(preamble.len() as int + mark.len()) =~= rest);
    let none = Seq::<u8>::empty();
    text::lemma_first_index_behind(none, mark, rest);
    assert(none + mark + rest =~= mark + rest);
    assert((mark + rest).skip(mark.len() as int) =~= rest);
    assert(text::pieces(whole, mark).skip(1) =~= text::pieces(rest, mark));
    assert(text::pieces(mark + rest, mark).skip(1) =~= text::pieces(rest, mark));
}

/// The line breaks around a part do not belong to it. A part that has none at its end
/// stays as it is.
pub proof fn only_the_line_breaks_around_a_part_go(part: Seq<u8>)
    ensures
        ({
            let crlf = seq![13u8, 10u8];
            &&& uploads::stripped(crlf + part + crlf) == part
            &&& part.len() > 0 && !(part.len() >= 2 && part.take(2) == crlf)
                ==> uploads::stripped(part + crlf) == part
            &&& !(part.len() >= 2 && part.skip(part.len() - 2) == crlf) && part.len() > 0
                ==> uploads::stripped(crlf + part) == crlf + part
        }),
{
    let crlf = seq![13u8, 10u8];
    assert(text::crlf() =~= crlf);
    let whole = crlf + part + crlf;
    let front = part + crlf;
    assert(whole.subrange(0, 2) =~= crlf);
    assert(whole.take(2) =~= crlf);
    assert(whole.skip(2) =~= front);
    assert(front.skip(part.len() as int) =~= crlf);
    assert(front.subrange(part.len() as int, part.len() as int + 2) =~= crlf);
    assert(front.take(part.len() as int) =~= part);
    if part.len() > 0 {
        assert(front.subrange(0, 2)[0] == part[0]);
        if part.len() >= 2 {
            assert(front.subrange(0, 2) =~= part.take(2));
        } else {
            assert(front.subrange(0, 2)[1] == 13u8);
        }
    }
    assert((crlf + part).skip(2) =~= part);
    if part.len() >= 2 {
        assert(part.subrange(part.len() - 2, part.len() as int) =~= part.skip(part.len() - 2));
    }
    assert((crlf + part).subrange(0, 2) =~= crlf);
}

} // verus!
