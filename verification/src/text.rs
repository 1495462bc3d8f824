//! Text and byte-string primitives: searching, splitting, trimming, letter
//! case, and the conversion between strings and slices of characters.
//!
//! The executable functions work on slices of symbols, so that the same code
//! searches bytes and characters. Each is specified by a function on `Seq`.

use vstd::prelude::*;
use vstd::slice::slice_subrange;

verus! {

/// A symbol of a string: something that can be copied and compared.
pub trait Symbol: Copy {
    fn same(self, other: Self) -> (b: bool)
        ensures
            b == (self == other),
    ;
}

impl Symbol for u8 {
    fn same(self, other: u8) -> (b: bool) {
        self == other
    }
}

impl Symbol for char {
    fn same(self, other: char) -> (b: bool) {
        self == other
    }
}

// ----------------------------------------------------------------- searching

/// `pat` stands in `s` at index `i`.
pub open spec fn occurs_at<T>(s: Seq<T>, pat: Seq<T>, i: int) -> bool {
    &&& 0 <= i
    &&& i + pat.len() <= s.len()
    &&& s.subrange(i, i + pat.len()) == pat
}

/// The first index, not before `from`, at which `pat` stands in `s`.
pub open spec fn index_from<T>(s: Seq<T>, pat: Seq<T>, from: int) -> Option<int>
    decreases s.len() - from + 1,
{
    if from < 0 || from + pat.len() > s.len() {
        None
    } else if occurs_at(s, pat, from) {
        Some(from)
    } else {
        index_from(s, pat, from + 1)
    }
}

/// The first index at which `pat` stands in `s`.
pub open spec fn first_index<T>(s: Seq<T>, pat: Seq<T>) -> Option<int> {
    index_from(s, pat, 0)
}

/// `pat` stands somewhere in `s`.
pub open spec fn holds<T>(s: Seq<T>, pat: Seq<T>) -> bool {
    first_index(s, pat) is Some
}

/// `s` begins with `pat`.
pub open spec fn begins<T>(s: Seq<T>, pat: Seq<T>) -> bool {
    occurs_at(s, pat, 0)
}

/// `s` ends with `pat`.
pub open spec fn ends<T>(s: Seq<T>, pat: Seq<T>) -> bool {
    occurs_at(s, pat, s.len() - pat.len())
}

pub proof fn lemma_index_from<T>(s: Seq<T>, pat: Seq<T>, from: int)
    requires
        0 <= from,
    ensures
        match index_from(s, pat, from) {
            Some(i) => {
                &&& from <= i
                &&& occurs_at(s, pat, i)
                &&& forall|j: int| from <= j < i ==> !occurs_at(s, pat, j)
            },
            None => forall|j: int| from <= j ==> !occurs_at(s, pat, j),
        },
    decreases s.len() - from + 1,
{
    if from + pat.len() > s.len() {
    } else if occurs_at(s, pat, from) {
    } else {
        lemma_index_from(s, pat, from + 1);
    }
}

/// The first index is the one at which `pat` stands and before which it does not.
pub proof fn lemma_first_index_is<T>(s: Seq<T>, pat: Seq<T>, i: int)
    requires
        occurs_at(s, pat, i),
        forall|j: int| 0 <= j < i ==> !occurs_at(s, pat, j),
    ensures
        first_index(s, pat) == Some(i),
{
    lemma_index_from(s, pat, 0);
}

/// What was found in `s` is found at the same place in anything that begins with
/// the same symbols up to there.
pub proof fn lemma_first_index_agrees<T>(s: Seq<T>, t: Seq<T>, pat: Seq<T>, n: int)
    requires
        first_index(s, pat) is Some,
        first_index(s, pat)->0 + pat.len() <= n <= s.len(),
        n <= t.len(),
        t.take(n) == s.take(n),
    ensures
        first_index(t, pat) == first_index(s, pat),
{
    lemma_index_from(s, pat, 0);
    let i = first_index(s, pat)->0;
    lemma_same_window(s, t, pat, i, n);
    assert forall|j: int| 0 <= j < i implies !occurs_at(t, pat, j) by {
        assert(!occurs_at(s, pat, j));
        lemma_same_window(s, t, pat, j, n);
    }
    lemma_first_index_is(t, pat, i);
}

proof fn lemma_same_window<T>(s: Seq<T>, t: Seq<T>, pat: Seq<T>, i: int, n: int)
    requires
        0 <= i,
        i + pat.len() <= n <= s.len(),
        n <= t.len(),
        t.take(n) == s.take(n),
    ensures
        occurs_at(s, pat, i) == occurs_at(t, pat, i),
{
    assert(t.take(n).subrange(i, i + pat.len()) =~= t.subrange(i, i + pat.len()));
    assert(s.take(n).subrange(i, i + pat.len()) =~= s.subrange(i, i + pat.len()));
}

/// A part of `s` that ends before the first occurrence does holds none.
pub proof fn lemma_first_index_cut<T>(s: Seq<T>, pat: Seq<T>, n: int)
    requires
        first_index(s, pat) is Some,
        0 <= n <= s.len(),
        n < first_index(s, pat)->0 + pat.len(),
    ensures
        first_index(s.take(n), pat) is None,
{
    lemma_index_from(s, pat, 0);
    let t = s.take(n);
    lemma_index_from(t, pat, 0);
    if let Some(j) = first_index(t, pat) {
        assert(t.take(n) =~= s.take(n));
        lemma_same_window(s, t, pat, j, n);
        assert(!occurs_at(s, pat, j));
    }
}

/// A single symbol stands at `i` exactly where it is the symbol at `i`.
pub proof fn lemma_occurs_single<T>(s: Seq<T>, x: T, i: int)
    ensures
        occurs_at(s, seq![x], i) <==> 0 <= i < s.len() && s[i] == x,
{
    if 0 <= i < s.len() {
        assert(s.subrange(i, i + 1) =~= seq![s[i]]);
        assert(seq![s[i]][0] == s[i]);
        assert(seq![x][0] == x);
    }
}

/// A separator is found behind a text that has no symbol of its beginning.
pub proof fn lemma_first_index_behind<T>(s: Seq<T>, sep: Seq<T>, rest: Seq<T>)
    requires
        sep.len() > 0,
        forall|i: int| 0 <= i < s.len() ==> s[i] != sep[0],
    ensures
        first_index(s + sep + rest, sep) == Some(s.len() as int),
{
    let t = s + sep + rest;
    let n = s.len() as int;
    assert(t.subrange(n, n + sep.len()) =~= sep);
    assert forall|j: int| 0 <= j < n implies !occurs_at(t, sep, j) by {
        if occurs_at(t, sep, j) {
            assert(t.subrange(j, j + sep.len())[0] == t[j]);
        }
    }
    lemma_first_index_is(t, sep, n);
}

/// A text without a symbol has no occurrence of it.
pub proof fn lemma_first_index_absent<T>(s: Seq<T>, x: T)
    requires
        forall|i: int| 0 <= i < s.len() ==> s[i] != x,
    ensures
        first_index(s, seq![x]) is None,
{
    lemma_index_from(s, seq![x], 0);
    if let Some(i) = first_index(s, seq![x]) {
        lemma_occurs_single(s, x, i);
    }
}

/// Whether `pat` stands in `s` at `at`.
pub fn stands_at<T: Symbol>(s: &[T], pat: &[T], at: usize) -> (b: bool)
    requires
        at + pat.len() <= s.len(),
    ensures
        b == occurs_at(s@, pat@, at as int),
{
    let mut k: usize = 0;
    while k < pat.len()
        invariant
            at + pat.len() <= s.len(),
            k <= pat.len(),
            forall|j: int| 0 <= j < k ==> s@[at + j] == pat@[j],
        decreases pat.len() - k,
    {
        if !s[at + k].same(pat[k]) {
            assert(s@.subrange(at as int, at + pat@.len())[k as int] != pat@[k as int]);
            return false;
        }
        k += 1;
    }
    assert(s@.subrange(at as int, at + pat@.len()) =~= pat@);
    true
}

/// The first index at which `pat` stands in `s`.
pub fn find<T: Symbol>(s: &[T], pat: &[T]) -> (found: Option<usize>)
    ensures
        match found {
            Some(i) => first_index(s@, pat@) == Some(i as int) && i + pat.len() <= s.len(),
            None => first_index(s@, pat@) is None,
        },
{
    if pat.len() > s.len() {
        return None;
    }
    let last: usize = s.len() - pat.len();
    let mut i: usize = 0;
    loop
        invariant
            last + pat.len() == s.len(),
            i <= last,
            index_from(s@, pat@, 0) == index_from(s@, pat@, i as int),
        decreases last - i,
    {
        if stands_at(s, pat, i) {
            return Some(i);
        }
        if i == last {
            assert(index_from(s@, pat@, i + 1) is None);
            return None;
        }
        i += 1;
    }
}

/// Whether the string `pat` stands somewhere in `s`.
pub fn contains(s: &[char], pat: &str) -> (b: bool)
    ensures
        b == holds(s@, pat@),
{
    let chars: Vec<char> = chars_of(pat);
    find(s, chars.as_slice()).is_some()
}

pub fn starts_with<T: Symbol>(s: &[T], pat: &[T]) -> (b: bool)
    ensures
        b == begins(s@, pat@),
{
    pat.len() <= s.len() && stands_at(s, pat, 0)
}

pub fn ends_with<T: Symbol>(s: &[T], pat: &[T]) -> (b: bool)
    ensures
        b == ends(s@, pat@),
{
    pat.len() <= s.len() && stands_at(s, pat, s.len() - pat.len())
}

// ----------------------------------------------------------------- splitting

/// The pieces of `s` between the occurrences of a nonempty `sep`, taken from the left.
pub open spec fn pieces<T>(s: Seq<T>, sep: Seq<T>) -> Seq<Seq<T>>
    decreases s.len(),
{
    if sep.len() > 0 && first_index(s, sep) is Some {
        let i = first_index(s, sep)->0;
        proof {
            lemma_index_from(s, sep, 0);
        }
        seq![s.take(i)] + pieces(s.skip(i + sep.len()), sep)
    } else {
        seq![s]
    }
}

/// `s` before and behind the first `c`.
pub open spec fn cut_at(s: Seq<char>, c: char) -> Option<(Seq<char>, Seq<char>)> {
    match first_index(s, seq![c]) {
        Some(i) => Some((s.take(i), s.skip(i + 1))),
        None => None,
    }
}

/// What stands before the first `c`, or all of `s` where there is none.
pub open spec fn before(s: Seq<char>, c: char) -> Seq<char> {
    match cut_at(s, c) {
        Some((head, _)) => head,
        None => s,
    }
}

/// The contents of a sequence of slices.
pub open spec fn contents<T>(parts: Seq<&[T]>) -> Seq<Seq<T>> {
    Seq::new(parts.len(), |i: int| parts[i]@)
}

/// The pieces of `s` between the occurrences of `sep`.
pub fn split<'a, T: Symbol>(s: &'a [T], sep: &[T]) -> (parts: Vec<&'a [T]>)
    ensures
        contents(parts@) == pieces(s@, sep@),
        parts@.len() > 0,
{
    let mut parts: Vec<&'a [T]> = Vec::new();
    let mut rest: &'a [T] = s;
    if sep.len() == 0 {
        parts.push(s);
        assert(contents(parts@) =~= pieces(s@, sep@));
        return parts;
    }
    assert(contents(parts@) + pieces(rest@, sep@) =~= pieces(s@, sep@));
    loop
        invariant
            sep.len() > 0,
            contents(parts@) + pieces(rest@, sep@) == pieces(s@, sep@),
        decreases rest.len(),
    {
        let ghost before = parts@;
        match find(rest, sep) {
            Some(i) => {
                let ghost whole = rest@;
                let piece: &'a [T] = slice_subrange(rest, 0, i);
                parts.push(piece);
                rest = slice_subrange(rest, i + sep.len(), rest.len());
                proof {
                    assert(piece@ =~= whole.take(i as int));
                    assert(rest@ =~= whole.skip(i + sep@.len()));
                    assert(contents(parts@) =~= contents(before) + seq![piece@]);
                    assert(contents(before) + (seq![piece@] + pieces(rest@, sep@)) =~= contents(
                        parts@,
                    ) + pieces(rest@, sep@));
                }
            },
            None => {
                parts.push(rest);
                assert(contents(parts@) =~= contents(before) + seq![rest@]);
                return parts;
            },
        }
    }
}

/// `s` before and behind the first `c`.
pub fn split_once<'a>(s: &'a [char], c: char) -> (cut: Option<(&'a [char], &'a [char])>)
    ensures
        match cut {
            Some((head, tail)) => cut_at(s@, c) == Some((head@, tail@)),
            None => cut_at(s@, c) is None,
        },
{
    let sep: [char; 1] = [c];
    assert(sep@ =~= seq![c]);
    match find(s, &sep) {
        Some(i) => {
            let head: &'a [char] = slice_subrange(s, 0, i);
            let tail: &'a [char] = slice_subrange(s, i + 1, s.len());
            assert(head@ =~= s@.take(i as int));
            assert(tail@ =~= s@.skip(i + 1));
            Some((head, tail))
        },
        None => None,
    }
}

/// What stands before the first `c`, or all of `s` where there is none.
pub fn up_to<'a>(s: &'a [char], c: char) -> (head: &'a [char])
    ensures
        head@ == before(s@, c),
{
    match split_once(s, c) {
        Some((head, _)) => head,
        None => s,
    }
}

/// The pieces of `s` between the occurrences of the character `c`.
pub fn split_char<'a>(s: &'a [char], c: char) -> (parts: Vec<&'a [char]>)
    ensures
        contents(parts@) == pieces(s@, seq![c]),
        parts@.len() > 0,
{
    let sep: [char; 1] = [c];
    assert(sep@ =~= seq![c]);
    split(s, &sep)
}

/// The carriage return and line feed that end a line, as bytes.
pub open spec fn crlf() -> Seq<u8> {
    seq![13u8, 10u8]
}

/// The blank line that ends a header section, as bytes.
pub open spec fn blank_line() -> Seq<u8> {
    seq![13u8, 10u8, 13u8, 10u8]
}

/// The carriage return and line feed that end a line, as characters.
pub open spec fn line_end() -> Seq<char> {
    seq!['\r', '\n']
}

/// The lines of `s` that carriage return and line feed set apart.
pub fn split_lines<'a>(s: &'a [char]) -> (parts: Vec<&'a [char]>)
    ensures
        contents(parts@) == pieces(s@, line_end()),
        parts@.len() > 0,
{
    let sep: [char; 2] = ['\r', '\n'];
    assert(sep@ =~= line_end());
    split(s, &sep)
}

/// The index of the first carriage return and line feed.
pub fn find_crlf(data: &[u8]) -> (found: Option<usize>)
    ensures
        match found {
            Some(i) => first_index(data@, crlf()) == Some(i as int) && i + 2 <= data.len(),
            None => first_index(data@, crlf()) is None,
        },
{
    let sep: [u8; 2] = [13, 10];
    assert(sep@ =~= crlf());
    find(data, &sep)
}

/// The index of the first blank line.
pub fn find_blank_line(data: &[u8]) -> (found: Option<usize>)
    ensures
        match found {
            Some(i) => first_index(data@, blank_line()) == Some(i as int) && i + 4 <= data.len(),
            None => first_index(data@, blank_line()) is None,
        },
{
    let sep: [u8; 4] = [13, 10, 13, 10];
    assert(sep@ =~= blank_line());
    find(data, &sep)
}

// ------------------------------------------------------------ trimming, words

/// The characters with the Unicode property White_Space.
pub open spec fn is_space(c: char) -> bool {
    ||| '\u{9}' <= c <= '\u{d}'
    ||| c == ' '
    ||| c == '\u{85}'
    ||| c == '\u{a0}'
    ||| c == '\u{1680}'
    ||| '\u{2000}' <= c <= '\u{200a}'
    ||| c == '\u{2028}'
    ||| c == '\u{2029}'
    ||| c == '\u{202f}'
    ||| c == '\u{205f}'
    ||| c == '\u{3000}'
}

/// A set of characters that can be trimmed off.
pub enum CharClass {
    /// White space.
    White,
    /// One character.
    Only(char),
    /// Two characters.
    Either(char, char),
}

impl CharClass {
    pub open spec fn has(self, c: char) -> bool {
        match self {
            CharClass::White => is_space(c),
            CharClass::Only(x) => c == x,
            CharClass::Either(x, y) => c == x || c == y,
        }
    }

    pub fn holds(&self, c: char) -> (b: bool)
        ensures
            b == self.has(c),
    {
        match self {
            CharClass::White => white_space(c),
            CharClass::Only(x) => c == *x,
            CharClass::Either(x, y) => c == *x || c == *y,
        }
    }
}

/// Whether `c` is white space.
pub fn white_space(c: char) -> (b: bool)
    ensures
        b == is_space(c),
{
    ('\u{9}' <= c && c <= '\u{d}') || c == ' ' || c == '\u{85}' || c == '\u{a0}' || c == '\u{1680}'
        || ('\u{2000}' <= c && c <= '\u{200a}') || c == '\u{2028}' || c == '\u{2029}' || c
        == '\u{202f}' || c == '\u{205f}' || c == '\u{3000}'
}

/// `s` without its longest beginning of characters in `class`.
pub open spec fn drop_leading(s: Seq<char>, class: CharClass) -> Seq<char>
    decreases s.len(),
{
    if s.len() > 0 && class.has(s[0]) {
        drop_leading(s.drop_first(), class)
    } else {
        s
    }
}

/// `s` without its longest ending of characters in `class`.
pub open spec fn drop_trailing(s: Seq<char>, class: CharClass) -> Seq<char>
    decreases s.len(),
{
    if s.len() > 0 && class.has(s.last()) {
        drop_trailing(s.drop_last(), class)
    } else {
        s
    }
}

/// `s` without characters of `class` at either end.
pub open spec fn trimmed_of(s: Seq<char>, class: CharClass) -> Seq<char> {
    drop_trailing(drop_leading(s, class), class)
}

/// `s` without white space at either end.
pub open spec fn trimmed(s: Seq<char>) -> Seq<char> {
    trimmed_of(s, CharClass::White)
}

/// A text with no white space at its ends is not trimmed.
pub proof fn lemma_trimmed_as_is(s: Seq<char>)
    requires
        s.len() > 0 ==> !is_space(s[0]) && !is_space(s.last()),
    ensures
        trimmed(s) == s,
{
}

pub fn trim_start_of<'a>(s: &'a [char], class: &CharClass) -> (t: &'a [char])
    ensures
        t@ == drop_leading(s@, *class),
{
    let mut i: usize = 0;
    assert(s@.skip(0) =~= s@);
    while i < s.len() && class.holds(s[i])
        invariant
            i <= s.len(),
            drop_leading(s@, *class) == drop_leading(s@.skip(i as int), *class),
        ensures
            i <= s.len(),
            drop_leading(s@, *class) == drop_leading(s@.skip(i as int), *class),
            i < s.len() ==> !class.has(s@[i as int]),
        decreases s.len() - i,
    {
        assert(s@.skip(i as int).drop_first() =~= s@.skip(i + 1));
        i += 1;
    }
    let t: &'a [char] = slice_subrange(s, i, s.len());
    assert(t@ =~= s@.skip(i as int));
    t
}

pub fn trim_end_of<'a>(s: &'a [char], class: &CharClass) -> (t: &'a [char])
    ensures
        t@ == drop_trailing(s@, *class),
{
    let mut n: usize = s.len();
    assert(s@.take(n as int) =~= s@);
    while n > 0 && class.holds(s[n - 1])
        invariant
            n <= s.len(),
            drop_trailing(s@, *class) == drop_trailing(s@.take(n as int), *class),
        ensures
            n <= s.len(),
            drop_trailing(s@, *class) == drop_trailing(s@.take(n as int), *class),
            n > 0 ==> !class.has(s@[n - 1]),
        decreases n,
    {
        assert(s@.take(n as int).drop_last() =~= s@.take(n - 1));
        n -= 1;
    }
    let t: &'a [char] = slice_subrange(s, 0, n);
    assert(t@ =~= s@.take(n as int));
    t
}

pub fn trim_of<'a>(s: &'a [char], class: &CharClass) -> (t: &'a [char])
    ensures
        t@ == trimmed_of(s@, *class),
{
    trim_end_of(trim_start_of(s, class), class)
}

/// `s` without white space at either end.
pub fn trim<'a>(s: &'a [char]) -> (t: &'a [char])
    ensures
        t@ == trimmed(s@),
{
    trim_of(s, &CharClass::White)
}

/// How many characters stand behind the last one in `class`; all of them where
/// there is none.
pub open spec fn tail_length(s: Seq<char>, class: CharClass) -> int
    decreases s.len(),
{
    if s.len() > 0 && !class.has(s.last()) {
        1 + tail_length(s.drop_last(), class)
    } else {
        0
    }
}

/// What stands behind the last character in `class`, or all of `s` where there is
/// none.
pub open spec fn behind_last(s: Seq<char>, class: CharClass) -> Seq<char> {
    s.skip(s.len() - tail_length(s, class))
}

pub proof fn lemma_tail_length(s: Seq<char>, class: CharClass)
    ensures
        0 <= tail_length(s, class) <= s.len(),
        forall|i: int|
            s.len() - tail_length(s, class) <= i < s.len() ==> !class.has(#[trigger] s[i]),
        tail_length(s, class) < s.len() ==> class.has(s[s.len() - tail_length(s, class) - 1]),
    decreases s.len(),
{
    if s.len() > 0 && !class.has(s.last()) {
        lemma_tail_length(s.drop_last(), class);
        assert forall|i: int| s.len() - tail_length(s, class) <= i < s.len() implies !class.has(
            #[trigger] s[i],
        ) by {
            if i < s.len() - 1 {
                assert(s.drop_last()[i] == s[i]);
            }
        }
    }
}

/// Splits `s` behind the last character in `class`.
pub fn split_behind_last<'a>(s: &'a [char], class: &CharClass) -> (parts: (&'a [char], &'a [char]))
    ensures
        parts.1@ == behind_last(s@, *class),
        parts.0@ == s@.take(s@.len() - tail_length(s@, *class)),
{
    let mut n: usize = s.len();
    assert(s@.take(n as int) =~= s@);
    while n > 0 && !class.holds(s[n - 1])
        invariant
            n <= s.len(),
            tail_length(s@, *class) == s.len() - n + tail_length(s@.take(n as int), *class),
        ensures
            n <= s.len(),
            tail_length(s@, *class) == s.len() - n + tail_length(s@.take(n as int), *class),
            n > 0 ==> class.has(s@[n - 1]),
        decreases n,
    {
        assert(s@.take(n as int).drop_last() =~= s@.take(n - 1));
        n -= 1;
    }
    let head: &'a [char] = slice_subrange(s, 0, n);
    let tail: &'a [char] = slice_subrange(s, n, s.len());
    proof {
        assert(head@ =~= s@.take(n as int));
        assert(tail@ =~= s@.skip(n as int));
    }
    (head, tail)
}

/// How many characters of `s` stand before its first white space.
pub open spec fn run_length(s: Seq<char>) -> int
    decreases s.len(),
{
    if s.len() > 0 && !is_space(s[0]) {
        1 + run_length(s.drop_first())
    } else {
        0
    }
}

pub proof fn lemma_run_length(s: Seq<char>)
    ensures
        0 <= run_length(s) <= s.len(),
        s.len() > 0 && !is_space(s[0]) ==> run_length(s) > 0,
    decreases s.len(),
{
    if s.len() > 0 && !is_space(s[0]) {
        lemma_run_length(s.drop_first());
    }
}

pub proof fn lemma_drop_leading(s: Seq<char>, class: CharClass)
    ensures
        drop_leading(s, class).len() <= s.len(),
        drop_leading(s, class) == s.skip(s.len() - drop_leading(s, class).len()),
        drop_leading(s, class).len() > 0 ==> !class.has(drop_leading(s, class)[0]),
    decreases s.len(),
{
    if s.len() > 0 && class.has(s[0]) {
        let t = s.drop_first();
        lemma_drop_leading(t, class);
        let d = drop_leading(t, class);
        assert(t.skip(t.len() - d.len()) =~= s.skip(s.len() - d.len()));
    } else {
        assert(s.skip(0) =~= s);
    }
}

pub proof fn lemma_drop_trailing(s: Seq<char>, class: CharClass)
    ensures
        drop_trailing(s, class).len() <= s.len(),
        drop_trailing(s, class) == s.take(drop_trailing(s, class).len() as int),
        drop_trailing(s, class).len() > 0 ==> !class.has(drop_trailing(s, class).last()),
    decreases s.len(),
{
    if s.len() > 0 && class.has(s.last()) {
        let t = s.drop_last();
        lemma_drop_trailing(t, class);
        let n = drop_trailing(t, class).len() as int;
        assert(t.take(n) =~= s.take(n));
    } else {
        assert(s.take(s.len() as int) =~= s);
    }
}

/// The maximal runs of characters that are not white space.
pub open spec fn words(s: Seq<char>) -> Seq<Seq<char>>
    decreases s.len(),
{
    let t = drop_leading(s, CharClass::White);
    if t.len() == 0 {
        seq![]
    } else {
        let n = run_length(t);
        proof {
            lemma_drop_leading(s, CharClass::White);
            lemma_run_length(t);
        }
        seq![t.take(n)] + words(t.skip(n))
    }
}

/// The words of `s`: its maximal runs of characters that are not white space.
pub fn split_whitespace<'a>(s: &'a [char]) -> (parts: Vec<&'a [char]>)
    ensures
        contents(parts@) == words(s@),
{
    let mut parts: Vec<&'a [char]> = Vec::new();
    let mut rest: &'a [char] = s;
    assert(contents(parts@) + words(rest@) =~= words(s@));
    loop
        invariant
            contents(parts@) + words(rest@) == words(s@),
        decreases rest.len(),
    {
        let t: &'a [char] = trim_start_of(rest, &CharClass::White);
        proof {
            lemma_drop_leading(rest@, CharClass::White);
        }
        if t.len() == 0 {
            assert(contents(parts@) + words(rest@) =~= contents(parts@));
            return parts;
        }
        let mut n: usize = 0;
        assert(t@.skip(0) =~= t@);
        while n < t.len() && !white_space(t[n])
            invariant
                n <= t.len(),
                run_length(t@) == n + run_length(t@.skip(n as int)),
            ensures
                n <= t.len(),
                run_length(t@) == n + run_length(t@.skip(n as int)),
                n < t.len() ==> is_space(t@[n as int]),
            decreases t.len() - n,
        {
            assert(t@.skip(n as int).drop_first() =~= t@.skip(n + 1));
            n += 1;
        }
        proof {
            lemma_run_length(t@);
        }
        let ghost earlier = parts@;
        let word: &'a [char] = slice_subrange(t, 0, n);
        parts.push(word);
        let next: &'a [char] = slice_subrange(t, n, t.len());
        proof {
            assert(word@ =~= t@.take(n as int));
            assert(next@ =~= t@.skip(n as int));
            assert(contents(parts@) =~= contents(earlier) + seq![word@]);
            assert(contents(earlier) + (seq![word@] + words(next@)) =~= contents(parts@) + words(
                next@,
            ));
        }
        rest = next;
    }
}

/// A line without the carriage return that ends it, where there is one.
pub open spec fn without_cr(s: Seq<char>) -> Seq<char> {
    if s.len() > 0 && s.last() == '\r' {
        s.drop_last()
    } else {
        s
    }
}

/// The lines of `s`. A line ends with a line feed, which may have a carriage
/// return before it; the line feed behind the last line may be missing.
pub open spec fn text_lines(s: Seq<char>) -> Seq<Seq<char>>
    decreases s.len(),
{
    if s.len() == 0 {
        seq![]
    } else {
        match first_index(s, seq!['\n']) {
            Some(i) => {
                proof {
                    lemma_index_from(s, seq!['\n'], 0);
                }
                seq![without_cr(s.take(i))] + text_lines(s.skip(i + 1))
            },
            None => seq![s],
        }
    }
}

/// The lines of `s`.
pub fn lines<'a>(s: &'a [char]) -> (parts: Vec<&'a [char]>)
    ensures
        contents(parts@) == text_lines(s@),
{
    let mut parts: Vec<&'a [char]> = Vec::new();
    let mut rest: &'a [char] = s;
    assert(contents(parts@) + text_lines(rest@) =~= text_lines(s@));
    let sep: [char; 1] = ['\n'];
    assert(sep@ =~= seq!['\n']);
    loop
        invariant
            sep@ == seq!['\n'],
            contents(parts@) + text_lines(rest@) == text_lines(s@),
        decreases rest.len(),
    {
        if rest.len() == 0 {
            assert(contents(parts@) + text_lines(rest@) =~= contents(parts@));
            return parts;
        }
        let ghost earlier = parts@;
        match find(rest, &sep) {
            Some(i) => {
                let ghost whole = rest@;
                let mut n: usize = i;
                if i > 0 && rest[i - 1] == '\r' {
                    n = i - 1;
                }
                let line: &'a [char] = slice_subrange(rest, 0, n);
                parts.push(line);
                rest = slice_subrange(rest, i + 1, rest.len());
                proof {
                    assert(line@ =~= without_cr(whole.take(i as int)));
                    assert(rest@ =~= whole.skip(i + 1));
                    assert(contents(parts@) =~= contents(earlier) + seq![line@]);
                    assert(contents(earlier) + (seq![line@] + text_lines(rest@)) =~= contents(
                        parts@,
                    ) + text_lines(rest@));
                }
            },
            None => {
                parts.push(rest);
                assert(contents(parts@) =~= contents(earlier) + seq![rest@]);
                return parts;
            },
        }
    }
}

// --------------------------------------------------------------- letter case

/// An ASCII capital letter as the small one; any other character as it is.
pub open spec fn lower_char(c: char) -> char {
    if 'A' <= c <= 'Z' {
        (c as u8 + 32) as char
    } else {
        c
    }
}

/// `s` with its ASCII capital letters made small.
pub open spec fn lowered(s: Seq<char>) -> Seq<char> {
    Seq::new(s.len(), |i: int| lower_char(s[i]))
}

/// `a` and `b` differ in the case of ASCII letters at most.
pub open spec fn same_letters(a: Seq<char>, b: Seq<char>) -> bool {
    lowered(a) == lowered(b)
}

pub fn to_lower(c: char) -> (r: char)
    ensures
        r == lower_char(c),
{
    if 'A' <= c && c <= 'Z' {
        (c as u8 + 32) as char
    } else {
        c
    }
}

/// `s` with its ASCII capital letters made small.
pub fn to_ascii_lowercase(s: &[char]) -> (r: Vec<char>)
    ensures
        r@ == lowered(s@),
{
    let mut r: Vec<char> = Vec::new();
    let mut i: usize = 0;
    while i < s.len()
        invariant
            i <= s.len(),
            r@ == lowered(s@).take(i as int),
        decreases s.len() - i,
    {
        r.push(to_lower(s[i]));
        assert(r@ =~= lowered(s@).take(i + 1));
        i += 1;
    }
    assert(r@ =~= lowered(s@));
    r
}

/// Whether `a` and `b` differ in the case of ASCII letters at most.
pub fn eq_ignore_ascii_case(a: &[char], b: &[char]) -> (same: bool)
    ensures
        same == same_letters(a@, b@),
{
    if a.len() != b.len() {
        assert(lowered(a@).len() != lowered(b@).len());
        return false;
    }
    let mut i: usize = 0;
    while i < a.len()
        invariant
            a.len() == b.len(),
            i <= a.len(),
            forall|j: int| 0 <= j < i ==> lower_char(a@[j]) == lower_char(b@[j]),
        decreases a.len() - i,
    {
        if to_lower(a[i]) != to_lower(b[i]) {
            assert(lowered(a@)[i as int] != lowered(b@)[i as int]);
            return false;
        }
        i += 1;
    }
    assert(lowered(a@) =~= lowered(b@));
    true
}

/// An ASCII small letter as the capital one; any other character as it is.
pub open spec fn upper_char(c: char) -> char {
    if 'a' <= c <= 'z' {
        (c as u8 - 32) as char
    } else {
        c
    }
}

/// `s` with its ASCII small letters made capital.
pub open spec fn raised(s: Seq<char>) -> Seq<char> {
    Seq::new(s.len(), |i: int| upper_char(s[i]))
}

/// The characters of a string in upper case, as `str::to_uppercase` has them
/// from the Unicode tables.
pub uninterp spec fn uppercase(s: Seq<char>) -> Seq<char>;

/// `s` in upper case. In a string of ASCII characters the small letters are made
/// capital.
pub open spec fn uppercased(s: Seq<char>) -> Seq<char> {
    if vstd::utf8::is_ascii_chars(s) {
        raised(s)
    } else {
        uppercase(s)
    }
}

/// `str::to_uppercase` gives the string in upper case, which depends on the
/// string alone. A string of ASCII characters has its small letters made
/// capital; how the tables treat other characters is left to the name.
#[verifier::external_body]
pub(crate) fn to_uppercase(s: &str) -> (r: String)
    ensures
        r@ == if vstd::utf8::is_ascii_chars(s@) {
            raised(s@)
        } else {
            uppercase(s@)
        },
{
    s.to_uppercase()
}

// ------------------------------------------------- strings and character slices

/// Two strings with the same bytes have the same characters.
pub proof fn lemma_bytes_determine_text(a: Seq<char>, b: Seq<char>)
    ensures
        vstd::utf8::encode_utf8(a) == vstd::utf8::encode_utf8(b) ==> a == b,
{
    vstd::utf8::encode_utf8_decode_utf8(a);
    vstd::utf8::encode_utf8_decode_utf8(b);
}

/// The bytes of a text are those of its parts.
pub proof fn lemma_bytes_of_parts(a: Seq<char>, b: Seq<char>)
    ensures
        vstd::utf8::encode_utf8(a + b) == vstd::utf8::encode_utf8(a) + vstd::utf8::encode_utf8(b),
    decreases a.len(),
{
    if a.len() == 0 {
        assert(a + b =~= b);
        assert(vstd::utf8::encode_utf8(a) + vstd::utf8::encode_utf8(b)
            =~= vstd::utf8::encode_utf8(b));
    } else {
        lemma_bytes_of_parts(a.drop_first(), b);
        assert((a + b).drop_first() =~= a.drop_first() + b);
        let first = vstd::utf8::encode_scalar(a[0] as u32);
        assert(first + (vstd::utf8::encode_utf8(a.drop_first()) + vstd::utf8::encode_utf8(b)) =~= (
        first + vstd::utf8::encode_utf8(a.drop_first())) + vstd::utf8::encode_utf8(b));
    }
}

/// A character begins where a front part of the text ends.
pub proof fn lemma_boundary_behind_part(a: Seq<char>, b: Seq<char>)
    ensures
        vstd::utf8::is_char_boundary(
            vstd::utf8::encode_utf8(a + b),
            vstd::utf8::encode_utf8(a).len() as int,
        ),
    decreases a.len(),
{
    let s = a + b;
    vstd::utf8::encode_utf8_valid_utf8(s);
    if a.len() > 0 {
        let bytes = vstd::utf8::encode_utf8(s);
        assert(s.drop_first() =~= a.drop_first() + b);
        lemma_boundary_behind_part(a.drop_first(), b);
        lemma_bytes_of_parts(a, b);
        vstd::utf8::encode_utf8_first_scalar(s);
        let first = vstd::utf8::encode_scalar(s[0] as u32);
        assert(vstd::utf8::pop_first_scalar(bytes) =~= vstd::utf8::encode_utf8(s.drop_first()));
        assert(vstd::utf8::encode_utf8(a).len() == first.len() + vstd::utf8::encode_utf8(
            a.drop_first(),
        ).len());
    }
}

/// Whether two strings are equal.
pub fn same_text(a: &str, b: &str) -> (same: bool)
    ensures
        same == (a@ == b@),
{
    let x: &[u8] = a.as_bytes();
    let y: &[u8] = b.as_bytes();
    proof {
        lemma_bytes_determine_text(a@, b@);
    }
    if x.len() != y.len() {
        return false;
    }
    if stands_at(x, y, 0) {
        assert(x@.subrange(0, y@.len() as int) =~= x@);
        true
    } else {
        assert(x@.subrange(0, y@.len() as int) =~= x@);
        false
    }
}

/// The text behind an optional string.
pub open spec fn shown(s: Option<String>) -> Option<Seq<char>> {
    match s {
        Some(t) => Some(t@),
        None => None,
    }
}

/// The text behind an optional borrowed string.
pub open spec fn shown_str(s: Option<&str>) -> Option<Seq<char>> {
    match s {
        Some(t) => Some(t@),
        None => None,
    }
}

/// The texts in a list of strings.
pub open spec fn texts(list: Seq<String>) -> Seq<Seq<char>> {
    Seq::new(list.len(), |i: int| list[i]@)
}

/// Whether a list of strings holds the string `t`.
pub fn list_holds(list: &Vec<String>, t: &str) -> (b: bool)
    ensures
        b == texts(list@).contains(t@),
{
    let mut i: usize = 0;
    while i < list.len()
        invariant
            i <= list@.len(),
            forall|j: int| 0 <= j < i ==> #[trigger] texts(list@)[j] != t@,
        decreases list@.len() - i,
    {
        if same_text(list[i].as_str(), t) {
            assert(texts(list@)[i as int] == t@);
            return true;
        }
        i += 1;
    }
    false
}

/// Whether a slice of characters spells the string `b`.
pub fn spells(a: &[char], b: &str) -> (same: bool)
    ensures
        same == (a@ == b@),
{
    let y: Vec<char> = chars_of(b);
    if a.len() != y.len() {
        return false;
    }
    let same: bool = stands_at(a, y.as_slice(), 0);
    assert(a@.subrange(0, y@.len() as int) =~= a@);
    same
}

/// The characters of a string.
pub fn chars_of(s: &str) -> (chars: Vec<char>)
    ensures
        chars@ == s@,
{
    let mut out: Vec<char> = Vec::new();
    for c in it: s.chars()
        invariant
            out@ == it.seq().take(it.index() as int),
    {
        out.push(c);
    }
    out
}

/// `String::push` appends one character to the end of the string.
pub assume_specification[ String::push ](s: &mut String, c: char)
    ensures
        final(s)@ == old(s)@.push(c),
;

/// The string of the given characters.
pub fn text_of(chars: &[char]) -> (s: String)
    ensures
        s@ == chars@,
{
    let mut s: String = String::new();
    let mut i: usize = 0;
    while i < chars.len()
        invariant
            i <= chars.len(),
            s@ == chars@.take(i as int),
        decreases chars.len() - i,
    {
        s.push(chars[i]);
        assert(s@ =~= chars@.take(i + 1));
        i += 1;
    }
    assert(s@ =~= chars@);
    s
}

/// Appends the characters of `more` to `out`.
pub fn push_text(out: &mut Vec<char>, more: &str)
    ensures
        final(out)@ == old(out)@ + more@,
{
    let chars: Vec<char> = chars_of(more);
    push_chars(out, chars.as_slice());
}

/// Whether the string begins with the character.
pub fn leads(s: &str, c: char) -> (b: bool)
    ensures
        b == (s@.len() > 0 && s@[0] == c),
{
    let chars: Vec<char> = chars_of(s);
    chars.len() > 0 && chars[0] == c
}

/// Whether two strings differ in the case of ASCII letters at most.
pub fn same_letters_text(a: &str, b: &str) -> (same: bool)
    ensures
        same == same_letters(a@, b@),
{
    let x: Vec<char> = chars_of(a);
    let y: Vec<char> = chars_of(b);
    eq_ignore_ascii_case(x.as_slice(), y.as_slice())
}

/// The three strings one after the other.
pub fn concat3(a: &str, b: &str, c: &str) -> (s: String)
    ensures
        s@ == a@ + b@ + c@,
{
    let mut out: Vec<char> = chars_of(a);
    push_text(&mut out, b);
    push_text(&mut out, c);
    text_of(out.as_slice())
}

/// Appends `more` to `out`.
pub fn push_chars(out: &mut Vec<char>, more: &[char])
    ensures
        final(out)@ == old(out)@ + more@,
{
    let ghost start = out@;
    let mut i: usize = 0;
    assert(start + more@.take(0) =~= start);
    while i < more.len()
        invariant
            i <= more.len(),
            out@ == start + more@.take(i as int),
        decreases more.len() - i,
    {
        out.push(more[i]);
        assert(start + more@.take(i + 1) =~= (start + more@.take(i as int)).push(more@[i as int]));
        i += 1;
    }
    assert(more@.take(more@.len() as int) =~= more@);
}

/// `core::str::from_utf8` accepts exactly the well-formed UTF-8 byte strings
/// and gives back the string that has those bytes.
#[verifier::external_body]
pub(crate) fn utf8_text(bytes: &[u8]) -> (text: Option<&str>)
    ensures
        text is Some <==> vstd::utf8::valid_utf8(bytes@),
        text matches Some(t) ==> vstd::utf8::encode_utf8(t@) == bytes@,
{
    core::str::from_utf8(bytes).ok()
}

/// The characters that the bytes encode, where they are well-formed UTF-8.
pub open spec fn decoded(bytes: Seq<u8>) -> Option<Seq<char>> {
    if vstd::utf8::valid_utf8(bytes) {
        Some(vstd::utf8::decode_utf8(bytes))
    } else {
        None
    }
}

/// The text that `String::from_utf8_lossy` reads out of a byte string that is not
/// well-formed UTF-8.
pub uninterp spec fn lossy_text(bytes: Seq<u8>) -> Seq<char>;

/// The text in a byte string. Well-formed UTF-8 is read as it stands.
pub open spec fn lossily(bytes: Seq<u8>) -> Seq<char> {
    if vstd::utf8::valid_utf8(bytes) {
        vstd::utf8::decode_utf8(bytes)
    } else {
        lossy_text(bytes)
    }
}

/// `String::from_utf8_lossy` reads any byte string as text, which depends on
/// the bytes alone. Well-formed UTF-8 is read as it stands; what replaces an
/// ill-formed part is left to the name.
#[verifier::external_body]
pub(crate) fn from_utf8_lossy(bytes: &[u8]) -> (text: String)
    ensures
        text@ == if vstd::utf8::valid_utf8(bytes@) {
            vstd::utf8::decode_utf8(bytes@)
        } else {
            lossy_text(bytes@)
        },
{
    String::from_utf8_lossy(bytes).into_owned()
}

/// The characters that the bytes encode, where they are well-formed UTF-8.
pub fn decode(bytes: &[u8]) -> (chars: Option<Vec<char>>)
    ensures
        match chars {
            Some(c) => decoded(bytes@) == Some(c@),
            None => decoded(bytes@) is None,
        },
{
    match utf8_text(bytes) {
        Some(t) => {
            proof {
                vstd::utf8::encode_utf8_decode_utf8(t@);
            }
            Some(chars_of(t))
        },
        None => None,
    }
}

} // verus!
