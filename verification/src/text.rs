//! Text as sequences of characters: trimming, ASCII case, searching, splitting into lines
//! and words, and decimal and hexadecimal numbers.

use vstd::prelude::*;
use vstd::string::*;
use vstd::utf8::*;

verus! {

/// `String::push` appends one character to the end of the text.
pub assume_specification[ String::push ](s: &mut String, c: char)
    ensures
        final(s)@ == old(s)@.push(c),
;

/// The text that `String::from_utf8_lossy` makes of a byte sequence.
pub uninterp spec fn utf8_lossy(bytes: Seq<u8>) -> Seq<char>;

/// Calls `String::from_utf8_lossy`: bytes that are valid UTF-8 become the text that they
/// encode; in any others, the invalid parts are replaced by U+FFFD in a way that depends
/// on the bytes alone.
#[verifier::external_body]
pub(crate) fn from_utf8_lossy(bytes: &[u8]) -> (text: String)
    ensures
        text@ == utf8_lossy(bytes@),
        valid_utf8(bytes@) ==> text@ == decode_utf8(bytes@),
{
    String::from_utf8_lossy(bytes).into_owned()
}

/// Bytes that are valid UTF-8 are read as the text that they encode.
pub open spec fn read_exactly(bytes: Seq<u8>) -> bool {
    valid_utf8(bytes) ==> utf8_lossy(bytes) == decode_utf8(bytes)
}

// ---------------------------------------------------------------------------------------
// Characters
// ---------------------------------------------------------------------------------------

/// The Unicode `White_Space` property.
pub open spec fn is_white_space(c: char) -> bool {
    ||| '\u{9}' <= c <= '\u{d}'
    ||| c == ' '
    ||| c == '\u{85}'
    ||| c == '\u{a0}'
    ||| c == '\u{1680}'
    ||| '\u{2000}' <= c <= '\u{200a}'
    ||| c == '\u{2028}'
    ||| c == '\u{2029}'
    ||| c == '\u{202f}'
    ||| c == '\u{205f}'
    ||| c == '\u{3000}'
}

/// Whether `c` has the Unicode `White_Space` property.
pub fn white_space(c: char) -> (yes: bool)
    ensures
        yes == is_white_space(c),
{
    ('\u{9}' <= c && c <= '\u{d}') || c == ' ' || c == '\u{85}' || c == '\u{a0}' || c == '\u{1680}'
        || ('\u{2000}' <= c && c <= '\u{200a}') || c == '\u{2028}' || c == '\u{2029}'
        || c == '\u{202f}' || c == '\u{205f}' || c == '\u{3000}'
}

/// The ASCII lower-case form of a character; characters other than `A` to `Z` stay.
pub open spec fn lower_char(c: char) -> char {
    if 'A' <= c <= 'Z' {
        (c as u8 + 32) as u8 as char
    } else {
        c
    }
}

fn to_lower_char(c: char) -> (lower: char)
    ensures
        lower == lower_char(c),
{
    if 'A' <= c && c <= 'Z' {
        (c as u8 + 32) as char
    } else {
        c
    }
}

// ---------------------------------------------------------------------------------------
// Building and taking apart
// ---------------------------------------------------------------------------------------

/// The texts of a sequence of strings.
pub open spec fn texts(strings: Seq<String>) -> Seq<Seq<char>> {
    strings.map_values(|s: String| s@)
}

/// The text of an optional string.
pub open spec fn opt_text(text: Option<String>) -> Option<Seq<char>> {
    match text {
        Some(t) => Some(t@),
        None => None,
    }
}

/// The text of an optional string slice.
pub open spec fn opt_str(text: Option<&str>) -> Option<Seq<char>> {
    match text {
        Some(t) => Some(t@),
        None => None,
    }
}

/// The characters of `text`.
pub fn chars_of(text: &str) -> (chars: Vec<char>)
    ensures
        chars@ == text@,
{
    let mut chars: Vec<char> = Vec::new();
    for c in it: text.chars()
        invariant
            chars@ == it.seq().take(it.index() as int),
            it.seq() == text@,
    {
        chars.push(c);
    }
    assert(chars@ =~= text@);
    chars
}

/// The text made of `chars[from..to]`.
pub fn string_of(chars: &[char], from: usize, to: usize) -> (text: String)
    requires
        from <= to <= chars@.len(),
    ensures
        text@ == chars@.subrange(from as int, to as int),
{
    let mut text = String::new();
    let mut i: usize = from;
    while i < to
        invariant
            from <= i <= to <= chars@.len(),
            text@ == chars@.subrange(from as int, i as int),
        decreases to - i,
    {
        text.push(chars[i]);
        i += 1;
    }
    text
}

/// Whether two texts are the same.
pub fn same(a: &str, b: &str) -> (yes: bool)
    ensures
        yes == (a@ == b@),
{
    let x = a.as_bytes();
    let y = b.as_bytes();
    proof {
        encode_utf8_decode_utf8(a@);
        encode_utf8_decode_utf8(b@);
    }
    if x.len() != y.len() {
        return false;
    }
    let mut i: usize = 0;
    while i < x.len()
        invariant
            i <= x@.len(),
            x@.len() == y@.len(),
            x@ == encode_utf8(a@),
            y@ == encode_utf8(b@),
            forall|j: int| 0 <= j < i ==> x@[j] == y@[j],
        decreases x@.len() - i,
    {
        if x[i] != y[i] {
            return false;
        }
        i += 1;
    }
    assert(x@ =~= y@);
    true
}

/// A copy of an optional string.
pub fn copy_option(text: &Option<String>) -> (copy: Option<String>)
    ensures
        copy == *text,
{
    match text {
        Some(t) => Some(t.clone()),
        None => None,
    }
}

/// The slice of an optional string.
pub fn option_str(text: &Option<String>) -> (slice: Option<&str>)
    ensures
        opt_str(slice) == opt_text(*text),
{
    match text {
        Some(t) => Some(t.as_str()),
        None => None,
    }
}

/// A copy of a list of strings.
pub fn copy_strings(strings: &[String]) -> (copy: Vec<String>)
    ensures
        copy@ == strings@,
{
    let mut copy: Vec<String> = Vec::new();
    let mut i: usize = 0;
    while i < strings.len()
        invariant
            i <= strings@.len(),
            copy@ == strings@.take(i as int),
        decreases strings@.len() - i,
    {
        copy.push(strings[i].clone());
        i += 1;
        assert(copy@ =~= strings@.take(i as int));
    }
    assert(copy@ =~= strings@);
    copy
}

/// Whether `id` is one of `strings`.
pub fn is_member(strings: &[String], id: &str) -> (yes: bool)
    ensures
        yes == texts(strings@).contains(id@),
{
    let mut i: usize = 0;
    while i < strings.len()
        invariant
            i <= strings@.len(),
            forall|j: int| 0 <= j < i ==> strings@[j]@ != id@,
        decreases strings@.len() - i,
    {
        if same(strings[i].as_str(), id) {
            assert(texts(strings@)[i as int] == id@);
            return true;
        }
        i += 1;
    }
    false
}

// ---------------------------------------------------------------------------------------
// Trimming
// ---------------------------------------------------------------------------------------

/// `s` without its leading white space.
pub open spec fn trim_start(s: Seq<char>) -> Seq<char>
    decreases s.len(),
{
    if s.len() > 0 && is_white_space(s[0]) {
        trim_start(s.drop_first())
    } else {
        s
    }
}

/// `s` without its trailing white space.
pub open spec fn trim_end(s: Seq<char>) -> Seq<char>
    decreases s.len(),
{
    if s.len() > 0 && is_white_space(s.last()) {
        trim_end(s.drop_last())
    } else {
        s
    }
}

/// `s` without its leading and trailing white space.
pub open spec fn trimmed(s: Seq<char>) -> Seq<char> {
    trim_end(trim_start(s))
}

/// Trimming leaves a part of the text: it brings nothing in.
pub proof fn trimmed_is_part(s: Seq<char>)
    ensures
        trimmed(s).len() <= s.len(),
        forall|c: char| #[trigger] trimmed(s).contains(c) ==> s.contains(c),
{
    lemma_trim_start(s);
    lemma_trim_end(trim_start(s));
}

proof fn lemma_trim_start(s: Seq<char>)
    ensures
        trim_start(s).len() <= s.len(),
        forall|c: char| #[trigger] trim_start(s).contains(c) ==> s.contains(c),
    decreases s.len(),
{
    if s.len() > 0 && is_white_space(s[0]) {
        lemma_trim_start(s.drop_first());
        assert forall|c: char| #[trigger] trim_start(s).contains(c) implies s.contains(c) by {
            let rest = s.drop_first();
            assert(rest.contains(c));
            let k = choose|k: int| 0 <= k < rest.len() && rest[k] == c;
            assert(s[k + 1] == c);
        }
    }
}

proof fn lemma_trim_end(s: Seq<char>)
    ensures
        trim_end(s).len() <= s.len(),
        forall|c: char| #[trigger] trim_end(s).contains(c) ==> s.contains(c),
    decreases s.len(),
{
    if s.len() > 0 && is_white_space(s.last()) {
        lemma_trim_end(s.drop_last());
        assert forall|c: char| #[trigger] trim_end(s).contains(c) implies s.contains(c) by {
            let rest = s.drop_last();
            assert(rest.contains(c));
            let k = choose|k: int| 0 <= k < rest.len() && rest[k] == c;
            assert(s[k] == c);
        }
    }
}

/// `text` without its leading and trailing white space.
pub fn trim(text: &str) -> (inner: String)
    ensures
        inner@ == trimmed(text@),
{
    let chars = chars_of(text);
    let mut from: usize = 0;
    assert(chars@.skip(0) =~= chars@);
    while from < chars.len() && white_space(chars[from])
        invariant
            from <= chars@.len(),
            trim_start(chars@) == trim_start(chars@.skip(from as int)),
        decreases chars@.len() - from,
    {
        assert(chars@.skip(from as int).drop_first() =~= chars@.skip(from + 1));
        from += 1;
    }
    let ghost rest = chars@.skip(from as int);
    assert(trim_start(chars@) == rest);
    let mut to: usize = chars.len();
    assert(chars@.subrange(from as int, to as int) =~= rest);
    while from < to && white_space(chars[to - 1])
        invariant
            from <= to <= chars@.len(),
            trim_end(rest) == trim_end(chars@.subrange(from as int, to as int)),
        decreases to - from,
    {
        let ghost s = chars@.subrange(from as int, to as int);
        assert(s.last() == chars@[to - 1]);
        assert(s.drop_last() =~= chars@.subrange(from as int, to - 1));
        to -= 1;
    }
    proof {
        let s = chars@.subrange(from as int, to as int);
        if from < to {
            assert(s.last() == chars@[to - 1]);
        }
    }
    string_of(chars.as_slice(), from, to)
}

/// `text` trimmed, if anything is left of it.
pub fn trim_non_empty(text: &str) -> (inner: Option<String>)
    ensures
        opt_text(inner) == (if trimmed(text@).len() == 0 {
            None
        } else {
            Some(trimmed(text@))
        }),
{
    let inner = trim(text);
    if inner.as_str().is_empty() {
        None
    } else {
        Some(inner)
    }
}

// ---------------------------------------------------------------------------------------
// ASCII case
// ---------------------------------------------------------------------------------------

/// `s` with the letters `A` to `Z` in lower case.
pub open spec fn lower(s: Seq<char>) -> Seq<char> {
    s.map_values(|c: char| lower_char(c))
}

/// `text` with the letters `A` to `Z` in lower case.
pub fn to_ascii_lowercase(text: &str) -> (lowered: String)
    ensures
        lowered@ == lower(text@),
{
    let mut lowered = String::new();
    for c in it: text.chars()
        invariant
            lowered@ == lower(it.seq().take(it.index() as int)),
            it.seq() == text@,
    {
        let ghost before = it.seq().take(it.index() as int);
        lowered.push(to_lower_char(c));
        assert(lower(it.seq().take(it.index() + 1)) =~= lower(before).push(lower_char(c)));
    }
    assert(text@.take(text@.len() as int) =~= text@);
    lowered
}

proof fn lemma_trim_start_edge(s: Seq<char>)
    ensures
        trim_start(s).len() > 0 ==> !is_white_space(trim_start(s)[0]),
    decreases s.len(),
{
    if s.len() > 0 && is_white_space(s[0]) {
        lemma_trim_start_edge(s.drop_first());
    }
}

proof fn lemma_trim_end_edges(s: Seq<char>)
    ensures
        trim_end(s).len() > 0 ==> !is_white_space(trim_end(s).last()) && s.len() > 0
            && trim_end(s)[0] == s[0],
    decreases s.len(),
{
    if s.len() > 0 && is_white_space(s.last()) {
        lemma_trim_end_edges(s.drop_last());
    }
}

/// A text that was trimmed and put in lower case stays as it is when that is done once more.
pub proof fn tidying_is_idempotent(s: Seq<char>)
    ensures
        lower(trimmed(lower(trimmed(s)))) == lower(trimmed(s)),
{
    let tidy = lower(trimmed(s));
    lemma_trim_start_edge(s);
    lemma_trim_end_edges(trim_start(s));
    assert(trimmed(tidy) == tidy);
    assert(lower(tidy) =~= tidy);
}

/// Whether two texts differ at most in ASCII case.
pub fn eq_ignore_ascii_case(a: &str, b: &str) -> (yes: bool)
    ensures
        yes == (lower(a@) == lower(b@)),
{
    let x = to_ascii_lowercase(a);
    let y = to_ascii_lowercase(b);
    same(x.as_str(), y.as_str())
}

// ---------------------------------------------------------------------------------------
// Searching
// ---------------------------------------------------------------------------------------

/// `part` stands in `s` at position `i`.
pub open spec fn occurs_at(s: Seq<char>, part: Seq<char>, i: int) -> bool {
    0 <= i && i + part.len() <= s.len() && s.subrange(i, i + part.len()) == part
}

/// `part` stands somewhere in `s`.
pub open spec fn has_part(s: Seq<char>, part: Seq<char>) -> bool {
    exists|i: int| occurs_at(s, part, i)
}

/// `s` begins with `part`.
pub open spec fn has_prefix(s: Seq<char>, part: Seq<char>) -> bool {
    occurs_at(s, part, 0)
}

fn matches_at(chars: &[char], part: &[char], at: usize) -> (yes: bool)
    requires
        at <= chars@.len(),
    ensures
        yes == occurs_at(chars@, part@, at as int),
{
    if chars.len() - at < part.len() {
        return false;
    }
    let mut k: usize = 0;
    while k < part.len()
        invariant
            k <= part@.len(),
            at + part@.len() <= chars.len(),
            forall|j: int| 0 <= j < k ==> chars@[at + j] == part@[j],
        decreases part@.len() - k,
    {
        if chars[at + k] != part[k] {
            assert(chars@.subrange(at as int, at + part@.len())[k as int] != part@[k as int]);
            return false;
        }
        k += 1;
    }
    assert(chars@.subrange(at as int, at + part@.len()) =~= part@);
    true
}

/// Whether `part` stands somewhere in `text`.
pub fn contains(text: &str, part: &str) -> (yes: bool)
    ensures
        yes == has_part(text@, part@),
{
    let chars = chars_of(text);
    let wanted = chars_of(part);
    let mut i: usize = 0;
    while i < chars.len()
        invariant
            i <= chars@.len(),
            chars@ == text@,
            wanted@ == part@,
            forall|j: int| 0 <= j < i ==> !occurs_at(chars@, wanted@, j),
        decreases chars@.len() - i,
    {
        if matches_at(chars.as_slice(), wanted.as_slice(), i) {
            return true;
        }
        i += 1;
    }
    matches_at(chars.as_slice(), wanted.as_slice(), i)
}

/// Whether `text` begins with `part`.
pub fn starts_with(text: &str, part: &str) -> (yes: bool)
    ensures
        yes == has_prefix(text@, part@),
{
    let chars = chars_of(text);
    let wanted = chars_of(part);
    matches_at(chars.as_slice(), wanted.as_slice(), 0)
}

/// What follows `part` in `text`, if `text` begins with it.
pub fn strip_prefix(text: &str, part: &str) -> (rest: Option<String>)
    ensures
        opt_text(rest) == (if has_prefix(text@, part@) {
            Some(text@.skip(part@.len() as int))
        } else {
            None
        }),
{
    let chars = chars_of(text);
    let wanted = chars_of(part);
    if matches_at(chars.as_slice(), wanted.as_slice(), 0) {
        let rest = string_of(chars.as_slice(), wanted.len(), chars.len());
        assert(rest@ =~= text@.skip(part@.len() as int));
        Some(rest)
    } else {
        None
    }
}

// ---------------------------------------------------------------------------------------
// Order
// ---------------------------------------------------------------------------------------

/// `a` does not stand behind `b` in the order of a dictionary whose letters are ordered by
/// their code points.
pub open spec fn not_behind(a: Seq<char>, b: Seq<char>) -> bool
    decreases a.len(),
{
    if a.len() == 0 {
        true
    } else if b.len() == 0 {
        false
    } else if a[0] == b[0] {
        not_behind(a.drop_first(), b.drop_first())
    } else {
        a[0] < b[0]
    }
}

/// Whether `a` does not stand behind `b` in dictionary order.
pub fn in_order(a: &str, b: &str) -> (yes: bool)
    ensures
        yes == not_behind(a@, b@),
{
    let x = chars_of(a);
    let y = chars_of(b);
    let mut i: usize = 0;
    assert(x@.skip(0) =~= x@);
    assert(y@.skip(0) =~= y@);
    while i < x.len() && i < y.len()
        invariant
            i <= x@.len(),
            i <= y@.len(),
            x@ == a@,
            y@ == b@,
            not_behind(a@, b@) == not_behind(x@.skip(i as int), y@.skip(i as int)),
        decreases x@.len() - i,
    {
        if x[i] != y[i] {
            return x[i] < y[i];
        }
        assert(x@.skip(i as int).drop_first() =~= x@.skip(i + 1));
        assert(y@.skip(i as int).drop_first() =~= y@.skip(i + 1));
        i += 1;
    }
    i == x.len()
}

/// Dictionary order compares any two texts, is consistent, and puts only equal texts on
/// either side of each other.
pub proof fn dictionary_order(a: Seq<char>, b: Seq<char>, c: Seq<char>)
    ensures
        not_behind(a, b) || not_behind(b, a),
        not_behind(a, b) && not_behind(b, c) ==> not_behind(a, c),
        not_behind(a, b) && not_behind(b, a) ==> a == b,
    decreases a.len(),
{
    if a.len() > 0 && b.len() > 0 {
        let c_rest = if c.len() > 0 {
            c.drop_first()
        } else {
            c
        };
        dictionary_order(a.drop_first(), b.drop_first(), c_rest);
        if a[0] == b[0] && a.drop_first() == b.drop_first() {
            assert(a =~= seq![a[0]] + a.drop_first());
            assert(b =~= seq![b[0]] + b.drop_first());
        }
    } else if a.len() == 0 && b.len() == 0 {
        assert(a =~= b);
    }
}

// ---------------------------------------------------------------------------------------
// Splitting
// ---------------------------------------------------------------------------------------

/// The position of the first `c` in `s`, or the length of `s` if there is none.
pub open spec fn index_of_char(s: Seq<char>, c: char) -> int
    decreases s.len(),
{
    if s.len() == 0 || s[0] == c {
        0
    } else {
        1 + index_of_char(s.drop_first(), c)
    }
}

/// Where `c` first stands: nothing before it is `c`.
pub proof fn lemma_index_of_char(s: Seq<char>, c: char, k: int)
    requires
        0 <= k <= s.len(),
        forall|j: int| 0 <= j < k ==> s[j] != c,
        k < s.len() ==> s[k] == c,
    ensures
        index_of_char(s, c) == k,
    decreases s.len(),
{
    if k > 0 {
        assert forall|j: int| 0 <= j < k - 1 implies s.drop_first()[j] != c by {
            assert(s[j + 1] != c);
        }
        lemma_index_of_char(s.drop_first(), c, k - 1);
    }
}

/// `s` without a carriage return at its end.
pub open spec fn without_cr(s: Seq<char>) -> Seq<char> {
    if s.len() > 0 && s.last() == '\r' {
        s.drop_last()
    } else {
        s
    }
}

/// The lines of `s`: each ends at a line feed, with a carriage return before it if there is
/// one, or at the end of `s`; a line feed at the very end starts no further line.
pub open spec fn line_seq(s: Seq<char>) -> Seq<Seq<char>>
    decreases s.len(),
    via line_seq_shrinks
{
    let i = index_of_char(s, '\n');
    if s.len() == 0 {
        Seq::empty()
    } else if i < s.len() {
        seq![without_cr(s.take(i))] + line_seq(s.skip(i + 1))
    } else {
        seq![s]
    }
}

#[via_fn]
proof fn line_seq_shrinks(s: Seq<char>) {
    lemma_index_of_char_range(s, '\n');
}

proof fn lemma_index_of_char_range(s: Seq<char>, c: char)
    ensures
        0 <= index_of_char(s, c) <= s.len(),
    decreases s.len(),
{
    if s.len() > 0 && s[0] != c {
        lemma_index_of_char_range(s.drop_first(), c);
    }
}

/// The lines of `text`.
pub fn lines(text: &str) -> (list: Vec<String>)
    ensures
        texts(list@) == line_seq(text@),
{
    let chars = chars_of(text);
    let mut list: Vec<String> = Vec::new();
    let mut start: usize = 0;
    let mut i: usize = 0;
    assert(chars@.skip(0) =~= chars@);
    assert(texts(list@) + line_seq(chars@) =~= line_seq(chars@));
    while i < chars.len()
        invariant
            start <= i <= chars@.len(),
            line_seq(chars@) == texts(list@) + line_seq(chars@.skip(start as int)),
            forall|j: int| start <= j < i ==> chars@[j] != '\n',
        decreases chars@.len() - i,
    {
        if chars[i] == '\n' {
            let ghost rest = chars@.skip(start as int);
            let to: usize = if i > start && chars[i - 1] == '\r' {
                i - 1
            } else {
                i
            };
            let line = string_of(chars.as_slice(), start, to);
            proof {
                lemma_index_of_char(rest, '\n', i - start);
                assert(rest.take(i - start) =~= chars@.subrange(start as int, i as int));
                assert(line@ =~= without_cr(rest.take(i - start)));
                assert(rest.skip(i - start + 1) =~= chars@.skip(i + 1));
            }
            let ghost before = list@;
            list.push(line);
            proof {
                assert(texts(list@) =~= texts(before) + seq![line@]);
                assert(texts(list@) + line_seq(chars@.skip(i + 1)) =~= texts(before) + (seq![line@]
                    + line_seq(chars@.skip(i + 1))));
            }
            start = i + 1;
        }
        i += 1;
    }
    if start < chars.len() {
        let ghost rest = chars@.skip(start as int);
        let line = string_of(chars.as_slice(), start, chars.len());
        let ghost before = list@;
        proof {
            lemma_index_of_char(rest, '\n', rest.len() as int);
            assert(line@ =~= rest);
        }
        list.push(line);
        assert(texts(list@) =~= texts(before) + seq![line@]);
    } else {
        assert(texts(list@) =~= texts(list@) + line_seq(chars@.skip(start as int)));
    }
    list
}

/// `s` cut at its first colon: what stands before it and what stands behind it.
pub open spec fn cut_at_colon(s: Seq<char>) -> Option<(Seq<char>, Seq<char>)> {
    let i = index_of_char(s, ':');
    if i < s.len() {
        Some((s.take(i), s.skip(i + 1)))
    } else {
        None
    }
}

/// `text` cut at its first colon.
pub fn split_at_colon(text: &str) -> (parts: Option<(String, String)>)
    ensures
        cut_at_colon(text@) == (match parts {
            Some((name, value)) => Some((name@, value@)),
            None => None,
        }),
{
    let chars = chars_of(text);
    let mut i: usize = 0;
    while i < chars.len()
        invariant
            i <= chars@.len(),
            chars@ == text@,
            forall|j: int| 0 <= j < i ==> chars@[j] != ':',
        decreases chars@.len() - i,
    {
        if chars[i] == ':' {
            proof {
                lemma_index_of_char(chars@, ':', i as int);
            }
            let name = string_of(chars.as_slice(), 0, i);
            let value = string_of(chars.as_slice(), i + 1, chars.len());
            assert(value@ =~= text@.skip(i + 1));
            return Some((name, value));
        }
        i += 1;
    }
    proof {
        lemma_index_of_char(chars@, ':', i as int);
    }
    None
}

/// The length of the longest prefix of `s` without white space.
pub open spec fn word_len(s: Seq<char>) -> int
    decreases s.len(),
{
    if s.len() == 0 || is_white_space(s[0]) {
        0
    } else {
        1 + word_len(s.drop_first())
    }
}

proof fn lemma_word_len(s: Seq<char>, k: int)
    requires
        0 <= k <= s.len(),
        forall|j: int| 0 <= j < k ==> !is_white_space(s[j]),
        k < s.len() ==> is_white_space(s[k]),
    ensures
        word_len(s) == k,
    decreases s.len(),
{
    if k > 0 {
        assert forall|j: int| 0 <= j < k - 1 implies !is_white_space(s.drop_first()[j]) by {
            assert(!is_white_space(s[j + 1]));
        }
        lemma_word_len(s.drop_first(), k - 1);
    }
}

proof fn lemma_word_len_range(s: Seq<char>)
    ensures
        0 <= word_len(s) <= s.len(),
        s.len() > 0 && !is_white_space(s[0]) ==> word_len(s) > 0,
    decreases s.len(),
{
    if s.len() > 0 && !is_white_space(s[0]) {
        lemma_word_len_range(s.drop_first());
    }
}

/// The words of `s`: the longest runs of characters that are not white space.
pub open spec fn word_seq(s: Seq<char>) -> Seq<Seq<char>>
    decreases s.len(),
    via word_seq_shrinks
{
    if s.len() == 0 {
        Seq::empty()
    } else if is_white_space(s[0]) {
        word_seq(s.drop_first())
    } else {
        seq![s.take(word_len(s))] + word_seq(s.skip(word_len(s)))
    }
}

#[via_fn]
proof fn word_seq_shrinks(s: Seq<char>) {
    lemma_word_len_range(s);
}

/// The words of `text`.
pub fn words(text: &str) -> (list: Vec<String>)
    ensures
        texts(list@) == word_seq(text@),
{
    let chars = chars_of(text);
    let mut list: Vec<String> = Vec::new();
    let mut i: usize = 0;
    assert(chars@.skip(0) =~= chars@);
    assert(texts(list@) + word_seq(chars@) =~= word_seq(chars@));
    while i < chars.len()
        invariant
            i <= chars@.len(),
            word_seq(chars@) == texts(list@) + word_seq(chars@.skip(i as int)),
        decreases chars@.len() - i,
    {
        let ghost rest = chars@.skip(i as int);
        if white_space(chars[i]) {
            assert(rest.drop_first() =~= chars@.skip(i + 1));
            i += 1;
        } else {
            let from: usize = i;
            i += 1;
            while i < chars.len() && !white_space(chars[i])
                invariant
                    from < i <= chars@.len(),
                    forall|j: int| from <= j < i ==> !is_white_space(chars@[j]),
                decreases chars@.len() - i,
            {
                i += 1;
            }
            let word = string_of(chars.as_slice(), from, i);
            let ghost before = list@;
            proof {
                lemma_word_len(rest, i - from);
                assert(word@ =~= rest.take(i - from));
                assert(rest.skip(i - from) =~= chars@.skip(i as int));
            }
            list.push(word);
            proof {
                assert(texts(list@) =~= texts(before) + seq![word@]);
                assert(texts(list@) + word_seq(chars@.skip(i as int)) =~= texts(before) + (
                seq![word@] + word_seq(chars@.skip(i as int))));
            }
        }
    }
    assert(texts(list@) =~= texts(list@) + word_seq(chars@.skip(i as int)));
    list
}

/// The lines joined, with `separator` between each and the next.
pub open spec fn joined(parts: Seq<Seq<char>>, separator: Seq<char>) -> Seq<char>
    decreases parts.len(),
{
    if parts.len() == 0 {
        Seq::empty()
    } else if parts.len() == 1 {
        parts[0]
    } else {
        joined(parts.drop_last(), separator) + separator + parts.last()
    }
}

/// The strings joined, with `separator` between each and the next.
pub fn join(parts: &[String], separator: &str) -> (text: String)
    ensures
        text@ == joined(texts(parts@), separator@),
{
    let mut text = String::new();
    let mut i: usize = 0;
    while i < parts.len()
        invariant
            i <= parts@.len(),
            text@ == joined(texts(parts@).take(i as int), separator@),
        decreases parts@.len() - i,
    {
        let ghost all = texts(parts@);
        proof {
            assert(all.take(i + 1).drop_last() =~= all.take(i as int));
            assert(all.take(i + 1).last() == parts@[i as int]@);
        }
        if i > 0 {
            text.append(separator);
        }
        text.append(parts[i].as_str());
        proof {
            assert(text@ =~= joined(all.take(i + 1), separator@));
        }
        i += 1;
    }
    assert(texts(parts@).take(i as int) =~= texts(parts@));
    text
}

// ---------------------------------------------------------------------------------------
// Numbers
// ---------------------------------------------------------------------------------------

/// The digit for `d`, which is below 16: `0` to `9`, then `A` to `F`.
pub open spec fn digit(d: nat) -> char {
    if d < 10 {
        (48 + d) as u8 as char
    } else {
        (55 + d) as u8 as char
    }
}

/// `n` written in the given base, most significant digit first and without leading zeros.
pub open spec fn numeral(n: nat, base: nat) -> Seq<char>
    decreases n,
{
    if base < 2 || n < base {
        seq![digit(n)]
    } else {
        proof {
            vstd::arithmetic::div_mod::lemma_div_decreases(n as int, base as int);
        }
        numeral(n / base, base).push(digit(n % base))
    }
}

/// `n` in decimal.
pub open spec fn decimal(n: nat) -> Seq<char> {
    numeral(n, 10)
}

fn write_numeral(n: u128, base: u128) -> (text: String)
    requires
        base == 10 || base == 16,
    ensures
        text@ == numeral(n as nat, base as nat),
    decreases n,
{
    let low: u8 = (n % base) as u8;
    let last: char = if low < 10 {
        (48 + low) as char
    } else {
        (55 + low) as char
    };
    let mut text = if n < base {
        String::new()
    } else {
        proof {
            vstd::arithmetic::div_mod::lemma_div_decreases(n as int, base as int);
        }
        write_numeral(n / base, base)
    };
    text.push(last);
    proof {
        if n < base {
            assert(n % base == n) by (nonlinear_arith)
                requires
                    n < base,
            ;
            assert(text@ =~= seq![digit(n as nat)]);
        }
    }
    text
}

/// `n` in decimal.
pub fn decimal_text(n: u128) -> (text: String)
    ensures
        text@ == decimal(n as nat),
{
    write_numeral(n, 10)
}

/// `n` in hexadecimal, with upper-case letters.
pub fn hex_text(n: u128) -> (text: String)
    ensures
        text@ == numeral(n as nat, 16),
{
    write_numeral(n, 16)
}

/// Why a text is no number of type `usize`.
#[derive(Debug, Clone, Copy, PartialEq, Eq, Structural)]
pub enum NumberError {
    /// The text is empty.
    Empty,
    /// A character that is no decimal digit.
    InvalidDigit,
    /// The digits stand for more than `usize` holds.
    TooLarge,
}

/// What the standard library says of a text that is no number.
pub open spec fn number_error_text(error: NumberError) -> Seq<char> {
    match error {
        NumberError::Empty => "cannot parse integer from empty string"@,
        NumberError::InvalidDigit => "invalid digit found in string"@,
        NumberError::TooLarge => "number too large to fit in target type"@,
    }
}

impl NumberError {
    /// The error in words.
    pub fn message(self) -> (text: String)
        ensures
            text@ == number_error_text(self),
    {
        match self {
            NumberError::Empty => "cannot parse integer from empty string".to_owned(),
            NumberError::InvalidDigit => "invalid digit found in string".to_owned(),
            NumberError::TooLarge => "number too large to fit in target type".to_owned(),
        }
    }
}

/// A decimal digit.
pub open spec fn is_digit(c: char) -> bool {
    '0' <= c <= '9'
}

/// The length of the longest prefix of `s` that is made of decimal digits.
pub open spec fn digits_len(s: Seq<char>) -> int
    decreases s.len(),
{
    if s.len() == 0 || !is_digit(s[0]) {
        0
    } else {
        1 + digits_len(s.drop_first())
    }
}

/// What the decimal digits `s` stand for.
pub open spec fn digits_value(s: Seq<char>) -> nat
    decreases s.len(),
{
    if s.len() == 0 {
        0
    } else {
        digits_value(s.drop_last()) * 10 + (s.last() as nat - 48) as nat
    }
}

/// The number that `s` stands for: decimal digits, with at most one `+` before them. The
/// first character that makes it fail decides on the error.
pub open spec fn number_of(s: Seq<char>) -> Result<nat, NumberError> {
    let body = if s.len() > 1 && s[0] == '+' {
        s.drop_first()
    } else {
        s
    };
    let n = digits_len(body);
    if s.len() == 0 {
        Err(NumberError::Empty)
    } else if digits_value(body.take(n)) > usize::MAX {
        Err(NumberError::TooLarge)
    } else if n < body.len() {
        Err(NumberError::InvalidDigit)
    } else {
        Ok(digits_value(body))
    }
}

proof fn lemma_digits_len(s: Seq<char>, k: int)
    requires
        0 <= k <= s.len(),
        forall|j: int| 0 <= j < k ==> is_digit(s[j]),
        k < s.len() ==> !is_digit(s[k]),
    ensures
        digits_len(s) == k,
    decreases s.len(),
{
    if k > 0 {
        assert forall|j: int| 0 <= j < k - 1 implies is_digit(s.drop_first()[j]) by {
            assert(is_digit(s[j + 1]));
        }
        lemma_digits_len(s.drop_first(), k - 1);
    }
}

proof fn lemma_digits_len_range(s: Seq<char>)
    ensures
        0 <= digits_len(s) <= s.len(),
        forall|j: int| 0 <= j < digits_len(s) ==> is_digit(s[j]),
        digits_len(s) < s.len() ==> !is_digit(s[digits_len(s)]),
    decreases s.len(),
{
    if s.len() > 0 && is_digit(s[0]) {
        lemma_digits_len_range(s.drop_first());
        assert forall|j: int| 0 <= j < digits_len(s) implies is_digit(s[j]) by {
            if j > 0 {
                assert(s[j] == s.drop_first()[j - 1]);
            }
        }
    }
}

/// More digits stand for at least as much.
proof fn lemma_digits_value_grows(s: Seq<char>, i: int, j: int)
    requires
        0 <= i <= j <= s.len(),
    ensures
        digits_value(s.take(i)) <= digits_value(s.take(j)),
    decreases j - i,
{
    if i < j {
        lemma_digits_value_grows(s, i, j - 1);
        assert(s.take(j).drop_last() =~= s.take(j - 1));
        assert(digits_value(s.take(j)) >= digits_value(s.take(j - 1)) * 10);
    }
}

/// The number that `text` stands for.
pub fn parse_usize(text: &str) -> (number: Result<usize, NumberError>)
    ensures
        number_of(text@) == (match number {
            Ok(n) => Ok::<nat, NumberError>(n as nat),
            Err(e) => Err(e),
        }),
{
    let chars = chars_of(text);
    if chars.len() == 0 {
        return Err(NumberError::Empty);
    }
    let start: usize = if chars.len() > 1 && chars[0] == '+' {
        1
    } else {
        0
    };
    let ghost body = chars@.skip(start as int);
    assert(body == if text@.len() > 1 && text@[0] == '+' {
        text@.drop_first()
    } else {
        text@
    }) by {
        assert(chars@.skip(0) =~= chars@);
    }
    let mut value: usize = 0;
    let mut i: usize = start;
    proof {
        lemma_digits_len_range(body);
        assert(body.take(0) =~= Seq::empty());
    }
    while i < chars.len()
        invariant
            start <= i <= chars@.len(),
            body == chars@.skip(start as int),
            chars@ == text@,
            text@.len() > 0,
            body == (if text@.len() > 1 && text@[0] == '+' {
                text@.drop_first()
            } else {
                text@
            }),
            value == digits_value(body.take(i - start)),
            forall|j: int| 0 <= j < i - start ==> is_digit(body[j]),
        decreases chars@.len() - i,
    {
        let c = chars[i];
        assert(body[i - start] == c);
        if !('0' <= c && c <= '9') {
            proof {
                lemma_digits_len(body, i - start);
            }
            return Err(NumberError::InvalidDigit);
        }
        let d: usize = (c as u8 - 48) as usize;
        proof {
            assert(body.take(i - start + 1).drop_last() =~= body.take(i - start));
            assert(digits_value(body.take(i - start + 1)) == value * 10 + d);
            lemma_digits_len_range(body);
            assert(i - start + 1 <= digits_len(body)) by {
                if digits_len(body) < i - start + 1 {
                    assert(is_digit(body[digits_len(body)]));
                }
            }
            lemma_digits_value_grows(body, i - start + 1, digits_len(body));
        }
        if value > (usize::MAX - d) / 10 {
            return Err(NumberError::TooLarge);
        }
        value = value * 10 + d;
        i += 1;
    }
    proof {
        lemma_digits_len(body, body.len() as int);
        assert(body.take(body.len() as int) =~= body);
    }
    Ok(value)
}

// ---------------------------------------------------------------------------------------
// Laws
// ---------------------------------------------------------------------------------------

/// There is nothing but white space in `s`.
pub open spec fn all_white(s: Seq<char>) -> bool {
    forall|i: int| 0 <= i < s.len() ==> is_white_space(#[trigger] s[i])
}

proof fn lemma_trim_start_parts(s: Seq<char>)
    ensures
        trim_start(s).len() <= s.len(),
        all_white(s.take(s.len() - trim_start(s).len())),
        s.skip(s.len() - trim_start(s).len()) == trim_start(s),
    decreases s.len(),
{
    let n = s.len() - trim_start(s).len();
    if s.len() > 0 && is_white_space(s[0]) {
        let rest = s.drop_first();
        lemma_trim_start_parts(rest);
        assert forall|i: int| 0 <= i < s.take(n).len() implies is_white_space(
            #[trigger] s.take(n)[i],
        ) by {
            if i > 0 {
                assert(s.take(n)[i] == rest.take(n - 1)[i - 1]);
            }
        }
        assert(s.skip(n) =~= rest.skip(n - 1));
    } else {
        assert(s.skip(0) =~= s);
    }
}

proof fn lemma_trim_end_parts(s: Seq<char>)
    ensures
        trim_end(s).len() <= s.len(),
        all_white(s.skip(trim_end(s).len() as int)),
        s.take(trim_end(s).len() as int) == trim_end(s),
    decreases s.len(),
{
    let n = trim_end(s).len() as int;
    if s.len() > 0 && is_white_space(s.last()) {
        let rest = s.drop_last();
        lemma_trim_end_parts(rest);
        assert forall|i: int| 0 <= i < s.skip(n).len() implies is_white_space(
            #[trigger] s.skip(n)[i],
        ) by {
            if n + i < rest.len() {
                assert(s.skip(n)[i] == rest.skip(n)[i]);
            }
        }
        assert(s.take(n) =~= rest.take(n));
    } else {
        assert(s.take(n) =~= s);
    }
}

/// Trimming takes away the white space at both ends of a text and nothing else.
pub proof fn trimming_takes_white_ends(s: Seq<char>) -> (at: int)
    ensures
        0 <= at <= at + trimmed(s).len() <= s.len(),
        trimmed(s) == s.subrange(at, at + trimmed(s).len()),
        all_white(s.take(at)),
        all_white(s.skip(at + trimmed(s).len())),
        trimmed(s).len() > 0 ==> !is_white_space(trimmed(s)[0]) && !is_white_space(
            trimmed(s).last(),
        ),
{
    let inner = trim_start(s);
    let at = s.len() - inner.len();
    lemma_trim_start_parts(s);
    lemma_trim_end_parts(inner);
    lemma_trim_start_edge(s);
    lemma_trim_end_edges(inner);
    let n = trimmed(s).len() as int;
    assert(inner == s.skip(at));
    assert(trimmed(s) =~= s.subrange(at, at + n));
    assert forall|i: int| 0 <= i < s.skip(at + n).len() implies is_white_space(
        #[trigger] s.skip(at + n)[i],
    ) by {
        assert(s.skip(at + n)[i] == inner.skip(n)[i]);
    }
    at
}

/// Lower case changes the letters `A` to `Z` into `a` to `z`, one by one, and nothing else.
pub proof fn lower_case_changes_letters(s: Seq<char>, i: int)
    requires
        0 <= i < s.len(),
    ensures
        lower(s).len() == s.len(),
        'A' <= s[i] <= 'Z' ==> lower(s)[i] as int == s[i] as int + 32,
        !('A' <= s[i] <= 'Z') ==> lower(s)[i] == s[i],
{
}

proof fn lemma_decimal_digits(n: nat)
    ensures
        decimal(n).len() > 0,
        digits_value(decimal(n)) == n,
        forall|i: int| 0 <= i < decimal(n).len() ==> is_digit(#[trigger] decimal(n)[i]),
        n > 0 ==> decimal(n)[0] != '0',
    decreases n,
{
    let s = decimal(n);
    if n < 10 {
        assert(s =~= seq![digit(n)]);
        assert(s.drop_last() =~= Seq::empty());
        assert(digits_value(s.drop_last()) == 0);
        assert(s.last() as nat == 48 + n);
    } else {
        vstd::arithmetic::div_mod::lemma_div_decreases(n as int, 10);
        let high = decimal(n / 10);
        lemma_decimal_digits(n / 10);
        assert(s == high.push(digit(n % 10)));
        assert(s.drop_last() =~= high);
        assert(s.last() as nat == 48 + n % 10);
        assert(n == n / 10 * 10 + n % 10);
    }
}

/// A number in decimal reads back as that number: digits only, and no leading zero.
pub proof fn decimals_read_back(n: nat)
    requires
        n <= usize::MAX,
    ensures
        number_of(decimal(n)) == Ok::<nat, NumberError>(n),
        n > 0 ==> decimal(n)[0] != '0',
{
    lemma_decimal_digits(n);
    let s = decimal(n);
    lemma_digits_len(s, s.len() as int);
    assert(s.take(s.len() as int) =~= s);
    assert(is_digit(s[0]));
}

/// Lines end at line feeds, and at the end of the text: each is what stands before the feed,
/// without a carriage return at its end.
pub proof fn lines_end_at_feeds(line: Seq<char>, rest: Seq<char>)
    requires
        forall|i: int| 0 <= i < line.len() ==> #[trigger] line[i] != '\n',
    ensures
        line.len() == 0 || line.last() != '\r' ==> line_seq(line + seq!['\n'] + rest) == seq![line]
            + line_seq(rest),
        line_seq(line + seq!['\r', '\n'] + rest) == seq![line] + line_seq(rest),
        line.len() > 0 ==> line_seq(line) == seq![line],
        line_seq(Seq::<char>::empty()).len() == 0,
{
    let n = line.len() as int;
    let s = line + seq!['\n'] + rest;
    assert forall|j: int| 0 <= j < n implies s[j] != '\n' by {
        assert(s[j] == line[j]);
    }
    lemma_index_of_char(s, '\n', n);
    assert(s.take(n) =~= line);
    assert(s.skip(n + 1) =~= rest);
    let t = line + seq!['\r', '\n'] + rest;
    assert forall|j: int| 0 <= j < n + 1 implies t[j] != '\n' by {
        if j < n {
            assert(t[j] == line[j]);
        }
    }
    lemma_index_of_char(t, '\n', n + 1);
    assert(t.take(n + 1) =~= line.push('\r'));
    assert(line.push('\r').drop_last() =~= line);
    assert(t.skip(n + 2) =~= rest);
    lemma_index_of_char(line, '\n', n);
}

/// What stands before the first colon and what stands behind it.
pub proof fn colons_cut(name: Seq<char>, value: Seq<char>)
    requires
        forall|i: int| 0 <= i < name.len() ==> #[trigger] name[i] != ':',
    ensures
        cut_at_colon(name + seq![':'] + value) == Some((name, value)),
        cut_at_colon(name) is None,
{
    let n = name.len() as int;
    let s = name + seq![':'] + value;
    assert forall|j: int| 0 <= j < n implies s[j] != ':' by {
        assert(s[j] == name[j]);
    }
    lemma_index_of_char(s, ':', n);
    lemma_index_of_char(name, ':', n);
    assert(s.take(n) =~= name);
    assert(s.skip(n + 1) =~= value);
}

/// Of two texts that begin alike, the one that ends first comes first; if neither does, the
/// first character in which they differ decides.
pub proof fn first_difference_decides(start: Seq<char>, a: Seq<char>, b: Seq<char>)
    ensures
        a.len() == 0 ==> not_behind(start + a, start + b),
        a.len() > 0 && b.len() == 0 ==> !not_behind(start + a, start + b),
        a.len() > 0 && b.len() > 0 && a[0] != b[0] ==> not_behind(start + a, start + b) == (a[0]
            < b[0]),
    decreases start.len(),
{
    if start.len() > 0 {
        let rest = start.drop_first();
        first_difference_decides(rest, a, b);
        assert((start + a).drop_first() =~= rest + a);
        assert((start + b).drop_first() =~= rest + b);
    } else {
        assert(start + a =~= a);
        assert(start + b =~= b);
    }
}

/// Joining puts the separator between each part and the next, and nowhere else.
pub proof fn joining_puts_separators_between(
    parts: Seq<Seq<char>>,
    last: Seq<char>,
    separator: Seq<char>,
)
    ensures
        joined(Seq::empty(), separator).len() == 0,
        joined(seq![last], separator) == last,
        parts.len() > 0 ==> joined(parts.push(last), separator) == joined(parts, separator)
            + separator + last,
{
    assert(parts.push(last).drop_last() =~= parts);
}

/// White space parts words: what stands before it is a word if it is not empty, and what
/// follows is read in the same way.
pub proof fn words_end_at_white_space(word: Seq<char>, space: char, rest: Seq<char>)
    requires
        word.len() > 0,
        forall|i: int| 0 <= i < word.len() ==> !is_white_space(#[trigger] word[i]),
        is_white_space(space),
    ensures
        word_seq(word + seq![space] + rest) == seq![word] + word_seq(rest),
        word_seq(seq![space] + rest) == word_seq(rest),
        word_seq(word) == seq![word],
        word_seq(Seq::<char>::empty()).len() == 0,
{
    let n = word.len() as int;
    let s = word + seq![space] + rest;
    assert forall|j: int| 0 <= j < n implies !is_white_space(s[j]) by {
        assert(s[j] == word[j]);
    }
    lemma_word_len(s, n);
    assert(s[0] == word[0]);
    assert(s.take(n) =~= word);
    assert(s.skip(n) =~= seq![space] + rest);
    let t = seq![space] + rest;
    assert(t[0] == space);
    assert(t.drop_first() =~= rest);
    assert(t.skip(1) =~= rest);
    assert(word_seq(t) == word_seq(rest));
    assert(word_seq(s) == seq![word] + word_seq(s.skip(n)));
    lemma_word_len(word, n);
    assert(word.take(n) =~= word);
    assert(word.skip(n) =~= Seq::empty());
    assert(word_seq(Seq::<char>::empty()) =~= Seq::empty());
    assert(seq![word] + word_seq(Seq::<char>::empty()) =~= seq![word]);
}

} // verus!
