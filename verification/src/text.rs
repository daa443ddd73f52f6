//! Text as a sequence of characters: the vocabulary in which the rest of the
//! library states what it reads and writes.

use vstd::prelude::*;

verus! {

/// `String::push` appends one character.
pub assume_specification[ String::push ](s: &mut String, c: char)
    ensures
        final(s)@ == old(s)@.push(c),
;

/// `String::push_str` appends a whole string slice.
pub assume_specification[ String::push_str ](s: &mut String, t: &str)
    ensures
        final(s)@ == old(s)@ + t@,
;

/// What each string of a sequence holds.
pub open spec fn views(v: Seq<String>) -> Seq<Seq<char>> {
    Seq::new(v.len(), |i: int| v[i]@)
}

/// What an optional string holds.
pub open spec fn opt_view(o: Option<String>) -> Option<Seq<char>> {
    match o {
        Some(s) => Some(s@),
        None => None,
    }
}

/// What a reference to a text may hold.
pub open spec fn ref_view(o: Option<&str>) -> Option<Seq<char>> {
    match o {
        Some(s) => Some(s@),
        None => None,
    }
}

pub proof fn lemma_views_push(v: Seq<String>, s: String)
    ensures
        views(v.push(s)) == views(v).push(s@),
{
    assert(views(v.push(s)) =~= views(v).push(s@));
}

/// Concatenation is associative.
pub proof fn lemma_concat<A>(a: Seq<A>, b: Seq<A>, c: Seq<A>)
    ensures
        a + b + c == a + (b + c),
{
    assert(a + b + c =~= a + (b + c));
}

/// Appending `b` and then the single item `e` is appending all of it at once.
pub proof fn lemma_concat_item<A>(a: Seq<A>, b: Seq<A>, e: A, c: Seq<A>)
    ensures
        (a + b).push(e) + c == a + (b + seq![e] + c),
{
    assert((a + b).push(e) + c =~= a + (b + seq![e] + c));
}

/// The characters of a string slice, in order.
pub fn chars_of(s: &str) -> (out: Vec<char>)
    ensures
        out@ == s@,
{
    let mut out: Vec<char> = Vec::new();
    for c in it: s.chars()
        invariant
            it.seq() == s@,
            out@ == s@.take(it.index() as int),
    {
        out.push(c);
        assert(out@ =~= s@.take(it.index() as int + 1));
    }
    assert(s@.take(s@.len() as int) =~= s@);
    out
}

/// The characters `from..to` of a vector as a string.
pub fn string_of(v: &Vec<char>, from: usize, to: usize) -> (out: String)
    requires
        from <= to <= v@.len(),
    ensures
        out@ == v@.subrange(from as int, to as int),
{
    let mut out = String::new();
    let mut i: usize = from;
    while i < to
        invariant
            from <= i <= to <= v@.len(),
            out@ == v@.subrange(from as int, i as int),
        decreases to - i,
    {
        out.push(v[i]);
        assert(v@.subrange(from as int, i as int).push(v@[i as int]) =~= v@.subrange(
            from as int,
            i as int + 1,
        ));
        i += 1;
    }
    out
}


/// A fresh copy of a string slice.
pub fn copy_of(s: &str) -> (out: String)
    ensures
        out@ == s@,
{
    s.to_owned()
}

/// Whether two string slices hold the same characters.
pub fn same_text(a: &str, b: &str) -> (same: bool)
    ensures
        same == (a@ == b@),
{
    let x = chars_of(a);
    let y = chars_of(b);
    if x.len() != y.len() {
        return false;
    }
    assert(x@.subrange(0, x@.len() as int) =~= x@);
    matches_at_chars(&x, 0, &y)
}

// ---------------------------------------------------------------------------
// Characters
// ---------------------------------------------------------------------------

/// The characters with the Unicode `White_Space` property.
pub open spec fn whitespace(c: char) -> bool {
    let u = c as u32;
    ||| 0x09 <= u <= 0x0d
    ||| u == 0x20
    ||| u == 0x85
    ||| u == 0xa0
    ||| u == 0x1680
    ||| 0x2000 <= u <= 0x200a
    ||| u == 0x2028
    ||| u == 0x2029
    ||| u == 0x202f
    ||| u == 0x205f
    ||| u == 0x3000
}

/// Whether the character has the White_Space property.
pub fn is_whitespace(c: char) -> (w: bool)
    ensures
        w == whitespace(c),
{
    let u: u32 = c as u32;
    (0x09 <= u && u <= 0x0d) || u == 0x20 || u == 0x85 || u == 0xa0 || u == 0x1680 || (0x2000 <= u
        && u <= 0x200a) || u == 0x2028 || u == 0x2029 || u == 0x202f || u == 0x205f || u == 0x3000
}

pub open spec fn ascii_digit(c: char) -> bool {
    '0' <= c <= '9'
}

pub open spec fn ascii_upper(c: char) -> bool {
    'A' <= c <= 'Z'
}

pub open spec fn ascii_lower(c: char) -> bool {
    'a' <= c <= 'z'
}

pub open spec fn ascii_letter(c: char) -> bool {
    ascii_upper(c) || ascii_lower(c)
}

pub open spec fn ascii_alphanumeric(c: char) -> bool {
    ascii_letter(c) || ascii_digit(c)
}

pub open spec fn ascii_hex(c: char) -> bool {
    ascii_digit(c) || 'a' <= c <= 'f' || 'A' <= c <= 'F'
}

/// The lower-case form of an ASCII letter; any other character is itself.
pub open spec fn to_ascii_lower(c: char) -> char {
    if ascii_upper(c) {
        ((c as u32) + 32) as u32 as char
    } else {
        c
    }
}

/// Whether the character is an ASCII digit.
pub fn is_ascii_digit(c: char) -> (b: bool)
    ensures
        b == ascii_digit(c),
{
    '0' <= c && c <= '9'
}

/// Whether the character is an ASCII letter.
pub fn is_ascii_letter(c: char) -> (b: bool)
    ensures
        b == ascii_letter(c),
{
    ('A' <= c && c <= 'Z') || ('a' <= c && c <= 'z')
}

/// Whether the character is an ASCII letter or digit.
pub fn is_ascii_alphanumeric(c: char) -> (b: bool)
    ensures
        b == ascii_alphanumeric(c),
{
    is_ascii_letter(c) || is_ascii_digit(c)
}

/// Whether the character is an ASCII hexadecimal digit.
pub fn is_ascii_hex(c: char) -> (b: bool)
    ensures
        b == ascii_hex(c),
{
    is_ascii_digit(c) || ('a' <= c && c <= 'f') || ('A' <= c && c <= 'F')
}

/// The character with an ASCII capital made small.
pub fn ascii_lowered(c: char) -> (l: char)
    ensures
        l == to_ascii_lower(c),
{
    if 'A' <= c && c <= 'Z' {
        ((c as u8) + 32) as char
    } else {
        c
    }
}

/// What `char::to_lowercase` gives for a character.
pub uninterp spec fn lower_char(c: char) -> Seq<char>;

/// What `str::to_lowercase` gives for a text.
pub uninterp spec fn lowercase(s: Seq<char>) -> Seq<char>;

/// `char::to_lowercase`: one or more characters, which depend on `c` alone.
#[verifier::external_body]
pub(crate) fn char_to_lowercase(c: char) -> (out: Vec<char>)
    ensures
        out@ == lower_char(c),
{
    c.to_lowercase().collect()
}

/// `str::to_lowercase`: a text that depends on `s` alone.
#[verifier::external_body]
pub(crate) fn to_lowercase(s: &str) -> (out: String)
    ensures
        out@ == lowercase(s@),
{
    s.to_lowercase()
}

/// A text lowercased one character at a time.
pub open spec fn lowered(s: Seq<char>) -> Seq<char>
    decreases s.len(),
{
    if s.len() == 0 {
        Seq::empty()
    } else {
        lowered(s.drop_last()) + lower_char(s.last())
    }
}

/// Lowercases a text one character at a time.
pub fn lower_per_char(s: &str) -> (out: String)
    ensures
        out@ == lowered(s@),
{
    let v = chars_of(s);
    let mut out = String::new();
    let mut i: usize = 0;
    while i < v.len()
        invariant
            v@ == s@,
            i <= v@.len(),
            out@ == lowered(s@.take(i as int)),
        decreases v.len() - i,
    {
        let part = char_to_lowercase(v[i]);
        let piece = string_of(&part, 0, part.len());
        assert(piece@ =~= lower_char(s@[i as int]));
        assert(s@.take(i as int + 1).drop_last() =~= s@.take(i as int));
        out.push_str(piece.as_str());
        i += 1;
    }
    assert(s@.take(i as int) =~= s@);
    out
}

/// `n` times the character `c`.
pub open spec fn repeated(c: char, n: nat) -> Seq<char> {
    Seq::new(n, |i: int| c)
}

/// `n` times the character `c`.
pub fn repeat_char(c: char, n: usize) -> (out: String)
    ensures
        out@ == repeated(c, n as nat),
{
    let mut out = String::new();
    let mut i: usize = 0;
    while i < n
        invariant
            i <= n,
            out@ =~= repeated(c, i as nat),
        decreases n - i,
    {
        out.push(c);
        i += 1;
    }
    out
}

// ---------------------------------------------------------------------------
// Searching
// ---------------------------------------------------------------------------

/// Whether `pat` stands in `s` at position `i`.
pub open spec fn matches_at(s: Seq<char>, i: int, pat: Seq<char>) -> bool {
    &&& 0 <= i
    &&& i + pat.len() <= s.len()
    &&& s.subrange(i, i + pat.len()) =~= pat
}

pub open spec fn starts_with(s: Seq<char>, pat: Seq<char>) -> bool {
    matches_at(s, 0, pat)
}

pub open spec fn ends_with(s: Seq<char>, pat: Seq<char>) -> bool {
    matches_at(s, s.len() - pat.len(), pat)
}

/// The text after a prefix, where the prefix is there.
pub open spec fn strip_prefix(s: Seq<char>, pat: Seq<char>) -> Option<Seq<char>> {
    if starts_with(s, pat) {
        Some(s.skip(pat.len() as int))
    } else {
        None
    }
}

/// The text before a suffix, where the suffix is there.
pub open spec fn strip_suffix(s: Seq<char>, pat: Seq<char>) -> Option<Seq<char>> {
    if ends_with(s, pat) {
        Some(s.take(s.len() - pat.len()))
    } else {
        None
    }
}

/// The first position at or after `i` where `pat` stands.
pub open spec fn find_from(s: Seq<char>, i: int, pat: Seq<char>) -> Option<int>
    decreases s.len() + 1 - i,
{
    if i < 0 || i > s.len() {
        None
    } else if matches_at(s, i, pat) {
        Some(i)
    } else {
        find_from(s, i + 1, pat)
    }
}

pub open spec fn contains(s: Seq<char>, pat: Seq<char>) -> bool {
    exists|i: int| matches_at(s, i, pat)
}

/// The first position at or after `i` that holds `c`, or the length.
pub open spec fn next_pos(s: Seq<char>, i: int, c: char) -> int
    decreases s.len() - i,
{
    if i < 0 || i >= s.len() {
        s.len() as int
    } else if s[i] == c {
        i
    } else {
        next_pos(s, i + 1, c)
    }
}

pub proof fn lemma_next_pos(s: Seq<char>, i: int, c: char)
    requires
        0 <= i <= s.len(),
    ensures
        i <= next_pos(s, i, c) <= s.len(),
        next_pos(s, i, c) < s.len() ==> s[next_pos(s, i, c)] == c,
        forall|k: int| i <= k < next_pos(s, i, c) ==> s[k] != c,
    decreases s.len() - i,
{
    if i < s.len() && s[i] != c {
        lemma_next_pos(s, i + 1, c);
    }
}

/// `find_from` finds the leftmost match, if there is one.
pub proof fn lemma_find_from(s: Seq<char>, i: int, pat: Seq<char>)
    requires
        0 <= i,
    ensures
        match find_from(s, i, pat) {
            Some(k) => i <= k && matches_at(s, k, pat) && forall|j: int|
                i <= j < k ==> !matches_at(s, j, pat),
            None => forall|j: int| i <= j ==> !matches_at(s, j, pat),
        },
    decreases s.len() + 1 - i,
{
    if i <= s.len() && !matches_at(s, i, pat) {
        lemma_find_from(s, i + 1, pat);
    }
}

pub proof fn lemma_find_is_contains(s: Seq<char>, pat: Seq<char>)
    ensures
        find_from(s, 0, pat) is Some <==> contains(s, pat),
{
    lemma_find_from(s, 0, pat);
}

/// Whether the pattern stands in the text at a position.
pub fn matches_at_chars(v: &Vec<char>, i: usize, pat: &Vec<char>) -> (m: bool)
    ensures
        m == matches_at(v@, i as int, pat@),
{
    if i > v.len() || pat.len() > v.len() - i {
        return false;
    }
    let mut k: usize = 0;
    while k < pat.len()
        invariant
            k <= pat@.len(),
            i + pat@.len() <= v.len(),
            forall|j: int| 0 <= j < k ==> v@[i + j] == pat@[j],
        decreases pat.len() - k,
    {
        if v[i + k] != pat[k] {
            assert(v@.subrange(i as int, i + pat@.len())[k as int] != pat@[k as int]);
            return false;
        }
        k += 1;
    }
    assert(v@.subrange(i as int, i + pat@.len()) =~= pat@);
    true
}

/// Whether `pat` stands in `v` at position `i`.
pub fn stands_at(v: &Vec<char>, i: usize, pat: &str) -> (m: bool)
    ensures
        m == matches_at(v@, i as int, pat@),
{
    let p = chars_of(pat);
    matches_at_chars(v, i, &p)
}

/// Whether the text begins with the prefix.
pub fn text_starts_with(s: &str, pat: &str) -> (m: bool)
    ensures
        m == starts_with(s@, pat@),
{
    let v = chars_of(s);
    stands_at(&v, 0, pat)
}

/// Whether the text ends with the suffix.
pub fn text_ends_with(s: &str, pat: &str) -> (m: bool)
    ensures
        m == ends_with(s@, pat@),
{
    let v = chars_of(s);
    let p = chars_of(pat);
    if p.len() > v.len() {
        return false;
    }
    matches_at_chars(&v, v.len() - p.len(), &p)
}

/// The first position, from a start on, at which the pattern stands.
pub fn find_chars(v: &Vec<char>, from: usize, pat: &Vec<char>) -> (found: Option<usize>)
    ensures
        match found {
            Some(k) => find_from(v@, from as int, pat@) == Some(k as int),
            None => find_from(v@, from as int, pat@) is None,
        },
{
    let mut i: usize = from;
    while i <= v.len()
        invariant
            find_from(v@, from as int, pat@) == find_from(v@, i as int, pat@),
        decreases v.len() + 1 - i,
    {
        if matches_at_chars(v, i, pat) {
            return Some(i);
        }
        if i == v.len() {
            assert(find_from(v@, i as int + 1, pat@) is None);
            return None;
        }
        i += 1;
    }
    None
}

/// The leftmost position of `pat` at or after `from`.
pub fn find_text(v: &Vec<char>, from: usize, pat: &str) -> (found: Option<usize>)
    ensures
        match found {
            Some(k) => find_from(v@, from as int, pat@) == Some(k as int),
            None => find_from(v@, from as int, pat@) is None,
        },
{
    let p = chars_of(pat);
    find_chars(v, from, &p)
}

/// Whether the pattern stands anywhere in the text.
pub fn text_contains(s: &str, pat: &str) -> (found: bool)
    ensures
        found == contains(s@, pat@),
{
    let v = chars_of(s);
    proof {
        lemma_find_is_contains(s@, pat@);
    }
    match find_text(&v, 0, pat) {
        Some(_) => true,
        None => false,
    }
}

/// The first position, from a start on, that holds the character.
pub fn next_position(v: &Vec<char>, from: usize, c: char) -> (k: usize)
    requires
        from <= v@.len(),
    ensures
        k == next_pos(v@, from as int, c),
        from <= k <= v@.len(),
{
    let mut i: usize = from;
    while i < v.len()
        invariant
            from <= i <= v@.len(),
            next_pos(v@, from as int, c) == next_pos(v@, i as int, c),
        decreases v.len() - i,
    {
        if v[i] == c {
            return i;
        }
        i += 1;
    }
    i
}

pub open spec fn contains_char(s: Seq<char>, c: char) -> bool {
    exists|i: int| 0 <= i < s.len() && s[i] == c
}

/// Whether the text holds the character.
pub fn has_char(v: &Vec<char>, c: char) -> (found: bool)
    ensures
        found == contains_char(v@, c),
{
    let k: usize = next_position(v, 0, c);
    proof {
        lemma_next_pos(v@, 0, c);
    }
    k < v.len()
}

/// The text after `pat`, where `s` starts with it.
pub fn without_prefix(s: &str, pat: &str) -> (rest: Option<String>)
    ensures
        opt_view(rest) == strip_prefix(s@, pat@),
{
    let v = chars_of(s);
    let p = chars_of(pat);
    if matches_at_chars(&v, 0, &p) {
        let rest = string_of(&v, p.len(), v.len());
        assert(rest@ =~= s@.skip(pat@.len() as int));
        Some(rest)
    } else {
        None
    }
}

/// The text before `pat`, where `s` ends with it.
pub fn without_suffix(s: &str, pat: &str) -> (rest: Option<String>)
    ensures
        opt_view(rest) == strip_suffix(s@, pat@),
{
    let v = chars_of(s);
    let p = chars_of(pat);
    if p.len() <= v.len() && matches_at_chars(&v, v.len() - p.len(), &p) {
        let rest = string_of(&v, 0, v.len() - p.len());
        assert(rest@ =~= s@.take(s@.len() - pat@.len()));
        Some(rest)
    } else {
        None
    }
}

// ---------------------------------------------------------------------------
// Trimming
// ---------------------------------------------------------------------------

/// `s` without its leading white space.
pub open spec fn trim_start(s: Seq<char>) -> Seq<char>
    decreases s.len(),
{
    if s.len() > 0 && whitespace(s[0]) {
        trim_start(s.skip(1))
    } else {
        s
    }
}

/// `s` without its trailing white space.
pub open spec fn trim_end(s: Seq<char>) -> Seq<char>
    decreases s.len(),
{
    if s.len() > 0 && whitespace(s.last()) {
        trim_end(s.drop_last())
    } else {
        s
    }
}

/// `s` without the white space at both its ends.
pub open spec fn trimmed(s: Seq<char>) -> Seq<char> {
    trim_end(trim_start(s))
}

/// The range of `v[from..to]` that is left when white space is cut at both ends.
pub fn trim_range(v: &Vec<char>, from: usize, to: usize) -> (r: (usize, usize))
    requires
        from <= to <= v@.len(),
    ensures
        from <= r.0 <= r.1 <= to,
        v@.subrange(r.0 as int, r.1 as int) == trimmed(v@.subrange(from as int, to as int)),
        v@.subrange(r.0 as int, to as int) == trim_start(v@.subrange(from as int, to as int)),
{
    let ghost whole = v@.subrange(from as int, to as int);
    let mut a: usize = from;
    while a < to && is_whitespace(v[a])
        invariant
            from <= a <= to <= v@.len(),
            whole == v@.subrange(from as int, to as int),
            trim_start(v@.subrange(a as int, to as int)) == trim_start(whole),
        decreases to - a,
    {
        assert(v@.subrange(a as int, to as int).skip(1) =~= v@.subrange(a as int + 1, to as int));
        a += 1;
    }
    let ghost started = v@.subrange(a as int, to as int);
    assert(trim_start(whole) == started);
    let mut b: usize = to;
    while b > a && is_whitespace(v[b - 1])
        invariant
            a <= b <= to <= v@.len(),
            trim_end(v@.subrange(a as int, b as int)) == trim_end(started),
        decreases b - a,
    {
        assert(v@.subrange(a as int, b as int).drop_last() =~= v@.subrange(a as int, b as int - 1));
        assert(v@.subrange(a as int, b as int).last() == v@[b - 1]);
        b -= 1;
    }
    (a, b)
}

/// A string slice without the white space at both its ends.
pub fn trim(s: &str) -> (out: String)
    ensures
        out@ == trimmed(s@),
{
    let v = chars_of(s);
    assert(v@.subrange(0, v@.len() as int) =~= s@);
    let r = trim_range(&v, 0, v.len());
    string_of(&v, r.0, r.1)
}

/// Whether a string slice holds nothing but white space.
pub fn is_blank(s: &str) -> (blank: bool)
    ensures
        blank == (trimmed(s@).len() == 0),
{
    let v = chars_of(s);
    assert(v@.subrange(0, v@.len() as int) =~= s@);
    let r = trim_range(&v, 0, v.len());
    r.0 == r.1
}

// ---------------------------------------------------------------------------
// Lines, splitting and joining
// ---------------------------------------------------------------------------

/// A line without the carriage return that ends it.
pub open spec fn strip_cr(s: Seq<char>) -> Seq<char> {
    if s.len() > 0 && s.last() == '\r' {
        s.drop_last()
    } else {
        s
    }
}

/// The lines of `s` from position `i` on: each ends at a line feed, with the
/// carriage return before the line feed dropped; what follows the last line
/// feed is a line only where it is not empty.
pub open spec fn lines_from(s: Seq<char>, i: int) -> Seq<Seq<char>>
    decreases s.len() - i,
    via lines_from_decreases
{
    if i < 0 || i >= s.len() {
        Seq::empty()
    } else {
        let k = next_pos(s, i, '\n');
        if k >= s.len() {
            seq![s.subrange(i, s.len() as int)]
        } else {
            seq![strip_cr(s.subrange(i, k))] + lines_from(s, k + 1)
        }
    }
}

#[via_fn]
proof fn lines_from_decreases(s: Seq<char>, i: int) {
    if 0 <= i < s.len() {
        lemma_next_pos(s, i, '\n');
    }
}

/// The lines of `s`.
pub open spec fn lines_of(s: Seq<char>) -> Seq<Seq<char>> {
    lines_from(s, 0)
}

/// The lines of a string slice.
pub fn lines(s: &str) -> (out: Vec<String>)
    ensures
        views(out@) == lines_of(s@),
{
    let v = chars_of(s);
    let mut out: Vec<String> = Vec::new();
    let mut i: usize = 0;
    assert(views(out@) + lines_from(s@, 0) =~= lines_of(s@));
    while i < v.len()
        invariant
            v@ == s@,
            i <= v@.len(),
            views(out@) + lines_from(s@, i as int) == lines_of(s@),
        decreases v.len() - i,
    {
        let k: usize = next_position(&v, i, '\n');
        let ghost before = views(out@);
        if k >= v.len() {
            let line = string_of(&v, i, v.len());
            proof {
                lemma_views_push(out@, line);
                assert(before.push(line@) + lines_from(s@, s@.len() as int) =~= before
                    + lines_from(s@, i as int));
            }
            out.push(line);
            i = v.len();
        } else {
            let end: usize = if k > i && v[k - 1] == '\r' {
                k - 1
            } else {
                k
            };
            let line = string_of(&v, i, end);
            proof {
                assert(line@ =~= strip_cr(s@.subrange(i as int, k as int)));
                lemma_views_push(out@, line);
                assert(before.push(line@) + lines_from(s@, k as int + 1) =~= before + lines_from(
                    s@,
                    i as int,
                ));
            }
            out.push(line);
            i = k + 1;
        }
    }
    assert(views(out@) + lines_from(s@, i as int) =~= views(out@));
    out
}

/// The pieces of `s` from position `i` on, cut at every `c`.
pub open spec fn split_from(s: Seq<char>, i: int, c: char) -> Seq<Seq<char>>
    decreases s.len() - i,
    via split_from_decreases
{
    if i < 0 || i > s.len() {
        Seq::empty()
    } else {
        let k = next_pos(s, i, c);
        if k >= s.len() {
            seq![s.subrange(i, s.len() as int)]
        } else {
            seq![s.subrange(i, k)] + split_from(s, k + 1, c)
        }
    }
}

#[via_fn]
proof fn split_from_decreases(s: Seq<char>, i: int, c: char) {
    if 0 <= i <= s.len() {
        lemma_next_pos(s, i, c);
    }
}

/// The pieces of `s` between the characters `c`; never none.
pub open spec fn split_on(s: Seq<char>, c: char) -> Seq<Seq<char>> {
    split_from(s, 0, c)
}

/// The pieces of a string slice between the characters `c`.
pub fn split_char(s: &str, c: char) -> (out: Vec<String>)
    ensures
        views(out@) == split_on(s@, c),
{
    let v = chars_of(s);
    let mut out: Vec<String> = Vec::new();
    let mut i: usize = 0;
    assert(views(out@) + split_from(s@, 0, c) =~= split_on(s@, c));
    loop
        invariant
            v@ == s@,
            i <= v@.len(),
            views(out@) + split_from(s@, i as int, c) == split_on(s@, c),
        decreases v.len() - i,
    {
        let k: usize = next_position(&v, i, c);
        let ghost before = views(out@);
        let line = string_of(&v, i, k);
        proof {
            lemma_views_push(out@, line);
        }
        if k >= v.len() {
            proof {
                assert(before.push(line@) =~= before + split_from(s@, i as int, c));
            }
            out.push(line);
            return out;
        }
        proof {
            assert(before.push(line@) + split_from(s@, k as int + 1, c) =~= before + split_from(
                s@,
                i as int,
                c,
            ));
        }
        out.push(line);
        i = k + 1;
    }
}

/// `parts` in order, with `sep` between each two.
pub open spec fn joined(parts: Seq<Seq<char>>, sep: Seq<char>) -> Seq<char>
    decreases parts.len(),
{
    if parts.len() == 0 {
        Seq::empty()
    } else if parts.len() == 1 {
        parts[0]
    } else {
        joined(parts.drop_last(), sep) + sep + parts.last()
    }
}

/// The strings of `parts` in order, with `sep` between each two.
pub fn join(parts: &Vec<String>, sep: &str) -> (out: String)
    ensures
        out@ == joined(views(parts@), sep@),
{
    let mut out = String::new();
    let mut i: usize = 0;
    while i < parts.len()
        invariant
            i <= parts@.len(),
            out@ == joined(views(parts@).take(i as int), sep@),
        decreases parts.len() - i,
    {
        let ghost whole = views(parts@);
        proof {
            assert(whole.take(i as int + 1).drop_last() =~= whole.take(i as int));
        }
        if i > 0 {
            out.push_str(sep);
        }
        out.push_str(parts[i].as_str());
        proof {
            if i == 0 {
                assert(out@ =~= whole[0]);
            }
        }
        i += 1;
    }
    assert(views(parts@).take(i as int) =~= views(parts@));
    out
}

/// Every occurrence of `pat` from position `i` on, taken from the left and
/// without overlap, replaced by `with`.
pub open spec fn replaced_from(s: Seq<char>, i: int, pat: Seq<char>, with: Seq<char>) -> Seq<char>
    decreases s.len() - i,
{
    if i < 0 || i >= s.len() {
        Seq::empty()
    } else if pat.len() > 0 && matches_at(s, i, pat) {
        with + replaced_from(s, i + pat.len(), pat, with)
    } else {
        seq![s[i]] + replaced_from(s, i + 1, pat, with)
    }
}

/// `s` with every occurrence of the non-empty text `pat` replaced by `with`.
pub open spec fn replaced(s: Seq<char>, pat: Seq<char>, with: Seq<char>) -> Seq<char> {
    replaced_from(s, 0, pat, with)
}

/// A string slice with every occurrence of `pat` replaced by `with`.
pub fn replace(s: &str, pat: &str, with: &str) -> (out: String)
    requires
        pat@.len() > 0,
    ensures
        out@ == replaced(s@, pat@, with@),
{
    let v = chars_of(s);
    let p = chars_of(pat);
    let mut out = String::new();
    let mut i: usize = 0;
    assert(out@ + replaced_from(s@, 0, pat@, with@) =~= replaced(s@, pat@, with@));
    while i < v.len()
        invariant
            v@ == s@,
            p@ == pat@,
            pat@.len() > 0,
            i <= v@.len(),
            out@ + replaced_from(s@, i as int, pat@, with@) == replaced(s@, pat@, with@),
        decreases v.len() - i,
    {
        let ghost before = out@;
        if matches_at_chars(&v, i, &p) {
            out.push_str(with);
            proof {
                assert(before + with@ + replaced_from(s@, i + pat@.len(), pat@, with@) =~= before
                    + replaced_from(s@, i as int, pat@, with@));
            }
            i += p.len();
        } else {
            out.push(v[i]);
            proof {
                assert(before.push(s@[i as int]) + replaced_from(s@, i as int + 1, pat@, with@)
                    =~= before + replaced_from(s@, i as int, pat@, with@));
            }
            i += 1;
        }
    }
    assert(out@ + replaced_from(s@, i as int, pat@, with@) =~= out@);
    out
}

// ---------------------------------------------------------------------------
// Order
// ---------------------------------------------------------------------------

/// The order of strings: character by character, a prefix before what it
/// begins.
pub open spec fn text_le(a: Seq<char>, b: Seq<char>) -> bool
    decreases a.len(),
{
    if a.len() == 0 {
        true
    } else if b.len() == 0 {
        false
    } else if a[0] == b[0] {
        text_le(a.skip(1), b.skip(1))
    } else {
        a[0] < b[0]
    }
}

pub proof fn lemma_text_le_total(a: Seq<char>, b: Seq<char>)
    ensures
        text_le(a, b) || text_le(b, a),
    decreases a.len(),
{
    if a.len() > 0 && b.len() > 0 && a[0] == b[0] {
        lemma_text_le_total(a.skip(1), b.skip(1));
    }
}

pub proof fn lemma_text_le_reflexive(a: Seq<char>)
    ensures
        text_le(a, a),
    decreases a.len(),
{
    if a.len() > 0 {
        lemma_text_le_reflexive(a.skip(1));
    }
}

pub proof fn lemma_text_le_transitive(a: Seq<char>, b: Seq<char>, c: Seq<char>)
    requires
        text_le(a, b),
        text_le(b, c),
    ensures
        text_le(a, c),
    decreases a.len(),
{
    if a.len() > 0 && b.len() > 0 && c.len() > 0 && a[0] == b[0] && b[0] == c[0] {
        lemma_text_le_transitive(a.skip(1), b.skip(1), c.skip(1));
    }
}

/// Whether `a` comes before `b` or equals it.
pub fn not_after(a: &str, b: &str) -> (le: bool)
    ensures
        le == text_le(a@, b@),
{
    let x = chars_of(a);
    let y = chars_of(b);
    let mut i: usize = 0;
    assert(a@.skip(0) =~= a@);
    assert(b@.skip(0) =~= b@);
    while i < x.len() && i < y.len()
        invariant
            x@ == a@,
            y@ == b@,
            i <= x@.len(),
            i <= y@.len(),
            text_le(a@, b@) == text_le(a@.skip(i as int), b@.skip(i as int)),
        decreases x.len() - i,
    {
        assert(a@.skip(i as int).skip(1) =~= a@.skip(i as int + 1));
        assert(b@.skip(i as int).skip(1) =~= b@.skip(i as int + 1));
        if x[i] != y[i] {
            return x[i] < y[i];
        }
        i += 1;
    }
    i >= x.len()
}

// ---------------------------------------------------------------------------
// UTF-8 lengths
// ---------------------------------------------------------------------------

/// How many bytes a character takes in UTF-8.
pub open spec fn char_width(c: char) -> nat {
    let u = c as u32;
    if u < 0x80 {
        1
    } else if u < 0x800 {
        2
    } else if u < 0x10000 {
        3
    } else {
        4
    }
}

/// How many bytes a text takes in UTF-8.
pub open spec fn byte_len(s: Seq<char>) -> nat
    decreases s.len(),
{
    if s.len() == 0 {
        0
    } else {
        char_width(s[0]) + byte_len(s.skip(1))
    }
}

pub proof fn lemma_byte_len_add(a: Seq<char>, b: Seq<char>)
    ensures
        byte_len(a + b) == byte_len(a) + byte_len(b),
    decreases a.len(),
{
    if a.len() == 0 {
        assert(a + b =~= b);
    } else {
        assert((a + b).skip(1) =~= a.skip(1) + b);
        lemma_byte_len_add(a.skip(1), b);
    }
}

pub proof fn lemma_byte_len_step(s: Seq<char>, i: int)
    requires
        0 <= i < s.len(),
    ensures
        byte_len(s.take(i + 1)) == byte_len(s.take(i)) + char_width(s[i]),
{
    assert(s.take(i + 1) =~= s.take(i) + seq![s[i]]);
    lemma_byte_len_add(s.take(i), seq![s[i]]);
    assert(seq![s[i]].skip(1) =~= Seq::<char>::empty());
    assert(byte_len(Seq::<char>::empty()) == 0);
    assert(byte_len(seq![s[i]]) == char_width(s[i]));
}

pub proof fn lemma_byte_len_prefix(s: Seq<char>, i: int)
    requires
        0 <= i <= s.len(),
    ensures
        byte_len(s.take(i)) <= byte_len(s),
{
    assert(s =~= s.take(i) + s.skip(i));
    lemma_byte_len_add(s.take(i), s.skip(i));
}

proof fn lemma_byte_len_is_encoded_len(s: Seq<char>)
    ensures
        byte_len(s) == vstd::utf8::encode_utf8(s).len(),
    decreases s.len(),
{
    if s.len() > 0 {
        lemma_byte_len_is_encoded_len(s.skip(1));
        assert(s.skip(1) =~= s.drop_first());
        vstd::utf8::char_is_scalar(s[0]);
    }
}

/// The UTF-8 width of a character.
pub fn width_of(c: char) -> (w: usize)
    ensures
        w == char_width(c),
        1 <= w <= 4,
{
    let u: u32 = c as u32;
    if u < 0x80 {
        1
    } else if u < 0x800 {
        2
    } else if u < 0x10000 {
        3
    } else {
        4
    }
}

/// The UTF-8 length of a string slice.
pub fn byte_length(s: &str) -> (n: usize)
    ensures
        n == byte_len(s@),
{
    proof {
        lemma_byte_len_is_encoded_len(s@);
    }
    s.as_bytes().len()
}

// ---------------------------------------------------------------------------
// What the operations on texts are for
// ---------------------------------------------------------------------------

/// A text holds each of its parts.
pub proof fn a_text_holds_its_parts(s: Seq<char>, a: int, b: int)
    requires
        0 <= a <= b <= s.len(),
    ensures
        contains(s, s.subrange(a, b)),
{
    assert(matches_at(s, a, s.subrange(a, b)));
}

/// What a text holds is one of its parts, from some place on.
pub proof fn what_a_text_holds_is_a_part(s: Seq<char>, pat: Seq<char>)
    requires
        contains(s, pat),
    ensures
        exists|a: int|
            0 <= a && a + pat.len() <= s.len() && #[trigger] s.subrange(a, a + pat.len()) == pat,
{
    let a = choose|a: int| matches_at(s, a, pat);
    assert(s.subrange(a, a + pat.len()) == pat);
}

/// A text is found where it first occurs, and only where it occurs.
pub proof fn a_text_is_found_where_it_first_occurs(
    before: Seq<char>,
    pat: Seq<char>,
    behind: Seq<char>,
)
    ensures
        find_from(before + pat + behind, 0, pat) is Some,
        ({
            let at = find_from(before + pat + behind, 0, pat)->0;
            &&& 0 <= at <= before.len()
            &&& (before + pat + behind).subrange(at, at + pat.len()) == pat
            &&& forall|k: int| 0 <= k < at ==> !#[trigger] matches_at(before + pat + behind, k, pat)
        }),
{
    let s = before + pat + behind;
    assert(s.subrange(before.len() as int, before.len() as int + pat.len()) =~= pat);
    assert(matches_at(s, before.len() as int, pat));
    lemma_first_found(s, 0, before.len() as int, pat);
}

proof fn lemma_first_found(s: Seq<char>, i: int, at: int, pat: Seq<char>)
    requires
        0 <= i <= at,
        matches_at(s, at, pat),
    ensures
        find_from(s, i, pat) is Some,
        i <= find_from(s, i, pat)->0 <= at,
        matches_at(s, find_from(s, i, pat)->0, pat),
        forall|k: int| i <= k < find_from(s, i, pat)->0 ==> !#[trigger] matches_at(s, k, pat),
    decreases at - i,
{
    if !matches_at(s, i, pat) {
        lemma_first_found(s, i + 1, at, pat);
    }
}

/// A text starts with what it was put behind, and what is left is the rest.
pub proof fn a_prefix_is_stripped(pat: Seq<char>, rest: Seq<char>)
    ensures
        starts_with(pat + rest, pat),
        strip_prefix(pat + rest, pat) == Some(rest),
        ends_with(rest + pat, pat),
        strip_suffix(rest + pat, pat) == Some(rest),
{
    assert((pat + rest).subrange(0, pat.len() as int) =~= pat);
    assert((pat + rest).skip(pat.len() as int) =~= rest);
    assert((rest + pat).subrange(rest.len() as int, rest.len() as int + pat.len()) =~= pat);
    assert((rest + pat).take(rest.len() as int) =~= rest);
}

/// A text that starts with another is that text and a rest.
pub proof fn a_stripped_prefix_was_there(s: Seq<char>, pat: Seq<char>)
    ensures
        strip_prefix(s, pat) is Some ==> s == pat + strip_prefix(s, pat)->0,
        strip_suffix(s, pat) is Some ==> s == strip_suffix(s, pat)->0 + pat,
        starts_with(s, pat) <==> strip_prefix(s, pat) is Some,
        ends_with(s, pat) <==> strip_suffix(s, pat) is Some,
{
    if starts_with(s, pat) {
        assert(s =~= s.subrange(0, pat.len() as int) + s.skip(pat.len() as int));
    }
    if ends_with(s, pat) {
        let n = s.len() - pat.len();
        assert(s =~= s.take(n) + s.subrange(n, n + pat.len()));
    }
}

/// Trimming takes white space away at both ends, all of it and nothing else.
pub proof fn trimming_takes_the_white_space_around(s: Seq<char>)
    ensures
        exists|a: int, b: int|
            0 <= a <= b <= s.len() && trimmed(s) == #[trigger] s.subrange(a, b) && (forall|k: int|
                0 <= k < a || b <= k < s.len() ==> whitespace(#[trigger] s[k])),
        trimmed(s).len() > 0 ==> !whitespace(trimmed(s)[0]) && !whitespace(trimmed(s).last()),
{
    let a = lemma_trim_start_at(s);
    let rest = s.subrange(a, s.len() as int);
    let b = lemma_trim_end_at(rest);
    assert(rest.subrange(0, b) =~= s.subrange(a, a + b));
    assert forall|k: int| 0 <= k < a || a + b <= k < s.len() implies whitespace(
        #[trigger] s[k],
    ) by {
        if k >= a + b {
            assert(rest[k - a] == s[k]);
        }
    }
    if trimmed(s).len() > 0 {
        assert(trimmed(s)[0] == rest[0]);
    }
}

proof fn lemma_trim_start_at(s: Seq<char>) -> (a: int)
    ensures
        0 <= a <= s.len(),
        trim_start(s) == s.subrange(a, s.len() as int),
        forall|k: int| 0 <= k < a ==> whitespace(#[trigger] s[k]),
        a < s.len() ==> !whitespace(s[a]),
    decreases s.len(),
{
    if s.len() > 0 && whitespace(s[0]) {
        let rest = s.skip(1);
        let a = lemma_trim_start_at(rest);
        assert(rest.subrange(a, rest.len() as int) =~= s.subrange(a + 1, s.len() as int));
        assert forall|k: int| 0 <= k < a + 1 implies whitespace(#[trigger] s[k]) by {
            if k > 0 {
                assert(rest[k - 1] == s[k]);
            }
        }
        a + 1
    } else {
        assert(s.subrange(0, s.len() as int) =~= s);
        0
    }
}

proof fn lemma_trim_end_at(s: Seq<char>) -> (b: int)
    ensures
        0 <= b <= s.len(),
        trim_end(s) == s.subrange(0, b),
        forall|k: int| b <= k < s.len() ==> whitespace(#[trigger] s[k]),
        b > 0 ==> !whitespace(s[b - 1]),
    decreases s.len(),
{
    if s.len() > 0 && whitespace(s.last()) {
        let rest = s.drop_last();
        let b = lemma_trim_end_at(rest);
        assert(rest.subrange(0, b) =~= s.subrange(0, b));
        assert forall|k: int| b <= k < s.len() implies whitespace(#[trigger] s[k]) by {
            if k < rest.len() {
                assert(rest[k] == s[k]);
            }
        }
        b
    } else {
        assert(s.subrange(0, s.len() as int) =~= s);
        s.len() as int
    }
}

/// A text without white space at its ends is left as it is by trimming, and what
/// stands around it is taken away.
pub proof fn trimming_keeps_what_is_trimmed(s: Seq<char>)
    requires
        s.len() > 0 ==> !whitespace(s[0]) && !whitespace(s.last()),
    ensures
        trimmed(s) == s,
{
}

/// The pieces of a text that is split hold no separator, and put together with
/// the separator they are the text.
pub proof fn a_split_text_is_joined_again(s: Seq<char>, c: char)
    ensures
        split_on(s, c).len() > 0,
        joined(split_on(s, c), seq![c]) == s,
        forall|k: int|
            0 <= k < split_on(s, c).len() ==> !contains_char(#[trigger] split_on(s, c)[k], c),
{
    lemma_split_joined(s, 0, c);
    assert(s.subrange(0, s.len() as int) =~= s);
}

proof fn lemma_split_joined(s: Seq<char>, i: int, c: char)
    requires
        0 <= i <= s.len(),
    ensures
        split_from(s, i, c).len() > 0,
        joined(split_from(s, i, c), seq![c]) == s.subrange(i, s.len() as int),
        forall|k: int|
            0 <= k < split_from(s, i, c).len() ==> !contains_char(
                #[trigger] split_from(s, i, c)[k],
                c,
            ),
    decreases s.len() - i,
{
    let k = next_pos(s, i, c);
    lemma_next_pos(s, i, c);
    let piece = s.subrange(i, if k >= s.len() {
        s.len() as int
    } else {
        k
    });
    assert(!contains_char(piece, c)) by {
        if contains_char(piece, c) {
            let j = choose|j: int| 0 <= j < piece.len() && piece[j] == c;
            assert(s[i + j] == c);
        }
    }
    if k < s.len() {
        lemma_split_joined(s, k + 1, c);
        let rest = split_from(s, k + 1, c);
        lemma_joined_first(piece, rest, seq![c]);
        assert(s.subrange(i, s.len() as int) =~= piece + seq![c] + s.subrange(
            k + 1,
            s.len() as int,
        ));
        let all = split_from(s, i, c);
        assert(all =~= seq![piece] + rest);
        assert forall|m: int| 0 <= m < all.len() implies !contains_char(#[trigger] all[m], c) by {
            if m > 0 {
                assert(all[m] == rest[m - 1]);
            }
        }
    } else {
        assert(split_from(s, i, c) =~= seq![piece]);
    }
}

proof fn lemma_joined_first(first: Seq<char>, rest: Seq<Seq<char>>, sep: Seq<char>)
    requires
        rest.len() > 0,
    ensures
        joined(seq![first] + rest, sep) == first + sep + joined(rest, sep),
    decreases rest.len(),
{
    let all = seq![first] + rest;
    assert(all.drop_last() =~= seq![first] + rest.drop_last());
    assert(all.last() == rest.last());
    if rest.len() == 1 {
        assert(all.drop_last() =~= seq![first]);
        assert(joined(all.drop_last(), sep) == first);
    } else {
        lemma_joined_first(first, rest.drop_last(), sep);
        assert(first + sep + joined(rest, sep) =~= first + sep + joined(rest.drop_last(), sep) + sep
            + rest.last());
    }
}

/// What a part of a text holds, the text holds.
pub proof fn a_longer_text_holds_as_much(a: Seq<char>, b: Seq<char>, pat: Seq<char>)
    requires
        contains(a, pat) || contains(b, pat),
    ensures
        contains(a + b, pat),
{
    if contains(a, pat) {
        let i = choose|i: int| matches_at(a, i, pat);
        assert((a + b).subrange(i, i + pat.len()) =~= a.subrange(i, i + pat.len()));
        assert(matches_at(a + b, i, pat));
    } else {
        let i = choose|i: int| matches_at(b, i, pat);
        let n = a.len() as int;
        assert((a + b).subrange(n + i, n + i + pat.len()) =~= b.subrange(i, i + pat.len()));
        assert(matches_at(a + b, n + i, pat));
    }
}

/// A text holds itself.
pub proof fn a_text_holds_itself(s: Seq<char>)
    ensures
        contains(s, s),
{
    assert(s.subrange(0, s.len() as int) =~= s);
    assert(matches_at(s, 0, s));
}

} // verus!
