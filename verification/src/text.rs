//! Text as a sequence of characters: trimming, splitting, searching.
//!
//! Every reader of tool output in this crate is stated over `Seq<char>`, and
//! works on `&[char]` slices of the input.

use vstd::prelude::*;

verus! {

/// Trusted: `String::push` appends one character to the end of the string.
pub assume_specification[ String::push ](s: &mut String, c: char)
    ensures
        final(s)@ == old(s)@.push(c),
;

// ---------------------------------------------------------------------------
// Characters
// ---------------------------------------------------------------------------

/// Unicode `White_Space`: the characters that trimming and word splitting drop.
pub open spec fn is_space(c: char) -> bool {
    let n = c as u32;
    ||| 0x9 <= n <= 0xd
    ||| n == 0x20
    ||| n == 0x85
    ||| n == 0xa0
    ||| n == 0x1680
    ||| 0x2000 <= n <= 0x200a
    ||| n == 0x2028
    ||| n == 0x2029
    ||| n == 0x202f
    ||| n == 0x205f
    ||| n == 0x3000
}

pub fn space(c: char) -> (r: bool)
    ensures
        r == is_space(c),
{
    let n: u32 = c as u32;
    (0x9 <= n && n <= 0xd) || n == 0x20 || n == 0x85 || n == 0xa0 || n == 0x1680 || (0x2000 <= n
        && n <= 0x200a) || n == 0x2028 || n == 0x2029 || n == 0x202f || n == 0x205f || n == 0x3000
}

// ---------------------------------------------------------------------------
// Strings and slices
// ---------------------------------------------------------------------------

/// The characters of a string.
pub fn chars(s: &str) -> (r: Vec<char>)
    ensures
        r@ == s@,
{
    let mut out: Vec<char> = Vec::new();
    for c in it: s.chars()
        invariant
            out@ == it.seq().take(it.index()),
    {
        out.push(c);
    }
    out
}

/// A string with the given characters.
pub fn string(s: &[char]) -> (r: String)
    ensures
        r@ == s@,
{
    let mut out = String::new();
    let mut i: usize = 0;
    while i < s.len()
        invariant
            i <= s.len(),
            out@ == s@.take(i as int),
        decreases s.len() - i,
    {
        out.push(s[i]);
        i += 1;
    }
    out
}

/// The views of a list of slices.
pub open spec fn views(v: Seq<&[char]>) -> Seq<Seq<char>> {
    v.map_values(|x: &[char]| x@)
}

// ---------------------------------------------------------------------------
// Trimming
// ---------------------------------------------------------------------------

pub open spec fn trim_start(s: Seq<char>) -> Seq<char>
    decreases s.len(),
{
    if s.len() > 0 && is_space(s[0]) {
        trim_start(s.skip(1))
    } else {
        s
    }
}

pub open spec fn trim_end(s: Seq<char>) -> Seq<char>
    decreases s.len(),
{
    if s.len() > 0 && is_space(s.last()) {
        trim_end(s.drop_last())
    } else {
        s
    }
}

/// `s` without leading and trailing white space.
pub open spec fn trim(s: Seq<char>) -> Seq<char> {
    trim_end(trim_start(s))
}

/// Drops leading white space.
pub fn trimmed_start<'a>(s: &'a [char]) -> (r: &'a [char])
    ensures
        r@ == trim_start(s@),
        r@.len() > 0 ==> !is_space(r@[0]),
        r@.len() <= s@.len(),
{
    let mut i: usize = 0;
    assert(s@.skip(0) == s@);
    while i < s.len() && space(s[i])
        invariant
            i <= s.len(),
            trim_start(s@) == trim_start(s@.skip(i as int)),
        decreases s.len() - i,
    {
        assert(s@.skip(i as int).skip(1) == s@.skip(i + 1));
        i += 1;
    }
    let r = &s[i..s.len()];
    assert(r@ == s@.skip(i as int));
    r
}

/// Drops trailing white space.
pub fn trimmed_end<'a>(s: &'a [char]) -> (r: &'a [char])
    ensures
        r@ == trim_end(s@),
{
    let mut i: usize = s.len();
    assert(s@.take(i as int) == s@);
    while i > 0 && space(s[i - 1])
        invariant
            i <= s.len(),
            trim_end(s@) == trim_end(s@.take(i as int)),
        decreases i,
    {
        assert(s@.take(i as int).drop_last() == s@.take(i - 1));
        i -= 1;
    }
    let r = &s[0..i];
    assert(r@ == s@.take(i as int));
    r
}

/// Drops white space at both ends.
pub fn trimmed<'a>(s: &'a [char]) -> (r: &'a [char])
    ensures
        r@ == trim(s@),
{
    trimmed_end(trimmed_start(s))
}


// ---------------------------------------------------------------------------
// Searching
// ---------------------------------------------------------------------------

/// How many characters stand before the first `c`; all of them if there is none.
pub open spec fn until(s: Seq<char>, c: char) -> nat
    decreases s.len(),
{
    if s.len() == 0 || s[0] == c {
        0
    } else {
        1 + until(s.skip(1), c)
    }
}

pub proof fn lemma_until(s: Seq<char>, c: char)
    ensures
        until(s, c) <= s.len(),
        forall|i: int| 0 <= i < until(s, c) ==> s[i] != c,
        until(s, c) < s.len() ==> s[until(s, c) as int] == c,
    decreases s.len(),
{
    if s.len() > 0 && s[0] != c {
        lemma_until(s.skip(1), c);
        assert forall|i: int| 0 <= i < until(s, c) implies s[i] != c by {
            if i > 0 {
                assert(s.skip(1)[i - 1] == s[i]);
            }
        }
    }
}

/// Index of the first `c` in `s`, or its length.
pub fn index_of(s: &[char], c: char) -> (r: usize)
    ensures
        r == until(s@, c),
        r <= s@.len(),
{
    let mut i: usize = 0;
    assert(s@.skip(0) == s@);
    while i < s.len() && s[i] != c
        invariant
            i <= s.len(),
            until(s@, c) == i + until(s@.skip(i as int), c),
        decreases s.len() - i,
    {
        assert(s@.skip(i as int).skip(1) == s@.skip(i + 1));
        i += 1;
    }
    i
}

/// Whether the character `c` occurs in `s`.
pub fn has_char(s: &[char], c: char) -> (r: bool)
    ensures
        r == s@.contains(c),
{
    let i: usize = index_of(s, c);
    proof {
        lemma_until(s@, c);
        if i < s.len() {
            assert(s@[i as int] == c);
        }
    }
    i < s.len()
}

/// Whether two slices hold the same characters.
pub fn same_chars(a: &[char], b: &[char]) -> (r: bool)
    ensures
        r == (a@ == b@),
{
    if a.len() != b.len() {
        return false;
    }
    let mut i: usize = 0;
    while i < a.len()
        invariant
            i <= a.len(),
            a.len() == b.len(),
            forall|k: int| 0 <= k < i ==> a@[k] == b@[k],
        decreases a.len() - i,
    {
        if a[i] != b[i] {
            return false;
        }
        i += 1;
    }
    assert(a@ == b@);
    true
}

/// Whether `a` holds exactly the characters of `b`.
pub fn same(a: &[char], b: &str) -> (r: bool)
    ensures
        r == (a@ == b@),
{
    same_chars(a, &chars(b))
}

/// Whether two strings hold the same characters.
pub fn same_str(a: &str, b: &str) -> (r: bool)
    ensures
        r == (a@ == b@),
{
    same_chars(&chars(a), &chars(b))
}

/// Whether `s` begins with `p`.
pub open spec fn starts(s: Seq<char>, p: Seq<char>) -> bool {
    p.len() <= s.len() && s.take(p.len() as int) == p
}

pub fn starts_with(s: &[char], p: &str) -> (r: bool)
    ensures
        r == starts(s@, p@),
{
    let p = chars(p);
    if p.len() > s.len() {
        return false;
    }
    let head = &s[0..p.len()];
    assert(head@ == s@.take(p@.len() as int));
    same_chars(head, &p)
}

/// What follows the prefix `p`, if `s` begins with it.
pub open spec fn after_prefix(s: Seq<char>, p: Seq<char>) -> Option<Seq<char>> {
    if starts(s, p) {
        Some(s.skip(p.len() as int))
    } else {
        None
    }
}

pub open spec fn opt_view(o: Option<&[char]>) -> Option<Seq<char>> {
    match o {
        Some(x) => Some(x@),
        None => None,
    }
}

pub fn strip_prefix<'a>(s: &'a [char], p: &str) -> (r: Option<&'a [char]>)
    ensures
        opt_view(r) == after_prefix(s@, p@),
{
    if starts_with(s, p) {
        let n: usize = chars(p).len();
        let rest = &s[n..s.len()];
        assert(rest@ == s@.skip(p@.len() as int));
        Some(rest)
    } else {
        None
    }
}

/// Index of the first occurrence of `p` in `s`.
pub open spec fn find(s: Seq<char>, p: Seq<char>) -> Option<nat>
    decreases s.len(),
{
    if starts(s, p) {
        Some(0)
    } else if s.len() == 0 {
        None
    } else {
        match find(s.skip(1), p) {
            Some(i) => Some(i + 1),
            None => None,
        }
    }
}

/// Whether `p` occurs in `s`.
pub open spec fn contains(s: Seq<char>, p: Seq<char>) -> bool {
    find(s, p) is Some
}

pub fn find_str(s: &[char], p: &str) -> (r: Option<usize>)
    ensures
        match r {
            Some(i) => find(s@, p@) == Some(i as nat) && i + p@.len() <= s@.len(),
            None => find(s@, p@) is None,
        },
{
    let mut i: usize = 0;
    assert(s@.skip(0) == s@);
    loop
        invariant
            i <= s.len(),
            find(s@, p@) == (match find(s@.skip(i as int), p@) {
                Some(k) => Some((k + i) as nat),
                None => None,
            }),
        decreases s.len() - i,
    {
        let rest = &s[i..s.len()];
        assert(rest@ == s@.skip(i as int));
        if starts_with(rest, p) {
            return Some(i);
        }
        if i == s.len() {
            return None;
        }
        assert(s@.skip(i as int).skip(1) == s@.skip(i + 1));
        i += 1;
    }
}

pub fn has(s: &[char], p: &str) -> (r: bool)
    ensures
        r == contains(s@, p@),
{
    find_str(s, p).is_some()
}

/// The two sides of the first `c`, if there is one.
pub open spec fn split_once(s: Seq<char>, c: char) -> Option<(Seq<char>, Seq<char>)> {
    let n = until(s, c);
    if n < s.len() {
        Some((s.take(n as int), s.skip(n as int + 1)))
    } else {
        None
    }
}

pub fn split_at_char<'a>(s: &'a [char], c: char) -> (r: Option<(&'a [char], &'a [char])>)
    ensures
        match r {
            Some(p) => split_once(s@, c) == Some((p.0@, p.1@)),
            None => split_once(s@, c) is None,
        },
{
    let n: usize = index_of(s, c);
    if n < s.len() {
        let a = &s[0..n];
        let b = &s[n + 1..s.len()];
        assert(a@ == s@.take(n as int));
        assert(b@ == s@.skip(n + 1));
        Some((a, b))
    } else {
        None
    }
}

// ---------------------------------------------------------------------------
// Splitting
// ---------------------------------------------------------------------------

/// The pieces of `s` between the occurrences of `c`.
pub open spec fn split(s: Seq<char>, c: char) -> Seq<Seq<char>>
    decreases s.len(),
{
    let n = until(s, c);
    if n < s.len() {
        seq![s.take(n as int)] + split(s.skip(n as int + 1), c)
    } else {
        seq![s]
    }
}

pub proof fn lemma_split_nonempty(s: Seq<char>, c: char)
    ensures
        split(s, c).len() > 0,
        split(s, c)[0] == s.take(until(s, c) as int),
{
    lemma_until(s, c);
    assert(s.take(s.len() as int) == s);
}

pub fn pieces<'a>(s: &'a [char], c: char) -> (r: Vec<&'a [char]>)
    ensures
        views(r@) == split(s@, c),
        r@.len() > 0,
{
    let mut out: Vec<&'a [char]> = Vec::new();
    let mut rest: &'a [char] = s;
    proof {
        lemma_split_nonempty(s@, c);
        assert(views(out@) + split(rest@, c) == split(s@, c));
    }
    loop
        invariant
            views(out@) + split(rest@, c) == split(s@, c),
            split(s@, c).len() > 0,
        decreases rest@.len(),
    {
        let ghost before = views(out@);
        match split_at_char(rest, c) {
            Some((head, tail)) => {
                out.push(head);
                assert(views(out@) == before.push(head@));
                assert(before + split(rest@, c) == before.push(head@) + split(tail@, c));
                rest = tail;
            },
            None => {
                out.push(rest);
                assert(views(out@) == before.push(rest@));
                assert(before + split(rest@, c) == before.push(rest@));
                return out;
            },
        }
    }
}

/// A line without the carriage return of its `\r\n` ending.
pub open spec fn drop_cr(s: Seq<char>) -> Seq<char> {
    if s.len() > 0 && s.last() == '\r' {
        s.drop_last()
    } else {
        s
    }
}

/// The lines of `s`. A line ends in `\n` or `\r\n`; the last ending is optional.
pub open spec fn lines(s: Seq<char>) -> Seq<Seq<char>>
    decreases s.len(),
{
    let n = until(s, '\n');
    if s.len() == 0 {
        Seq::empty()
    } else if n < s.len() {
        seq![drop_cr(s.take(n as int))] + lines(s.skip(n as int + 1))
    } else {
        seq![s]
    }
}

pub fn split_lines<'a>(s: &'a [char]) -> (r: Vec<&'a [char]>)
    ensures
        views(r@) == lines(s@),
{
    let mut out: Vec<&'a [char]> = Vec::new();
    let mut rest: &'a [char] = s;
    assert(views(out@) + lines(rest@) == lines(s@));
    while rest.len() > 0
        invariant
            views(out@) + lines(rest@) == lines(s@),
        decreases rest@.len(),
    {
        let ghost before = views(out@);
        match split_at_char(rest, '\n') {
            Some((head, tail)) => {
                let line: &'a [char] = if head.len() > 0 && head[head.len() - 1] == '\r' {
                    &head[0..head.len() - 1]
                } else {
                    head
                };
                assert(line@ == drop_cr(head@));
                out.push(line);
                assert(views(out@) == before.push(line@));
                assert(before + lines(rest@) == before.push(line@) + lines(tail@));
                rest = tail;
            },
            None => {
                out.push(rest);
                assert(views(out@) == before.push(rest@));
                assert(before + lines(rest@) == before.push(rest@));
                return out;
            },
        }
    }
    assert(views(out@) + lines(rest@) == views(out@));
    out
}

/// How many characters stand before the first white space.
pub open spec fn word_len(s: Seq<char>) -> nat
    decreases s.len(),
{
    if s.len() == 0 || is_space(s[0]) {
        0
    } else {
        1 + word_len(s.skip(1))
    }
}

/// The words of `s`: its maximal runs without white space.
pub open spec fn words(s: Seq<char>) -> Seq<Seq<char>>
    decreases s.len(),
{
    let t = trim_start(s);
    let n = word_len(t) as int;
    if 0 < n <= t.len() <= s.len() {
        seq![t.take(n)] + words(t.skip(n))
    } else {
        Seq::empty()
    }
}

proof fn lemma_trim_start_push(s: Seq<char>, c: char)
    requires
        is_space(c),
    ensures
        trim_start(s.push(c)) == (if trim_start(s).len() == 0 {
            trim_start(s)
        } else {
            trim_start(s).push(c)
        }),
    decreases s.len(),
{
    let w = s.push(c);
    if s.len() == 0 {
        assert(w.skip(1) == s);
    } else if is_space(s[0]) {
        lemma_trim_start_push(s.skip(1), c);
        assert(w.skip(1) == s.skip(1).push(c));
    }
}

proof fn lemma_word_len_push(s: Seq<char>, c: char)
    requires
        is_space(c),
    ensures
        word_len(s.push(c)) == word_len(s),
        word_len(s) <= s.len(),
    decreases s.len(),
{
    if s.len() > 0 && !is_space(s[0]) {
        lemma_word_len_push(s.skip(1), c);
        assert(s.push(c).skip(1) == s.skip(1).push(c));
    }
}

/// White space behind a text changes none of its words.
pub proof fn lemma_words_push(s: Seq<char>, c: char)
    requires
        is_space(c),
    ensures
        words(s.push(c)) == words(s),
    decreases s.len(),
{
    let w = s.push(c);
    let (t, u) = (trim_start(s), trim_start(w));
    lemma_trim_start_push(s, c);
    lemma_word_len_push(t, c);
    lemma_trim_start_twice(s);
    lemma_trim_start_twice(w);
    let n = word_len(t) as int;
    if t.len() > 0 {
        assert(u == t.push(c));
        if 0 < n {
            lemma_words_push(t.skip(n), c);
            assert(u.take(n) == t.take(n));
            assert(u.skip(n) == t.skip(n).push(c));
        }
    }
}

pub fn split_words<'a>(s: &'a [char]) -> (r: Vec<&'a [char]>)
    ensures
        views(r@) == words(s@),
{
    let mut out: Vec<&'a [char]> = Vec::new();
    let mut rest: &'a [char] = trimmed_start(s);
    proof {
        lemma_trim_start_twice(s@);
        assert(views(out@) + words(rest@) == words(s@));
    }
    while rest.len() > 0
        invariant
            views(out@) + words(rest@) == words(s@),
            trim_start(rest@) == rest@,
            rest@.len() > 0 ==> !is_space(rest@[0]),
        decreases rest@.len(),
    {
        let ghost before = views(out@);
        let mut n: usize = 1;
        assert(rest@.skip(0) == rest@);
        assert(rest@.skip(0).skip(1) == rest@.skip(1));
        while n < rest.len() && !space(rest[n])
            invariant
                0 < n <= rest.len(),
                word_len(rest@) == n + word_len(rest@.skip(n as int)),
            decreases rest.len() - n,
        {
            assert(rest@.skip(n as int).skip(1) == rest@.skip(n + 1));
            n += 1;
        }
        let word = &rest[0..n];
        let tail = &rest[n..rest.len()];
        assert(word@ == rest@.take(n as int));
        assert(tail@ == rest@.skip(n as int));
        out.push(word);
        assert(views(out@) == before.push(word@));
        assert(before + words(rest@) == before.push(word@) + words(tail@));
        let next = trimmed_start(tail);
        proof {
            lemma_trim_start_twice(tail@);
        }
        rest = next;
    }
    assert(words(rest@) == Seq::<Seq<char>>::empty());
    assert(views(out@) + words(rest@) == views(out@));
    out
}

proof fn lemma_trim_start_twice(s: Seq<char>)
    ensures
        trim_start(s).len() <= s.len(),
        trim_start(trim_start(s)) == trim_start(s),
        words(trim_start(s)) == words(s),
    decreases s.len(),
{
    if s.len() > 0 && is_space(s[0]) {
        lemma_trim_start_twice(s.skip(1));
    }
}

// ---------------------------------------------------------------------------
// Repeated trimming
// ---------------------------------------------------------------------------

/// `s` without the `p`s at its start.
pub open spec fn trim_start_str(s: Seq<char>, p: Seq<char>) -> Seq<char>
    decreases s.len(),
{
    if p.len() > 0 && starts(s, p) {
        trim_start_str(s.skip(p.len() as int), p)
    } else {
        s
    }
}

pub fn strip_start_all<'a>(s: &'a [char], p: &str) -> (r: &'a [char])
    requires
        p@.len() > 0,
    ensures
        r@ == trim_start_str(s@, p@),
{
    let mut rest: &'a [char] = s;
    loop
        invariant
            p@.len() > 0,
            trim_start_str(s@, p@) == trim_start_str(rest@, p@),
        decreases rest@.len(),
    {
        match strip_prefix(rest, p) {
            Some(tail) => {
                rest = tail;
            },
            None => {
                return rest;
            },
        }
    }
}

/// Whether `s` ends with `p`.
pub open spec fn ends(s: Seq<char>, p: Seq<char>) -> bool {
    p.len() <= s.len() && s.skip(s.len() - p.len()) == p
}

/// `s` without the `p`s at its end.
pub open spec fn trim_end_str(s: Seq<char>, p: Seq<char>) -> Seq<char>
    decreases s.len(),
{
    if p.len() > 0 && ends(s, p) {
        trim_end_str(s.take(s.len() - p.len()), p)
    } else {
        s
    }
}

pub fn ends_with(s: &[char], p: &str) -> (r: bool)
    ensures
        r == ends(s@, p@),
{
    let p = chars(p);
    if p.len() > s.len() {
        return false;
    }
    let tail = &s[s.len() - p.len()..s.len()];
    assert(tail@ == s@.skip(s@.len() - p@.len()));
    same_chars(tail, &p)
}

pub fn strip_end_all<'a>(s: &'a [char], p: &str) -> (r: &'a [char])
    requires
        p@.len() > 0,
    ensures
        r@ == trim_end_str(s@, p@),
{
    let n: usize = chars(p).len();
    let mut rest: &'a [char] = s;
    while ends_with(rest, p)
        invariant
            p@.len() > 0,
            n == p@.len(),
            trim_end_str(s@, p@) == trim_end_str(rest@, p@),
        decreases rest@.len(),
    {
        let head = &rest[0..rest.len() - n];
        assert(head@ == rest@.take(rest@.len() - n));
        rest = head;
    }
    rest
}

// ---------------------------------------------------------------------------
// Letter case
// ---------------------------------------------------------------------------

/// What `str::to_lowercase` makes of a text that is not ASCII.
pub uninterp spec fn unicode_lower(s: Seq<char>) -> Seq<char>;

/// The lower-case form of an ASCII character.
pub open spec fn ascii_lower(c: char) -> char {
    if 'A' <= c <= 'Z' {
        (c as u32 + 32) as char
    } else {
        c
    }
}

/// A text in lower case.
pub open spec fn lowercase(s: Seq<char>) -> Seq<char> {
    if vstd::utf8::is_ascii_chars(s) {
        s.map_values(|c: char| ascii_lower(c))
    } else {
        unicode_lower(s)
    }
}

/// Trusted: `str::to_lowercase` maps each character of an ASCII text by the
/// ASCII case table. On other texts (the Unicode `Lowercase` mapping) it is a
/// function of the text alone, which `unicode_lower` names.
#[verifier::external_body]
pub(crate) fn to_lowercase(s: &str) -> (r: String)
    ensures
        s.is_ascii() ==> r@ == s@.map_values(|c: char| ascii_lower(c)),
        !s.is_ascii() ==> r@ == unicode_lower(s@),
{
    s.to_lowercase()
}

/// The lower-case form of a slice.
pub fn lowered(s: &[char]) -> (r: String)
    ensures
        r@ == lowercase(s@),
{
    let t = string(s);
    to_lowercase(t.as_str())
}

// ---------------------------------------------------------------------------
// Replacing and joining
// ---------------------------------------------------------------------------

/// `s` with every `a` replaced by `b`.
pub open spec fn replace_char(s: Seq<char>, a: char, b: char) -> Seq<char> {
    s.map_values(|c: char| if c == a { b } else { c })
}

pub fn replaced(s: &[char], a: char, b: char) -> (r: Vec<char>)
    ensures
        r@ == replace_char(s@, a, b),
{
    let mut out: Vec<char> = Vec::new();
    let mut i: usize = 0;
    while i < s.len()
        invariant
            i <= s.len(),
            out@ == replace_char(s@, a, b).take(i as int),
        decreases s.len() - i,
    {
        let c: char = if s[i] == a { b } else { s[i] };
        out.push(c);
        i += 1;
    }
    out
}

/// The optional text behind an `Option<String>`.
pub open spec fn opt_text(o: Option<String>) -> Option<Seq<char>> {
    match o {
        Some(s) => Some(s@),
        None => None,
    }
}

/// The text behind an optional string slice.
pub open spec fn str_view(o: Option<&str>) -> Option<Seq<char>> {
    match o {
        Some(s) => Some(s@),
        None => None,
    }
}

// ---------------------------------------------------------------------------
// What cutting a text means
// ---------------------------------------------------------------------------

/// White space is what Unicode calls so: of ASCII the blank and the five controls from
/// tab to carriage return.
pub proof fn law_white_space(c: char)
    ensures
        c as u32 <= 0x7f ==> (is_space(c) <==> c == ' ' || c == '\t' || c == '\n' || c == '\r' || c
            == '\u{b}' || c == '\u{c}'),
        c as u32 > 0x7f ==> (is_space(c) <==> c == '\u{85}' || c == '\u{a0}' || c == '\u{1680}'
            || '\u{2000}' <= c <= '\u{200a}' || c == '\u{2028}' || c == '\u{2029}' || c
            == '\u{202f}' || c == '\u{205f}' || c == '\u{3000}'),
{
}

/// Trimming cuts white space off both ends and nothing else: neither end of what is
/// left is white space.
pub proof fn law_trimming_cuts_white_space(s: Seq<char>)
    ensures
        exists|i: int, j: int|
            #![trigger s.subrange(i, j)]
            0 <= i <= j <= s.len() && trim(s) == s.subrange(i, j) && (forall|k: int|
                0 <= k < i ==> is_space(#[trigger] s[k])) && (forall|k: int|
                j <= k < s.len() ==> is_space(#[trigger] s[k])),
        trim(s).len() > 0 ==> !is_space(trim(s)[0]) && !is_space(trim(s).last()),
{
    let t = trim_start(s);
    lemma_trimmed_start(s);
    lemma_trimmed_end(t);
    let i = s.len() - t.len();
    let j = i + trim(s).len();
    assert(t.take(trim(s).len() as int) == s.subrange(i, j));
    assert forall|k: int| j <= k < s.len() implies is_space(#[trigger] s[k]) by {
        assert(t[k - i] == s[k]);
    }
    if trim(s).len() > 0 {
        assert(trim(s)[0] == t[0]);
    }
}

proof fn lemma_trimmed_start(s: Seq<char>)
    ensures
        ({
            let t = trim_start(s);
            &&& t.len() <= s.len()
            &&& t == s.skip(s.len() - t.len())
            &&& forall|k: int| 0 <= k < s.len() - t.len() ==> is_space(#[trigger] s[k])
            &&& t.len() > 0 ==> !is_space(t[0])
        }),
    decreases s.len(),
{
    if s.len() > 0 && is_space(s[0]) {
        let r = s.skip(1);
        lemma_trimmed_start(r);
        let t = trim_start(s);
        assert(r.skip(r.len() - t.len()) == s.skip(s.len() - t.len()));
        assert forall|k: int| 0 <= k < s.len() - t.len() implies is_space(#[trigger] s[k]) by {
            if k > 0 {
                assert(r[k - 1] == s[k]);
            }
        }
    } else {
        assert(s.skip(0) == s);
    }
}

proof fn lemma_trimmed_end(s: Seq<char>)
    ensures
        ({
            let t = trim_end(s);
            &&& t.len() <= s.len()
            &&& t == s.take(t.len() as int)
            &&& forall|k: int| t.len() <= k < s.len() ==> is_space(#[trigger] s[k])
            &&& t.len() > 0 ==> !is_space(t.last())
        }),
    decreases s.len(),
{
    if s.len() > 0 && is_space(s.last()) {
        let r = s.drop_last();
        lemma_trimmed_end(r);
        let t = trim_end(s);
        assert(r.take(t.len() as int) == s.take(t.len() as int));
        assert forall|k: int| t.len() <= k < s.len() implies is_space(#[trigger] s[k]) by {
            if k < r.len() {
                assert(r[k] == s[k]);
            }
        }
    } else {
        assert(s.take(s.len() as int) == s);
    }
}

/// A pattern is found where it first stands, and nowhere only if it stands nowhere.
pub proof fn law_patterns_are_found_where_they_stand(s: Seq<char>, p: Seq<char>, k: int)
    requires
        0 <= k <= s.len() - p.len(),
        s.subrange(k, k + p.len()) == p,
    ensures
        find(s, p) is Some,
        contains(s, p),
        find(s, p)->0 <= k,
        find(s, p)->0 + p.len() <= s.len(),
        s.subrange(find(s, p)->0 as int, find(s, p)->0 as int + p.len()) == p,
    decreases s.len(),
{
    if starts(s, p) {
        assert(s.subrange(0, p.len() as int) == s.take(p.len() as int));
    } else {
        if k == 0 {
            assert(s.take(p.len() as int) == s.subrange(0, p.len() as int));
        }
        let r = s.skip(1);
        assert(r.subrange(k - 1, k - 1 + p.len()) == s.subrange(k, k + p.len()));
        law_patterns_are_found_where_they_stand(r, p, k - 1);
        let i = find(r, p)->0 as int;
        assert(r.subrange(i, i + p.len()) == s.subrange(i + 1, i + 1 + p.len()));
    }
}

/// A pattern that is found stands there.
pub proof fn law_found_patterns_stand_there(s: Seq<char>, p: Seq<char>)
    requires
        find(s, p) is Some,
    ensures
        find(s, p)->0 + p.len() <= s.len(),
        s.subrange(find(s, p)->0 as int, find(s, p)->0 as int + p.len()) == p,
    decreases s.len(),
{
    if starts(s, p) {
        assert(s.subrange(0, p.len() as int) == s.take(p.len() as int));
    } else {
        let r = s.skip(1);
        law_found_patterns_stand_there(r, p);
        let i = find(r, p)->0 as int;
        assert(r.subrange(i, i + p.len()) == s.subrange(i + 1, i + 1 + p.len()));
    }
}

/// The separator that ends a part is the first one.
proof fn lemma_until_part(a: Seq<char>, c: char, b: Seq<char>)
    requires
        !a.contains(c),
    ensures
        until(a + seq![c] + b, c) == a.len(),
        until(a, c) == a.len(),
{
    let s = a + seq![c] + b;
    lemma_until(s, c);
    lemma_until(a, c);
    let n = until(s, c) as int;
    assert(s[a.len() as int] == c);
    if n < a.len() {
        assert(a[n] == c);
    }
    if until(a, c) < a.len() {
        assert(a[until(a, c) as int] == c);
    }
}

/// A text is split at every separator: the first part ends where the first separator
/// stands, and the rest is split in the same way. Without a separator the text is the
/// only part.
pub proof fn law_texts_are_split_at_every_separator(a: Seq<char>, c: char, b: Seq<char>)
    requires
        !a.contains(c),
    ensures
        split(a + seq![c] + b, c) == seq![a] + split(b, c),
        split(a, c) == seq![a],
        split_once(a + seq![c] + b, c) == Some((a, b)),
        split_once(a, c) is None,
{
    let s = a + seq![c] + b;
    lemma_until_part(a, c, b);
    assert(s.take(a.len() as int) == a);
    assert(s.skip(a.len() as int + 1) == b);
}

/// A line ends with a line feed, which may follow a carriage return. The last line needs
/// no end.
pub proof fn law_lines_end_with_a_line_feed(a: Seq<char>, b: Seq<char>)
    requires
        !a.contains('\n'),
    ensures
        a.len() == 0 || a.last() != '\r' ==> lines(a + seq!['\n'] + b) == seq![a] + lines(b),
        lines(a + seq!['\r', '\n'] + b) == seq![a] + lines(b),
        a.len() > 0 ==> lines(a) == seq![a],
        lines(Seq::empty()) == Seq::<Seq<char>>::empty(),
{
    let s = a + seq!['\n'] + b;
    lemma_until_part(a, '\n', b);
    assert(s.take(a.len() as int) == a);
    assert(s.skip(a.len() as int + 1) == b);
    let d = a.push('\r');
    let w = a + seq!['\r', '\n'] + b;
    assert(w == d + seq!['\n'] + b);
    assert forall|i: int| 0 <= i < d.len() implies d[i] != '\n' by {
        if i < a.len() {
            assert(a.contains(a[i]));
            assert(d[i] == a[i]);
        }
    }
    lemma_until_part(d, '\n', b);
    assert(w.take(d.len() as int) == d);
    assert(w.skip(d.len() as int + 1) == b);
    assert(d.drop_last() == a);
}

/// Words are cut at white space, however much of it there is.
pub proof fn law_words_are_cut_at_white_space(w: Seq<char>, c: char, rest: Seq<char>)
    requires
        w.len() > 0,
        forall|i: int| 0 <= i < w.len() ==> !is_space(#[trigger] w[i]),
        is_space(c),
    ensures
        words(w + seq![c] + rest) == seq![w] + words(rest),
        words(w) == seq![w],
        words(seq![c] + rest) == words(rest),
        words(Seq::empty()) == Seq::<Seq<char>>::empty(),
{
    let s = w + seq![c] + rest;
    let n = w.len() as int;
    lemma_word_ends(w, seq![c] + rest);
    lemma_word_ends(w, Seq::empty());
    assert(w + (seq![c] + rest) == s);
    assert(w + Seq::<char>::empty() == w);
    assert(s[0] == w[0]);
    assert(s.take(n) == w);
    assert(s.skip(n) == seq![c] + rest);
    assert(w.take(n) == w);
    assert(w.skip(n) == Seq::<char>::empty());
    let r = seq![c] + rest;
    assert(r.skip(1) == rest);
    lemma_trim_start_twice(rest);
    assert(words(r) == words(rest));
    assert(!is_space(w[0]));
    assert(trim_start(s) == s && trim_start(w) == w);
    assert(words(s) == seq![w] + words(r));
    assert(words(Seq::<char>::empty()) == Seq::<Seq<char>>::empty());
    assert(words(w) == seq![w] + words(Seq::<char>::empty()));
    assert(words(w) == seq![w]);
}

proof fn lemma_word_ends(w: Seq<char>, rest: Seq<char>)
    requires
        forall|i: int| 0 <= i < w.len() ==> !is_space(#[trigger] w[i]),
        rest.len() > 0 ==> is_space(rest[0]),
    ensures
        word_len(w + rest) == w.len(),
    decreases w.len(),
{
    let s = w + rest;
    if w.len() > 0 {
        assert(s[0] == w[0]);
        let v = w.skip(1);
        assert forall|i: int| 0 <= i < v.len() implies !is_space(#[trigger] v[i]) by {
            assert(w[i + 1] == v[i]);
        }
        lemma_word_ends(v, rest);
        assert(s.skip(1) == v + rest);
    } else {
        assert(s == rest);
    }
}

/// A text starts and ends with a pattern if and only if it is the pattern with something
/// behind or before it.
pub proof fn law_texts_start_and_end_with_a_pattern(p: Seq<char>, rest: Seq<char>)
    ensures
        starts(p + rest, p),
        after_prefix(p + rest, p) == Some(rest),
        ends(rest + p, p),
        p.len() > 0 ==> trim_start_str(p + rest, p) == trim_start_str(rest, p),
        p.len() > 0 ==> trim_end_str(rest + p, p) == trim_end_str(rest, p),
        p.len() > 0 && !starts(rest, p) ==> trim_start_str(rest, p) == rest,
        p.len() > 0 && !ends(rest, p) ==> trim_end_str(rest, p) == rest,
        starts(rest, p) ==> p.is_prefix_of(rest),
        p.is_prefix_of(rest) ==> starts(rest, p),
{
    assert((p + rest).take(p.len() as int) == p);
    assert((p + rest).skip(p.len() as int) == rest);
    assert((rest + p).skip(rest.len() as int) == p);
    assert((rest + p).take(rest.len() as int) == rest);
    if p.len() <= rest.len() {
        assert(rest.subrange(0, p.len() as int) == rest.take(p.len() as int));
    }
}

/// The small letter of a capital stands 32 places behind it; every other character of
/// ASCII is its own.
pub proof fn law_lowercase_of_ascii(s: Seq<char>, i: int)
    requires
        vstd::utf8::is_ascii_chars(s),
        0 <= i < s.len(),
    ensures
        lowercase(s).len() == s.len(),
        'A' <= s[i] <= 'Z' ==> lowercase(s)[i] as u32 == s[i] as u32 + 32,
        !('A' <= s[i] <= 'Z') ==> lowercase(s)[i] == s[i],
{
}

/// Replacing leaves no such character and every other one.
pub proof fn law_replaced_characters_are_gone(s: Seq<char>, a: char, b: char, i: int)
    requires
        0 <= i < s.len(),
    ensures
        replace_char(s, a, b).len() == s.len(),
        s[i] == a ==> replace_char(s, a, b)[i] == b,
        s[i] != a ==> replace_char(s, a, b)[i] == s[i],
{
}

/// A text that starts with a pattern does not start with another that differs from it.
pub proof fn lemma_other_start(p: Seq<char>, rest: Seq<char>, q: Seq<char>, i: int)
    requires
        0 <= i < p.len(),
        i < q.len(),
        p[i] != q[i],
    ensures
        !starts(p + rest, q),
        !starts(p, q),
{
    let s = p + rest;
    assert(s[i] == p[i]);
    if starts(s, q) {
        assert(s.take(q.len() as int)[i] == s[i]);
    }
    if starts(p, q) {
        assert(p.take(q.len() as int)[i] == p[i]);
    }
}

// ---------------------------------------------------------------------------
// What a text tells
// ---------------------------------------------------------------------------

/// Texts one behind the other.
pub open spec fn together(parts: Seq<Seq<char>>) -> Seq<char>
    decreases parts.len(),
{
    if parts.len() == 0 {
        Seq::empty()
    } else if parts.len() == 1 {
        parts[0]
    } else {
        together(parts.drop_last()) + parts.last()
    }
}

/// The last text stands behind the others.
pub proof fn lemma_together_last(p: Seq<Seq<char>>, n: int)
    requires
        2 <= n <= p.len(),
    ensures
        together(p.take(n)) == together(p.take(n - 1)) + p[n - 1],
{
    assert(p.take(n).drop_last() == p.take(n - 1));
}

proof fn lemma_together_adds(a: Seq<Seq<char>>, b: Seq<Seq<char>>)
    ensures
        together(a + b) == together(a) + together(b),
    decreases b.len(),
{
    if b.len() == 0 {
        assert(a + b == a);
        assert(together(a) + Seq::<char>::empty() == together(a));
    } else if a.len() == 0 {
        assert(a + b == b);
        assert(Seq::<char>::empty() + together(b) == together(b));
    } else {
        lemma_together_adds(a, b.drop_last());
        assert((a + b).drop_last() == a + b.drop_last());
        assert((a + b).last() == b.last());
        if b.len() == 1 {
            assert(a + b.drop_last() == a);
            assert(b.last() == b[0]);
        } else {
            assert(together(a) + together(b.drop_last()) + b.last() == together(a) + together(b));
        }
    }
}

/// A text that stands inside another is found there.
pub proof fn lemma_inside_is_found(before: Seq<char>, p: Seq<char>, behind: Seq<char>)
    ensures
        contains(before + p + behind, p),
{
    let s = before + p + behind;
    let k = before.len() as int;
    assert(s.subrange(k, k + p.len()) == p);
    law_patterns_are_found_where_they_stand(s, p, k);
}

/// Texts that follow each other stand together in the whole.
pub proof fn lemma_neighbours_are_found(p: Seq<Seq<char>>, i: int, j: int)
    requires
        0 <= i <= j <= p.len(),
    ensures
        contains(together(p), together(p.subrange(i, j))),
{
    let (a, m, b) = (p.take(i), p.subrange(i, j), p.skip(j));
    lemma_together_adds(a, m);
    lemma_together_adds(a + m, b);
    assert(a + m + b == p);
    lemma_inside_is_found(together(a), together(m), together(b));
}

/// Two neighbours.
pub proof fn lemma_pair_is_found(p: Seq<Seq<char>>, i: int)
    requires
        0 <= i < p.len() - 1,
    ensures
        contains(together(p), p[i] + p[i + 1]),
{
    let m = p.subrange(i, i + 2);
    lemma_neighbours_are_found(p, i, i + 2);
    assert(m.drop_last() == seq![p[i]]);
    assert(together(seq![p[i]]) == p[i]);
    assert(m.last() == p[i + 1]);
    assert(together(m) == p[i] + p[i + 1]);
}

} // verus!
