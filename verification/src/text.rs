//! Text as sequences of characters: trimming, splitting, joining and searching.
//!
//! The specification functions describe each operation on `Seq<char>`, the view of `str` and
//! `String`. The executable functions work on slices of characters, so that a piece of a text is
//! taken without copying it.
use vstd::prelude::*;

verus! {

/// `String::push` appends one character.
pub assume_specification[ String::push ](s: &mut String, c: char)
    ensures
        final(s)@ == old(s)@.push(c),
;

/// What `str::to_lowercase` returns for a string with the given characters.
pub uninterp spec fn lowercase(s: Seq<char>) -> Seq<char>;

/// The lower-case letter of an ASCII capital; any other character stays as it is.
pub open spec fn ascii_lower(c: char) -> char {
    if 'A' <= c <= 'Z' {
        (c as u32 + 32) as char
    } else {
        c
    }
}

/// `str::to_lowercase` depends on the string alone. It follows the Unicode tables; on a string of
/// ASCII characters it replaces the capitals `A` to `Z` and nothing else. What it does to other
/// characters is not stated.
pub assume_specification[ str::to_lowercase ](s: &str) -> (r: String)
    ensures
        r@ == lowercase(s@),
        vstd::utf8::is_ascii_chars(s@) ==> r@ == s@.map_values(|c: char| ascii_lower(c)),
;

// ---------------------------------------------------------------------------
// Classes of characters
// ---------------------------------------------------------------------------

/// The characters with the Unicode property `White_Space`.
pub open spec fn white_space(c: char) -> bool {
    let n = c as u32;
    ||| 0x9 <= n <= 0xd
    ||| n == 0x20
    ||| n == 0x85
    ||| n == 0xa0
    ||| n == 0x1680
    ||| 0x2000 <= n <= 0x200a
    ||| n == 0x2028
    ||| n == 0x2029
    ||| n == 0x202f
    ||| n == 0x205f
    ||| n == 0x3000
}

/// Whether a character has the Unicode property `White_Space`.
pub fn is_white_space(c: char) -> (r: bool)
    ensures
        r == white_space(c),
{
    let n: u32 = c as u32;
    (0x9 <= n && n <= 0xd) || n == 0x20 || n == 0x85 || n == 0xa0 || n == 0x1680 || (0x2000 <= n
        && n <= 0x200a) || n == 0x2028 || n == 0x2029 || n == 0x202f || n == 0x205f || n == 0x3000
}

/// A class of characters that can be trimmed away or split at.
#[derive(Clone, Copy)]
pub enum Class {
    White,
    Only(char),
    Either(char, char),
}

impl Class {
    /// Whether `c` belongs to the class.
    pub open spec fn has(self, c: char) -> bool {
        match self {
            Class::White => white_space(c),
            Class::Only(a) => c == a,
            Class::Either(a, b) => c == a || c == b,
        }
    }

    /// Whether `c` belongs to the class.
    pub fn contains(&self, c: char) -> (r: bool)
        ensures
            r == self.has(c),
    {
        match self {
            Class::White => is_white_space(c),
            Class::Only(a) => c == *a,
            Class::Either(a, b) => c == *a || c == *b,
        }
    }
}

// ---------------------------------------------------------------------------
// Conversions
// ---------------------------------------------------------------------------

/// The characters of a string.
pub fn chars_of(s: &str) -> (r: Vec<char>)
    ensures
        r@ == s@,
{
    let mut out: Vec<char> = Vec::new();
    for c in it: s.chars()
        invariant
            out@ == it.seq().take(it.index() as int),
            it.seq() == s@,
    {
        out.push(c);
    }
    out
}

/// The string with the given characters.
pub fn string_of(s: &[char]) -> (r: String)
    ensures
        r@ == s@,
{
    let mut out = String::new();
    for i in 0..s.len()
        invariant
            out@ == s@.take(i as int),
    {
        out.push(s[i]);
    }
    out
}

/// The views of a sequence of strings.
pub open spec fn texts(v: Seq<String>) -> Seq<Seq<char>> {
    v.map_values(|s: String| s@)
}

/// The view of an optional string.
pub open spec fn opt_text(o: Option<String>) -> Option<Seq<char>> {
    match o {
        Some(s) => Some(s@),
        None => None,
    }
}

/// The view of an optional string slice.
pub open spec fn opt_str(o: Option<&str>) -> Option<Seq<char>> {
    match o {
        Some(s) => Some(s@),
        None => None,
    }
}

/// The views of a sequence of string slices.
pub open spec fn str_views(v: Seq<&'static str>) -> Seq<Seq<char>> {
    v.map_values(|s: &'static str| s@)
}

/// The views of a sequence of slices of characters.
pub open spec fn pieces(v: Seq<&[char]>) -> Seq<Seq<char>> {
    v.map_values(|s: &[char]| s@)
}

/// Appending a string appends its view.
pub broadcast proof fn lemma_texts_push(v: Seq<String>, s: String)
    ensures
        #[trigger] texts(v.push(s)) == texts(v).push(s@),
{
    assert(texts(v.push(s)) =~= texts(v).push(s@));
}

/// Appending a piece appends its view.
pub broadcast proof fn lemma_pieces_push(v: Seq<&[char]>, s: &[char])
    ensures
        #[trigger] pieces(v.push(s)) == pieces(v).push(s@),
{
    assert(pieces(v.push(s)) =~= pieces(v).push(s@));
}

pub broadcast group group_text {
    lemma_texts_push,
    lemma_pieces_push,
}

/// A copy of a list of strings.
pub fn clone_strings(v: &Vec<String>) -> (r: Vec<String>)
    ensures
        texts(r@) == texts(v@),
{
    broadcast use group_text;

    let mut out: Vec<String> = Vec::new();
    for i in 0..v.len()
        invariant
            texts(out@) == texts(v@).take(i as int),
    {
        out.push(v[i].clone());
        assert(texts(v@).take(i as int).push(texts(v@)[i as int]) =~= texts(v@).take(i + 1));
    }
    out
}

/// A copy of an optional string.
pub fn clone_option(o: &Option<String>) -> (r: Option<String>)
    ensures
        opt_text(r) == opt_text(*o),
{
    match o {
        Some(s) => Some(s.clone()),
        None => None,
    }
}

/// The strings with the given pieces of text.
pub fn strings_of(v: &Vec<&[char]>) -> (r: Vec<String>)
    ensures
        texts(r@) == pieces(v@),
{
    broadcast use group_text;

    let mut out: Vec<String> = Vec::new();
    for i in 0..v.len()
        invariant
            texts(out@) == pieces(v@).take(i as int),
    {
        out.push(string_of(v[i]));
        assert(pieces(v@).take(i as int).push(pieces(v@)[i as int]) =~= pieces(v@).take(i + 1));
    }
    out
}

// ---------------------------------------------------------------------------
// Comparison
// ---------------------------------------------------------------------------

/// Whether two texts are equal.
pub fn same(a: &[char], b: &[char]) -> (r: bool)
    ensures
        r == (a@ == b@),
{
    if a.len() != b.len() {
        return false;
    }
    for i in 0..a.len()
        invariant
            a@.len() == b@.len(),
            forall|j: int| 0 <= j < i ==> a@[j] == b@[j],
    {
        if a[i] != b[i] {
            return false;
        }
    }
    assert(a@ =~= b@);
    true
}

/// Whether a text equals a string.
pub fn is(a: &[char], b: &str) -> (r: bool)
    ensures
        r == (a@ == b@),
{
    let b = chars_of(b);
    same(a, b.as_slice())
}

/// Whether two strings are equal.
pub fn str_same(a: &str, b: &str) -> (r: bool)
    ensures
        r == (a@ == b@),
{
    let x = a.as_bytes();
    let y = b.as_bytes();
    let n: usize = x.len();
    if n != y.len() {
        return false;
    }
    for i in 0..n
        invariant
            n == x@.len(),
            n == y@.len(),
            x@ == vstd::utf8::encode_utf8(a@),
            y@ == vstd::utf8::encode_utf8(b@),
            forall|j: int| 0 <= j < i ==> x@[j] == y@[j],
    {
        if x[i] != y[i] {
            return false;
        }
    }
    proof {
        assert(x@ =~= y@);
        vstd::utf8::encode_utf8_decode_utf8(a@);
        vstd::utf8::encode_utf8_decode_utf8(b@);
    }
    true
}

/// `p` stands in `s` at position `i`.
pub open spec fn occurs_at(s: Seq<char>, p: Seq<char>, i: int) -> bool {
    &&& 0 <= i
    &&& i + p.len() <= s.len()
    &&& s.subrange(i, i + p.len()) == p
}

/// `p` stands somewhere in `s`.
pub open spec fn contains(s: Seq<char>, p: Seq<char>) -> bool {
    exists|i: int| occurs_at(s, p, i)
}

/// `s` starts with `p`.
pub open spec fn starts(s: Seq<char>, p: Seq<char>) -> bool {
    occurs_at(s, p, 0)
}

/// `s` ends with `p`.
pub open spec fn ends(s: Seq<char>, p: Seq<char>) -> bool {
    occurs_at(s, p, s.len() - p.len())
}

/// The first position at or after `from` where `p` stands in `s`.
pub open spec fn find_from(s: Seq<char>, p: Seq<char>, from: int) -> Option<int>
    decreases s.len() + 1 - from,
{
    if from + p.len() > s.len() {
        None
    } else if occurs_at(s, p, from) {
        Some(from)
    } else {
        find_from(s, p, from + 1)
    }
}

/// The first position where `p` stands in `s`.
pub open spec fn find(s: Seq<char>, p: Seq<char>) -> Option<int> {
    find_from(s, p, 0)
}

/// Whether `p` stands in `s` at position `i`.
pub fn occurs(s: &[char], p: &[char], i: usize) -> (r: bool)
    ensures
        r == occurs_at(s@, p@, i as int),
{
    if i > s.len() || p.len() > s.len() - i {
        return false;
    }
    for j in 0..p.len()
        invariant
            i + p@.len() <= s@.len(),
            s@.len() == s.len(),
            p@.len() == p.len(),
            forall|k: int| 0 <= k < j ==> s@[i + k] == p@[k],
    {
        if s[i + j] != p[j] {
            assert(s@.subrange(i as int, i + p@.len())[j as int] == s@[i + j]);
            return false;
        }
    }
    assert(s@.subrange(i as int, i + p@.len()) =~= p@);
    true
}

/// Whether a text starts with a string.
pub fn starts_with(s: &[char], p: &str) -> (r: bool)
    ensures
        r == starts(s@, p@),
{
    let p = chars_of(p);
    occurs(s, p.as_slice(), 0)
}

/// Whether a text ends with a string.
pub fn ends_with(s: &[char], p: &str) -> (r: bool)
    ensures
        r == ends(s@, p@),
{
    let p = chars_of(p);
    if p.len() > s.len() {
        return false;
    }
    occurs(s, p.as_slice(), s.len() - p.len())
}

/// What `find` returns: the first of the positions where `p` stands.
pub proof fn lemma_find_from(s: Seq<char>, p: Seq<char>, from: int)
    requires
        0 <= from,
    ensures
        match find_from(s, p, from) {
            Some(i) => from <= i && occurs_at(s, p, i) && forall|j: int|
                from <= j < i ==> !occurs_at(s, p, j),
            None => forall|j: int| from <= j ==> !occurs_at(s, p, j),
        },
    decreases s.len() + 1 - from,
{
    if from + p.len() <= s.len() && !occurs_at(s, p, from) {
        lemma_find_from(s, p, from + 1);
    }
}

/// The first position where a string stands in a text.
pub fn find_str(s: &[char], p: &str) -> (r: Option<usize>)
    ensures
        match r {
            Some(i) => find(s@, p@) == Some(i as int) && occurs_at(s@, p@, i as int),
            None => find(s@, p@) is None,
        },
{
    let pat = chars_of(p);
    let mut i: usize = 0;
    while pat.len() <= s.len() - i
        invariant
            find(s@, p@) == find_from(s@, p@, i as int),
            pat@ == p@,
            i <= s@.len(),
        decreases s@.len() + 1 - i,
    {
        if occurs(s, pat.as_slice(), i) {
            return Some(i);
        }
        assert(i < s@.len()) by {
            if i == s@.len() {
                assert(s@.subrange(i as int, i as int) =~= p@);
            }
        }
        i += 1;
    }
    None
}

/// Whether a string stands somewhere in a text.
pub fn contains_str(s: &[char], p: &str) -> (r: bool)
    ensures
        r == contains(s@, p@),
{
    proof {
        lemma_find_from(s@, p@, 0);
    }
    match find_str(s, p) {
        Some(_) => true,
        None => false,
    }
}

// ---------------------------------------------------------------------------
// Trimming
// ---------------------------------------------------------------------------

/// `s` without the characters of class `k` at its start.
pub open spec fn trim_start(s: Seq<char>, k: Class) -> Seq<char>
    decreases s.len(),
{
    if s.len() > 0 && k.has(s[0]) {
        trim_start(s.drop_first(), k)
    } else {
        s
    }
}

/// `s` without the characters of class `k` at its end.
pub open spec fn trim_end(s: Seq<char>, k: Class) -> Seq<char>
    decreases s.len(),
{
    if s.len() > 0 && k.has(s.last()) {
        trim_end(s.drop_last(), k)
    } else {
        s
    }
}

/// `s` without the characters of class `k` at its start and at its end.
pub open spec fn trim_class(s: Seq<char>, k: Class) -> Seq<char> {
    trim_end(trim_start(s, k), k)
}

/// `s` without white space at its start and at its end.
pub open spec fn trim(s: Seq<char>) -> Seq<char> {
    trim_class(s, Class::White)
}

/// `s` without as many copies of `p` as stand at its start.
pub open spec fn trim_start_text(s: Seq<char>, p: Seq<char>) -> Seq<char>
    decreases s.len(),
{
    if p.len() > 0 && starts(s, p) {
        trim_start_text(s.skip(p.len() as int), p)
    } else {
        s
    }
}

/// `s` without as many copies of `p` as stand at its end.
pub open spec fn trim_end_text(s: Seq<char>, p: Seq<char>) -> Seq<char>
    decreases s.len(),
{
    if p.len() > 0 && ends(s, p) {
        trim_end_text(s.take(s.len() - p.len()), p)
    } else {
        s
    }
}

/// Trims the characters of a class from the start of a text.
pub fn trim_start_class(s: &[char], k: Class) -> (r: &[char])
    ensures
        r@ == trim_start(s@, k),
{
    let mut i: usize = 0;
    assert(s@.skip(0) =~= s@);
    while i < s.len() && k.contains(s[i])
        invariant
            i <= s@.len(),
            trim_start(s@, k) == trim_start(s@.skip(i as int), k),
        decreases s@.len() - i,
    {
        assert(s@.skip(i as int).drop_first() =~= s@.skip(i + 1));
        i += 1;
    }
    &s[i..s.len()]
}

/// Trims the characters of a class from the end of a text.
pub fn trim_end_class(s: &[char], k: Class) -> (r: &[char])
    ensures
        r@ == trim_end(s@, k),
{
    let mut n: usize = s.len();
    assert(s@.take(n as int) =~= s@);
    while n > 0 && k.contains(s[n - 1])
        invariant
            n <= s@.len(),
            trim_end(s@, k) == trim_end(s@.take(n as int), k),
        decreases n,
    {
        assert(s@.take(n as int).drop_last() =~= s@.take(n - 1));
        n -= 1;
    }
    &s[0..n]
}

/// Trims the characters of a class from both ends of a text.
pub fn trim_both(s: &[char], k: Class) -> (r: &[char])
    ensures
        r@ == trim_class(s@, k),
{
    trim_end_class(trim_start_class(s, k), k)
}

/// Trims white space from both ends of a text.
pub fn trim_white(s: &[char]) -> (r: &[char])
    ensures
        r@ == trim(s@),
{
    trim_both(s, Class::White)
}

/// Trims the copies of a string at the start of a text.
pub fn trim_start_str<'a>(s: &'a [char], p: &str) -> (r: &'a [char])
    ensures
        r@ == trim_start_text(s@, p@),
{
    let pat = chars_of(p);
    if pat.len() == 0 {
        return s;
    }
    let mut i: usize = 0;
    assert(s@.skip(0) =~= s@);
    while occurs(s, pat.as_slice(), i)
        invariant
            pat@ == p@,
            pat@.len() > 0,
            i <= s@.len(),
            trim_start_text(s@, p@) == trim_start_text(s@.skip(i as int), p@),
        ensures
            i <= s@.len(),
            !occurs_at(s@, p@, i as int),
            trim_start_text(s@, p@) == trim_start_text(s@.skip(i as int), p@),
        decreases s@.len() - i,
    {
        assert(s@.skip(i as int).subrange(0, p@.len() as int) =~= s@.subrange(
            i as int,
            i + p@.len(),
        ));
        assert(s@.skip(i as int).skip(p@.len() as int) =~= s@.skip(i + p@.len()));
        assert(s@.len() == s.len());
        i += pat.len();
    }
    assert(!starts(s@.skip(i as int), p@)) by {
        if starts(s@.skip(i as int), p@) {
            assert(s@.skip(i as int).subrange(0, p@.len() as int) =~= s@.subrange(
                i as int,
                i + p@.len(),
            ));
        }
    }
    &s[i..s.len()]
}

/// Trims the copies of a string at the end of a text.
pub fn trim_end_str<'a>(s: &'a [char], p: &str) -> (r: &'a [char])
    ensures
        r@ == trim_end_text(s@, p@),
{
    let pat = chars_of(p);
    if pat.len() == 0 {
        return s;
    }
    let mut t: &'a [char] = s;
    while ends_with(t, p)
        invariant
            pat@ == p@,
            pat@.len() > 0,
            trim_end_text(s@, p@) == trim_end_text(t@, p@),
        decreases t@.len(),
    {
        t = &t[0..t.len() - pat.len()];
    }
    t
}

// ---------------------------------------------------------------------------
// Splitting and joining
// ---------------------------------------------------------------------------

/// The first position of a character of class `k`.
pub open spec fn position(s: Seq<char>, k: Class) -> Option<int>
    decreases s.len(),
{
    if s.len() == 0 {
        None
    } else if k.has(s[0]) {
        Some(0)
    } else {
        match position(s.drop_first(), k) {
            Some(i) => Some(i + 1),
            None => None,
        }
    }
}

/// What `position` returns: the first index of a character of the class.
pub proof fn lemma_position(s: Seq<char>, k: Class)
    ensures
        match position(s, k) {
            Some(i) => 0 <= i < s.len() && k.has(s[i]) && forall|j: int|
                0 <= j < i ==> !k.has(s[j]),
            None => forall|j: int| 0 <= j < s.len() ==> !k.has(s[j]),
        },
    decreases s.len(),
{
    if s.len() > 0 && !k.has(s[0]) {
        let t = s.drop_first();
        lemma_position(t, k);
        assert forall|j: int| 0 < j < s.len() implies s[j] == t[j - 1] by {}
    }
}

/// The index of a character of the class with none before it is the first position.
pub proof fn lemma_position_is(s: Seq<char>, k: Class, i: int)
    requires
        0 <= i < s.len(),
        k.has(s[i]),
        forall|j: int| 0 <= j < i ==> !k.has(s[j]),
    ensures
        position(s, k) == Some(i),
{
    lemma_position(s, k);
}

/// The pieces of `s` between the characters of class `k`.
pub open spec fn split(s: Seq<char>, k: Class) -> Seq<Seq<char>>
    decreases s.len(),
{
    match position(s, k) {
        Some(i) => if 0 <= i < s.len() {
            seq![s.take(i)] + split(s.skip(i + 1), k)
        } else {
            seq![s]
        },
        None => seq![s],
    }
}

/// The pieces of `s` between the occurrences of `p`, taken from the left.
pub open spec fn split_text(s: Seq<char>, p: Seq<char>) -> Seq<Seq<char>>
    decreases s.len(),
{
    match find(s, p) {
        Some(i) => if 0 <= i && p.len() > 0 && i + p.len() <= s.len() {
            seq![s.take(i)] + split_text(s.skip(i + p.len()), p)
        } else {
            seq![s]
        },
        None => seq![s],
    }
}

/// The parts with `sep` between each two of them.
pub open spec fn join(parts: Seq<Seq<char>>, sep: Seq<char>) -> Seq<char>
    decreases parts.len(),
{
    if parts.len() == 0 {
        seq![]
    } else if parts.len() == 1 {
        parts[0]
    } else {
        join(parts.drop_last(), sep) + sep + parts.last()
    }
}

/// The first position of a character of a class.
pub fn position_of(s: &[char], k: Class) -> (r: Option<usize>)
    ensures
        match r {
            Some(i) => position(s@, k) == Some(i as int) && i < s@.len(),
            None => position(s@, k) is None,
        },
{
    let mut i: usize = 0;
    while i < s.len()
        invariant
            i <= s@.len(),
            forall|j: int| 0 <= j < i ==> !k.has(s@[j]),
        decreases s@.len() - i,
    {
        if k.contains(s[i]) {
            proof {
                lemma_position_is(s@, k, i as int);
            }
            return Some(i);
        }
        i += 1;
    }
    proof {
        lemma_position(s@, k);
    }
    None
}

/// The pieces of a text between the characters of a class.
pub fn split_class(s: &[char], k: Class) -> (r: Vec<&[char]>)
    ensures
        pieces(r@) == split(s@, k),
        r@.len() > 0,
{
    broadcast use group_text;

    let mut out: Vec<&[char]> = Vec::new();
    let mut rest: &[char] = s;
    assert(pieces(out@) + split(rest@, k) =~= split(s@, k));
    loop
        invariant
            split(s@, k) == pieces(out@) + split(rest@, k),
        decreases rest@.len(),
    {
        match position_of(rest, k) {
            Some(i) => {
                let ghost before = rest@;
                let ghost head = pieces(out@);
                out.push(&rest[0..i]);
                let n: usize = rest.len();
                rest = &rest[i + 1..n];
                assert(before.take(i as int) =~= before.subrange(0, i as int));
                assert(rest@ =~= before.skip(i + 1));
                assert(head + (seq![before.take(i as int)] + split(rest@, k)) =~= pieces(out@)
                    + split(rest@, k));
            },
            None => {
                let ghost head = pieces(out@);
                out.push(rest);
                assert(head + seq![rest@] =~= pieces(out@));
                return out;
            },
        }
    }
}

/// The pieces of a text between the occurrences of a string.
pub fn split_str<'a>(s: &'a [char], p: &str) -> (r: Vec<&'a [char]>)
    requires
        p@.len() > 0,
    ensures
        pieces(r@) == split_text(s@, p@),
        r@.len() > 0,
{
    broadcast use group_text;

    let width: usize = chars_of(p).len();
    let mut out: Vec<&'a [char]> = Vec::new();
    let mut rest: &'a [char] = s;
    assert(pieces(out@) + split_text(rest@, p@) =~= split_text(s@, p@));
    loop
        invariant
            p@.len() > 0,
            width == p@.len(),
            split_text(s@, p@) == pieces(out@) + split_text(rest@, p@),
        decreases rest@.len(),
    {
        match find_str(rest, p) {
            Some(i) => {
                let ghost before = rest@;
                let ghost head = pieces(out@);
                out.push(&rest[0..i]);
                let n: usize = rest.len();
                rest = &rest[i + width..n];
                assert(before.take(i as int) =~= before.subrange(0, i as int));
                assert(rest@ =~= before.skip(i + width));
                assert(head + (seq![before.take(i as int)] + split_text(rest@, p@)) =~= pieces(out@)
                    + split_text(rest@, p@));
            },
            None => {
                let ghost head = pieces(out@);
                out.push(rest);
                assert(head + seq![rest@] =~= pieces(out@));
                return out;
            },
        }
    }
}

/// Joining one part more.
pub proof fn lemma_join_push(parts: Seq<Seq<char>>, part: Seq<char>, sep: Seq<char>)
    ensures
        join(parts.push(part), sep) == if parts.len() == 0 {
            part
        } else {
            join(parts, sep) + sep + part
        },
{
    assert(parts.push(part).drop_last() =~= parts);
}

/// The parts with a separator between each two of them.
pub fn join_strings(parts: &[String], sep: &str) -> (r: String)
    ensures
        r@ == join(texts(parts@), sep@),
{
    let mut out = String::new();
    assert(texts(parts@).take(0) =~= seq![]);
    for i in 0..parts.len()
        invariant
            out@ == join(texts(parts@).take(i as int), sep@),
    {
        proof {
            assert(texts(parts@).take(i + 1) =~= texts(parts@).take(i as int).push(
                parts@[i as int]@,
            ));
            lemma_join_push(texts(parts@).take(i as int), parts@[i as int]@, sep@);
        }
        if i > 0 {
            out.append(sep);
        }
        out.append(parts[i].as_str());
        assert(out@ =~= join(texts(parts@).take(i + 1), sep@));
    }
    assert(texts(parts@).take(parts@.len() as int) =~= texts(parts@));
    out
}

/// What stands before the last character of class `k`.
pub open spec fn before_last(s: Seq<char>, k: Class) -> Option<Seq<char>>
    decreases s.len(),
{
    if s.len() == 0 {
        None
    } else if k.has(s.last()) {
        Some(s.drop_last())
    } else {
        before_last(s.drop_last(), k)
    }
}

/// What stands before the last character of a class.
pub fn before_last_of(s: &[char], k: Class) -> (r: Option<&[char]>)
    ensures
        match r {
            Some(t) => before_last(s@, k) == Some(t@),
            None => before_last(s@, k) is None,
        },
{
    let mut n: usize = s.len();
    assert(s@.take(n as int) =~= s@);
    while n > 0
        invariant
            n <= s@.len(),
            before_last(s@, k) == before_last(s@.take(n as int), k),
        decreases n,
    {
        assert(s@.take(n as int).drop_last() =~= s@.take(n - 1));
        if k.contains(s[n - 1]) {
            return Some(&s[0..n - 1]);
        }
        n -= 1;
    }
    None
}

/// A line without the carriage return that may end it.
pub open spec fn drop_return(s: Seq<char>) -> Seq<char> {
    if s.len() > 0 && s.last() == '\r' {
        s.drop_last()
    } else {
        s
    }
}

/// The lines of `s`: each ends at a line feed, which a carriage return may precede, or at the
/// end of the text.
pub open spec fn lines(s: Seq<char>) -> Seq<Seq<char>>
    decreases s.len(),
{
    if s.len() == 0 {
        seq![]
    } else {
        match position(s, Class::Only('\n')) {
            Some(i) => if 0 <= i < s.len() {
                seq![drop_return(s.take(i))] + lines(s.skip(i + 1))
            } else {
                seq![s]
            },
            None => seq![s],
        }
    }
}

/// The lines of a text.
pub fn lines_of(s: &[char]) -> (r: Vec<&[char]>)
    ensures
        pieces(r@) == lines(s@),
{
    broadcast use group_text;

    let mut out: Vec<&[char]> = Vec::new();
    let mut rest: &[char] = s;
    assert(pieces(out@) + lines(rest@) =~= lines(s@));
    while rest.len() > 0
        invariant
            lines(s@) == pieces(out@) + lines(rest@),
        decreases rest@.len(),
    {
        let ghost before = rest@;
        let ghost head = pieces(out@);
        let n: usize = rest.len();
        match position_of(rest, Class::Only('\n')) {
            Some(i) => {
                let end: usize = if i > 0 && rest[i - 1] == '\r' {
                    i - 1
                } else {
                    i
                };
                out.push(&rest[0..end]);
                rest = &rest[i + 1..n];
                assert(before.subrange(0, end as int) =~= drop_return(before.take(i as int)));
                assert(rest@ =~= before.skip(i + 1));
                assert(head + (seq![drop_return(before.take(i as int))] + lines(rest@))
                    =~= pieces(out@) + lines(rest@));
            },
            None => {
                out.push(rest);
                rest = &rest[n..n];
                assert(head + seq![before] =~= pieces(out@) + lines(rest@));
            },
        }
    }
    assert(pieces(out@) + lines(rest@) =~= pieces(out@));
    out
}

/// `s` with each `a` replaced by `b`.
pub open spec fn replace(s: Seq<char>, a: char, b: char) -> Seq<char> {
    s.map_values(|c: char| if c == a { b } else { c })
}

/// A text with each occurrence of one character replaced by another.
pub fn replace_char(s: &[char], a: char, b: char) -> (r: Vec<char>)
    ensures
        r@ == replace(s@, a, b),
{
    let mut out: Vec<char> = Vec::new();
    for i in 0..s.len()
        invariant
            out@ == replace(s@, a, b).take(i as int),
    {
        let c: char = if s[i] == a {
            b
        } else {
            s[i]
        };
        out.push(c);
        assert(out@ =~= replace(s@, a, b).take(i + 1));
    }
    assert(replace(s@, a, b).take(s@.len() as int) =~= replace(s@, a, b));
    out
}

/// Two strings, one after the other.
pub fn concat(a: &str, b: &str) -> (r: String)
    ensures
        r@ == a@ + b@,
{
    let mut out = String::new();
    out.append(a);
    out.append(b);
    assert(out@ =~= a@ + b@);
    out
}

// ---------------------------------------------------------------------------
// Numbers
// ---------------------------------------------------------------------------

/// The decimal digit for `d`.
pub open spec fn digit(d: int) -> char {
    if d == 0 {
        '0'
    } else if d == 1 {
        '1'
    } else if d == 2 {
        '2'
    } else if d == 3 {
        '3'
    } else if d == 4 {
        '4'
    } else if d == 5 {
        '5'
    } else if d == 6 {
        '6'
    } else if d == 7 {
        '7'
    } else if d == 8 {
        '8'
    } else {
        '9'
    }
}

/// The decimal notation of `n`.
pub open spec fn decimal(n: nat) -> Seq<char>
    decreases n,
{
    if n < 10 {
        seq![digit(n as int)]
    } else {
        decimal(n / 10).push(digit((n % 10) as int))
    }
}

/// The decimal digit for a number below ten.
fn digit_of(d: usize) -> (r: char)
    requires
        d < 10,
    ensures
        r == digit(d as int),
{
    match d {
        0 => '0',
        1 => '1',
        2 => '2',
        3 => '3',
        4 => '4',
        5 => '5',
        6 => '6',
        7 => '7',
        8 => '8',
        _ => '9',
    }
}

/// Appends the decimal notation of a number.
pub fn push_decimal(out: &mut String, n: usize)
    ensures
        final(out)@ == old(out)@ + decimal(n as nat),
    decreases n,
{
    if n >= 10 {
        push_decimal(out, n / 10);
    }
    out.push(digit_of(n % 10));
    assert(out@ =~= old(out)@ + decimal(n as nat));
}

/// A number below a thousand with three digits.
pub open spec fn three_digits(n: nat) -> Seq<char> {
    seq![digit((n / 100 % 10) as int), digit((n / 10 % 10) as int), digit((n % 10) as int)]
}

/// The decimal notation of `n` with a comma before each group of three digits.
pub open spec fn grouped(n: nat) -> Seq<char>
    decreases n,
{
    if n < 1000 {
        decimal(n)
    } else {
        grouped(n / 1000).push(',') + three_digits(n % 1000)
    }
}

/// Appends the decimal notation of a number with a comma before each group of three digits.
pub fn push_grouped(out: &mut String, n: usize)
    ensures
        final(out)@ == old(out)@ + grouped(n as nat),
    decreases n,
{
    if n < 1000 {
        push_decimal(out, n);
    } else {
        push_grouped(out, n / 1000);
        let rest: usize = n % 1000;
        out.push(',');
        out.push(digit_of(rest / 100 % 10));
        out.push(digit_of(rest / 10 % 10));
        out.push(digit_of(rest % 10));
        assert(out@ =~= old(out)@ + grouped(n as nat));
    }
}

// ---------------------------------------------------------------------------
// Splitting what was put together
// ---------------------------------------------------------------------------

/// A text without characters of a class is one piece.
pub proof fn lemma_split_whole(s: Seq<char>, k: Class)
    requires
        forall|i: int| 0 <= i < s.len() ==> !k.has(#[trigger] s[i]),
    ensures
        split(s, k) == seq![s],
{
    lemma_position(s, k);
}

/// The pieces of two texts with a character of the class between them are those of each.
pub proof fn lemma_split_concat(a: Seq<char>, c: char, b: Seq<char>, k: Class)
    requires
        k.has(c),
    ensures
        split(a.push(c) + b, k) == split(a, k) + split(b, k),
    decreases a.len(),
{
    let s = a.push(c) + b;
    lemma_position(a, k);
    match position(a, k) {
        Some(i) => {
            assert(s[i] == a[i]);
            assert forall|j: int| 0 <= j < i implies !k.has(s[j]) by {
                assert(s[j] == a[j]);
            }
            lemma_position_is(s, k, i);
            let rest = a.skip(i + 1);
            lemma_split_concat(rest, c, b, k);
            assert(s.skip(i + 1) =~= rest.push(c) + b);
            assert(s.take(i) =~= a.take(i));
            assert(seq![a.take(i)] + (split(rest, k) + split(b, k)) =~= (seq![a.take(i)] + split(
                rest,
                k,
            )) + split(b, k));
        },
        None => {
            let n = a.len() as int;
            assert(s[n] == c);
            assert forall|j: int| 0 <= j < n implies !k.has(s[j]) by {
                assert(s[j] == a[j]);
            }
            lemma_position_is(s, k, n);
            assert(s.take(n) =~= a);
            assert(s.skip(n + 1) =~= b);
        },
    }
}

/// Each piece of a text is free of the characters that it was split at.
pub proof fn lemma_pieces_are_free(s: Seq<char>, k: Class)
    ensures
        split(s, k).len() > 0,
        forall|i: int, j: int|
            0 <= i < split(s, k).len() && 0 <= j < split(s, k)[i].len() ==> !k.has(
                #[trigger] split(s, k)[i][j],
            ),
    decreases s.len(),
{
    lemma_position(s, k);
    match position(s, k) {
        Some(n) => {
            let rest = s.skip(n + 1);
            lemma_pieces_are_free(rest, k);
            let all = split(s, k);
            assert(all =~= seq![s.take(n)] + split(rest, k));
            assert forall|i: int, j: int|
                0 <= i < all.len() && 0 <= j < all[i].len() implies !k.has(#[trigger] all[i][j]) by {
                if i == 0 {
                    assert(all[0][j] == s[j]);
                } else {
                    assert(all[i] == split(rest, k)[i - 1]);
                    assert(!k.has(split(rest, k)[i - 1][j]));
                }
            }
        },
        None => {},
    }
}

/// Parts that were joined with a character are the pieces between it, where none of them has it.
pub proof fn lemma_split_join(parts: Seq<Seq<char>>, c: char)
    requires
        parts.len() > 0,
        forall|i: int, j: int|
            0 <= i < parts.len() && 0 <= j < parts[i].len() ==> #[trigger] parts[i][j] != c,
    ensures
        split(join(parts, seq![c]), Class::Only(c)) == parts,
    decreases parts.len(),
{
    let k = Class::Only(c);
    let last = parts.last();
    assert forall|j: int| 0 <= j < last.len() implies !k.has(#[trigger] last[j]) by {
        assert(parts[parts.len() - 1][j] != c);
    }
    lemma_split_whole(last, k);
    if parts.len() == 1 {
        assert(parts =~= seq![last]);
    } else {
        let front = parts.drop_last();
        assert forall|i: int, j: int|
            0 <= i < front.len() && 0 <= j < front[i].len() implies #[trigger] front[i][j] != c by {
            assert(parts[i][j] != c);
        }
        lemma_split_join(front, c);
        let head = join(front, seq![c]);
        assert(head + seq![c] + last =~= head.push(c) + last);
        lemma_split_concat(head, c, last, k);
        assert(front + seq![last] =~= parts);
    }
}

/// A text without a character does not hold that character twice in a row.
proof fn lemma_no_pair(s: Seq<char>, c: char)
    requires
        forall|j: int| 0 <= j < s.len() ==> #[trigger] s[j] != c,
    ensures
        find(s, seq![c, c]) is None,
{
    let p = seq![c, c];
    lemma_find_from(s, p, 0);
    if let Some(i) = find(s, p) {
        assert(s.subrange(i, i + 2)[0] == p[0]);
        assert(s[i] != c);
    }
}

/// Where a string stands and its first character does not occur before, it stands first.
proof fn lemma_found_at(s: Seq<char>, p: Seq<char>, n: int)
    requires
        p.len() > 0,
        occurs_at(s, p, n),
        forall|j: int| 0 <= j < n ==> #[trigger] s[j] != p[0],
    ensures
        find(s, p) == Some(n),
{
    lemma_find_from(s, p, 0);
    let found = find_from(s, p, 0);
    if found is Some && found->0 < n {
        let i = found->0;
        assert(s.subrange(i, i + p.len())[0] == s[i]);
    }
}

/// Parts that were joined with a string of two equal characters are the pieces between it, where
/// none of them has that character.
pub proof fn lemma_split_text_join(parts: Seq<Seq<char>>, c: char)
    requires
        parts.len() > 0,
        forall|i: int, j: int|
            0 <= i < parts.len() && 0 <= j < parts[i].len() ==> #[trigger] parts[i][j] != c,
    ensures
        split_text(join(parts, seq![c, c]), seq![c, c]) == parts,
    decreases parts.len(),
{
    let p = seq![c, c];
    let first = parts[0];
    let s = join(parts, p);
    assert forall|j: int| 0 <= j < first.len() implies #[trigger] first[j] != c by {
        assert(parts[0][j] != c);
    }
    if parts.len() == 1 {
        lemma_no_pair(s, c);
        assert(parts =~= seq![first]);
    } else {
        let rest = parts.drop_first();
        assert forall|i: int, j: int|
            0 <= i < rest.len() && 0 <= j < rest[i].len() implies #[trigger] rest[i][j] != c by {
            assert(parts[i + 1][j] != c);
        }
        lemma_split_text_join(rest, c);
        lemma_join_front(parts, p);
        let tail = join(rest, p);
        let n = first.len() as int;
        assert(s =~= first + p + tail);
        assert(s.subrange(n, n + 2) =~= p);
        assert forall|j: int| 0 <= j < n implies #[trigger] s[j] != p[0] by {
            assert(s[j] == first[j]);
        }
        lemma_found_at(s, p, n);
        assert(s.take(n) =~= first);
        assert(s.skip(n + 2) =~= tail);
        assert(seq![first] + rest =~= parts);
    }
}

/// Joined parts begin with the first of them.
pub proof fn lemma_join_front(parts: Seq<Seq<char>>, sep: Seq<char>)
    requires
        parts.len() > 1,
    ensures
        join(parts, sep) == parts[0] + sep + join(parts.drop_first(), sep),
    decreases parts.len(),
{
    if parts.len() == 2 {
        assert(parts.drop_last() =~= seq![parts[0]]);
        assert(parts.drop_first() =~= seq![parts[1]]);
        reveal_with_fuel(join, 2);
    } else {
        let front = parts.drop_last();
        lemma_join_front(front, sep);
        assert(front.drop_first() =~= parts.drop_first().drop_last());
        let middle = join(front.drop_first(), sep);
        assert(parts[0] + sep + middle + sep + parts.last() =~= parts[0] + sep + (middle + sep
            + parts.last()));
    }
}

/// Joining the pieces between a character with it gives the text back.
pub proof fn lemma_join_split(s: Seq<char>, c: char)
    ensures
        join(split(s, Class::Only(c)), seq![c]) == s,
    decreases s.len(),
{
    let k = Class::Only(c);
    lemma_position(s, k);
    match position(s, k) {
        Some(i) => {
            let rest = s.skip(i + 1);
            lemma_join_split(rest, c);
            let all = split(s, k);
            assert(all =~= seq![s.take(i)] + split(rest, k));
            assert(all.drop_first() =~= split(rest, k));
            lemma_pieces_are_free(rest, k);
            lemma_join_front(all, seq![c]);
            assert(s.take(i) + seq![c] + rest =~= s);
        },
        None => {},
    }
}

/// Joined parts are some of them joined and the others joined, with the separator between.
pub proof fn lemma_join_at(parts: Seq<Seq<char>>, sep: Seq<char>, n: int)
    requires
        0 < n < parts.len(),
    ensures
        join(parts, sep) == join(parts.take(n), sep) + sep + join(parts.skip(n), sep),
    decreases n,
{
    lemma_join_front(parts, sep);
    let rest = parts.drop_first();
    if n == 1 {
        assert(parts.take(1) =~= seq![parts[0]]);
        assert(parts.skip(1) =~= rest);
    } else {
        lemma_join_at(rest, sep, n - 1);
        lemma_join_front(parts.take(n), sep);
        assert(parts.take(n).drop_first() =~= rest.take(n - 1));
        assert(parts.skip(n) =~= rest.skip(n - 1));
        let a = join(rest.take(n - 1), sep);
        let b = join(rest.skip(n - 1), sep);
        assert(parts[0] + sep + (a + sep + b) =~= parts[0] + sep + a + sep + b);
    }
}

} // verus!
