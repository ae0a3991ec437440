//! Text as sequences of characters: the pieces every other module here is
//! written with.
//!
//! A string is worked on as the characters it holds, in a `Vec<char>`, and
//! every operation is stated over `Seq<char>`: trimming, finding, splitting,
//! replacing, counting. Positions are character positions throughout.

use vstd::prelude::*;

verus! {

broadcast use vstd::string::group_string_axioms;

/// `String::push` appends one character.
pub assume_specification[ String::push ](s: &mut String, ch: char)
    ensures
        final(s)@ == old(s)@.push(ch),
;

// ------------------------------------------------------------------ kinds

/// Whitespace as `char::is_whitespace` documents it: the Unicode
/// `White_Space` property.
pub open spec fn is_ws(c: char) -> bool {
    c == '\t' || c == '\n' || c == '\u{0B}' || c == '\u{0C}' || c == '\r' || c == ' '
        || c == '\u{85}' || c == '\u{A0}' || c == '\u{1680}' || ('\u{2000}' <= c
        && c <= '\u{200A}') || c == '\u{2028}' || c == '\u{2029}' || c == '\u{202F}'
        || c == '\u{205F}' || c == '\u{3000}'
}

/// Whether a character is whitespace.
pub fn ws(c: char) -> (r: bool)
    ensures
        r == is_ws(c),
{
    c == '\t' || c == '\n' || c == '\u{0B}' || c == '\u{0C}' || c == '\r' || c == ' ' || c
        == '\u{85}' || c == '\u{A0}' || c == '\u{1680}' || ('\u{2000}' <= c && c <= '\u{200A}')
        || c == '\u{2028}' || c == '\u{2029}' || c == '\u{202F}' || c == '\u{205F}' || c
        == '\u{3000}'
}

/// An ASCII digit.
pub open spec fn is_digit(c: char) -> bool {
    '0' <= c && c <= '9'
}

/// An ASCII letter or digit.
pub open spec fn is_ascii_alnum(c: char) -> bool {
    ('0' <= c && c <= '9') || ('a' <= c && c <= 'z') || ('A' <= c && c <= 'Z')
}

pub fn ascii_alnum(c: char) -> (r: bool)
    ensures
        r == is_ascii_alnum(c),
{
    ('0' <= c && c <= '9') || ('a' <= c && c <= 'z') || ('A' <= c && c <= 'Z')
}

/// A character of ASCII, below 128.
pub open spec fn is_ascii_char(c: char) -> bool {
    (c as u32) < 128
}

/// A text all of ASCII.
pub open spec fn all_ascii(s: Seq<char>) -> bool {
    forall|i: int| 0 <= i < s.len() ==> is_ascii_char(#[trigger] s[i])
}

/// An ASCII capital made small; everything else left as it is.
pub open spec fn ascii_lower(c: char) -> char {
    if 'A' <= c && c <= 'Z' {
        ((c as u32) + 32) as char
    } else {
        c
    }
}

/// An ASCII small letter made a capital; everything else left as it is.
pub open spec fn ascii_upper(c: char) -> char {
    if 'a' <= c && c <= 'z' {
        ((c as u32) - 32) as char
    } else {
        c
    }
}

pub fn lower_ascii_char(c: char) -> (r: char)
    ensures
        r == ascii_lower(c),
{
    if 'A' <= c && c <= 'Z' {
        let n: u32 = (c as u32) + 32;
        proof {
            assert(n <= 0x7f);
        }
        char_of(n)
    } else {
        c
    }
}

pub fn upper_ascii_char(c: char) -> (r: char)
    ensures
        r == ascii_upper(c),
{
    if 'a' <= c && c <= 'z' {
        let n: u32 = (c as u32) - 32;
        char_of(n)
    } else {
        c
    }
}

/// The character with a code below 128.
fn char_of(n: u32) -> (c: char)
    requires
        n < 128,
    ensures
        c == n as char,
{
    let b: u8 = n as u8;
    b as char
}

// ----------------------------------------------------------- conversions

/// The characters of a string.
pub fn chars_of(s: &str) -> (v: Vec<char>)
    ensures
        v@ == s@,
{
    let mut v: Vec<char> = Vec::new();
    for c in it: s.chars()
        invariant
            v@ == it.seq().take(it.index() as int),
            it.seq() == s@,
    {
        v.push(c);
        assert(v@ =~= it.seq().take(it.index() + 1));
    }
    assert(v@ =~= s@);
    v
}

/// A string of these characters.
pub fn string_of(v: &[char]) -> (s: String)
    ensures
        s@ == v@,
{
    let mut s = String::new();
    let mut i: usize = 0;
    while i < v.len()
        invariant
            i <= v.len(),
            s@ == v@.subrange(0, i as int),
        decreases v.len() - i,
    {
        s.push(v[i]);
        i = i + 1;
        assert(s@ =~= v@.subrange(0, i as int));
    }
    assert(v@.subrange(0, v@.len() as int) =~= v@);
    s
}

/// Add the characters of `tail` to the end of `v`.
pub fn push_all(v: &mut Vec<char>, tail: &[char])
    ensures
        final(v)@ == old(v)@ + tail@,
{
    let mut i: usize = 0;
    while i < tail.len()
        invariant
            i <= tail.len(),
            v@ == old(v)@ + tail@.subrange(0, i as int),
        decreases tail.len() - i,
    {
        v.push(tail[i]);
        i = i + 1;
        assert(v@ =~= old(v)@ + tail@.subrange(0, i as int));
    }
    assert(tail@.subrange(0, tail@.len() as int) =~= tail@);
}

/// Add the characters of a string to the end of `v`.
pub fn push_str(v: &mut Vec<char>, tail: &str)
    ensures
        final(v)@ == old(v)@ + tail@,
{
    let t = chars_of(tail);
    push_all(v, &t);
}

/// The characters from `from` up to `to`.
pub fn slice(v: &[char], from: usize, to: usize) -> (r: Vec<char>)
    requires
        from <= to <= v@.len(),
    ensures
        r@ == v@.subrange(from as int, to as int),
{
    let mut r: Vec<char> = Vec::new();
    let mut i = from;
    while i < to
        invariant
            from <= i <= to,
            to <= v@.len(),
            r@ == v@.subrange(from as int, i as int),
        decreases to - i,
    {
        r.push(v[i]);
        i = i + 1;
        assert(r@ =~= v@.subrange(from as int, i as int));
    }
    r
}

/// Whether two runs of characters are the same.
pub fn same(a: &[char], b: &[char]) -> (r: bool)
    ensures
        r == (a@ == b@),
{
    if a.len() != b.len() {
        return false;
    }
    let mut i: usize = 0;
    while i < a.len()
        invariant
            i <= a.len(),
            a@.len() == b@.len(),
            forall|j: int| 0 <= j < i ==> a@[j] == b@[j],
        decreases a.len() - i,
    {
        if a[i] != b[i] {
            return false;
        }
        i = i + 1;
    }
    assert(a@ =~= b@);
    true
}

// ---------------------------------------------------------------- trimming

/// Leading whitespace taken off.
pub open spec fn trim_start(s: Seq<char>) -> Seq<char>
    decreases s.len(),
{
    if s.len() > 0 && is_ws(s[0]) {
        trim_start(s.drop_first())
    } else {
        s
    }
}

/// Trailing whitespace taken off.
pub open spec fn trim_end(s: Seq<char>) -> Seq<char>
    decreases s.len(),
{
    if s.len() > 0 && is_ws(s.last()) {
        trim_end(s.drop_last())
    } else {
        s
    }
}

/// Whitespace taken off both ends.
pub open spec fn trim(s: Seq<char>) -> Seq<char> {
    trim_end(trim_start(s))
}

/// How many characters of whitespace a run starts with.
pub open spec fn lead(s: Seq<char>) -> nat {
    (s.len() - trim_start(s).len()) as nat
}

pub proof fn lemma_trim_start_suffix(s: Seq<char>)
    ensures
        trim_start(s).len() <= s.len(),
        trim_start(s) == s.subrange(s.len() - trim_start(s).len(), s.len() as int),
    decreases s.len(),
{
    if s.len() > 0 && is_ws(s[0]) {
        lemma_trim_start_suffix(s.drop_first());
        assert(s.drop_first().subrange(
            s.drop_first().len() - trim_start(s.drop_first()).len(),
            s.drop_first().len() as int,
        ) =~= s.subrange(s.len() - trim_start(s).len(), s.len() as int));
    } else {
        assert(s.subrange(0, s.len() as int) =~= s);
    }
}

pub proof fn lemma_trim_end_prefix(s: Seq<char>)
    ensures
        trim_end(s).len() <= s.len(),
        trim_end(s) == s.subrange(0, trim_end(s).len() as int),
    decreases s.len(),
{
    if s.len() > 0 && is_ws(s.last()) {
        lemma_trim_end_prefix(s.drop_last());
        assert(s.drop_last().subrange(0, trim_end(s.drop_last()).len() as int) =~= s.subrange(
            0,
            trim_end(s).len() as int,
        ));
    } else {
        assert(s.subrange(0, s.len() as int) =~= s);
    }
}

/// Where the first character that is not whitespace is, at or after `i`.
proof fn lemma_trim_start_from(s: Seq<char>, i: int)
    requires
        0 <= i <= s.len(),
        forall|j: int| 0 <= j < i ==> is_ws(s[j]),
    ensures
        trim_start(s) == trim_start(s.subrange(i, s.len() as int)),
    decreases i,
{
    if i > 0 {
        assert(is_ws(s[0]));
        assert(s.drop_first().subrange(i - 1, s.drop_first().len() as int) =~= s.subrange(
            i,
            s.len() as int,
        ));
        lemma_trim_start_from(s.drop_first(), i - 1);
    } else {
        assert(s.subrange(0, s.len() as int) =~= s);
    }
}

proof fn lemma_trim_end_to(s: Seq<char>, i: int)
    requires
        0 <= i <= s.len(),
        forall|j: int| i <= j < s.len() ==> is_ws(s[j]),
    ensures
        trim_end(s) == trim_end(s.subrange(0, i)),
    decreases s.len() - i,
{
    if i < s.len() {
        assert(is_ws(s.last()));
        assert(s.drop_last().subrange(0, i) =~= s.subrange(0, i));
        lemma_trim_end_to(s.drop_last(), i);
    } else {
        assert(s.subrange(0, s.len() as int) =~= s);
    }
}

/// How many whitespace characters a run starts with.
pub fn lead_len(v: &[char]) -> (n: usize)
    ensures
        n <= v@.len(),
        trim_start(v@) == v@.subrange(n as int, v@.len() as int),
        n == lead(v@),
{
    let mut i: usize = 0;
    while i < v.len() && ws(v[i])
        invariant
            i <= v.len(),
            forall|j: int| 0 <= j < i ==> is_ws(v@[j]),
        decreases v.len() - i,
    {
        i = i + 1;
    }
    proof {
        lemma_trim_start_from(v@, i as int);
        let t = v@.subrange(i as int, v@.len() as int);
        assert(!(t.len() > 0 && is_ws(t[0])));
    }
    i
}

/// How long a run is without its trailing whitespace.
pub fn trimmed_end_len(v: &[char]) -> (n: usize)
    ensures
        n <= v@.len(),
        trim_end(v@) == v@.subrange(0, n as int),
{
    let mut i: usize = v.len();
    while i > 0 && ws(v[i - 1])
        invariant
            i <= v.len(),
            forall|j: int| i <= j < v@.len() ==> is_ws(v@[j]),
        decreases i,
    {
        i = i - 1;
    }
    proof {
        lemma_trim_end_to(v@, i as int);
        let t = v@.subrange(0, i as int);
        assert(!(t.len() > 0 && is_ws(t.last())));
    }
    i
}

/// Leading whitespace taken off.
pub fn trimmed_start(v: &[char]) -> (r: Vec<char>)
    ensures
        r@ == trim_start(v@),
{
    let n = lead_len(v);
    slice(v, n, v.len())
}

/// Trailing whitespace taken off.
pub fn trimmed_end(v: &[char]) -> (r: Vec<char>)
    ensures
        r@ == trim_end(v@),
{
    let n = trimmed_end_len(v);
    slice(v, 0, n)
}

/// Whitespace taken off both ends.
pub fn trimmed(v: &[char]) -> (r: Vec<char>)
    ensures
        r@ == trim(v@),
{
    let a = trimmed_start(v);
    trimmed_end(&a)
}

/// Whether there is nothing but whitespace.
pub open spec fn blank(s: Seq<char>) -> bool {
    trim(s).len() == 0
}

proof fn lemma_blank(s: Seq<char>)
    ensures
        blank(s) <==> (forall|j: int| 0 <= j < s.len() ==> is_ws(s[j])),
    decreases s.len(),
{
    if s.len() > 0 {
        lemma_blank(s.drop_first());
        if is_ws(s[0]) {
            assert(trim(s) == trim(s.drop_first()));
            assert forall|j: int| 0 <= j < s.len() && (forall|k: int| 0 <= k < s.drop_first().len() ==> is_ws(s.drop_first()[k])) implies is_ws(s[j]) by {
                if j > 0 {
                    assert(s[j] == s.drop_first()[j - 1]);
                }
            }
            assert forall|k: int| 0 <= k < s.drop_first().len() && (forall|j: int| 0 <= j < s.len() ==> is_ws(s[j])) implies is_ws(s.drop_first()[k]) by {
                assert(s.drop_first()[k] == s[k + 1]);
            }
        } else {
            assert(trim_start(s) == s);
            lemma_trim_end_nonblank(s);
        }
    } else {
        assert(trim_end(trim_start(s)).len() == 0);
    }
}

proof fn lemma_trim_end_nonblank(s: Seq<char>)
    requires
        s.len() > 0,
        !is_ws(s[0]),
    ensures
        trim_end(s).len() > 0,
    decreases s.len(),
{
    if is_ws(s.last()) {
        assert(s.len() > 1);
        assert(s.drop_last()[0] == s[0]);
        lemma_trim_end_nonblank(s.drop_last());
    }
}

/// Whether a run holds nothing but whitespace.
pub fn is_blank(v: &[char]) -> (r: bool)
    ensures
        r == blank(v@),
{
    proof {
        lemma_blank(v@);
    }
    let mut i: usize = 0;
    while i < v.len()
        invariant
            i <= v.len(),
            forall|j: int| 0 <= j < i ==> is_ws(v@[j]),
        decreases v.len() - i,
    {
        if !ws(v[i]) {
            proof {
                lemma_blank(v@);
            }
            assert(!is_ws(v@[i as int]));
            return false;
        }
        i = i + 1;
    }
    true
}

// ----------------------------------------------------------------- finding

/// `p` stands in `s` at `i`.
pub open spec fn occurs_at(s: Seq<char>, p: Seq<char>, i: int) -> bool {
    0 <= i && i + p.len() <= s.len() && s.subrange(i, i + p.len()) == p
}

/// Where `p` first stands in `s`, at `i` or after.
pub open spec fn find_from(s: Seq<char>, p: Seq<char>, i: int) -> Option<int>
    decreases s.len() + 1 - i,
{
    if i < 0 || i > s.len() || i + p.len() > s.len() {
        None
    } else if occurs_at(s, p, i) {
        Some(i)
    } else {
        find_from(s, p, i + 1)
    }
}

/// Where `p` first stands in `s`.
pub open spec fn find(s: Seq<char>, p: Seq<char>) -> Option<int> {
    find_from(s, p, 0)
}

/// Whether `p` stands anywhere in `s`.
pub open spec fn contains(s: Seq<char>, p: Seq<char>) -> bool {
    find(s, p) is Some
}

/// Whether `s` begins with `p`.
pub open spec fn starts_with(s: Seq<char>, p: Seq<char>) -> bool {
    occurs_at(s, p, 0)
}

/// Whether `s` ends with `p`.
pub open spec fn ends_with(s: Seq<char>, p: Seq<char>) -> bool {
    occurs_at(s, p, s.len() - p.len())
}

/// What `find_from` says, in terms of where `p` stands.
pub proof fn lemma_find_from(s: Seq<char>, p: Seq<char>, i: int)
    requires
        0 <= i,
    ensures
        find_from(s, p, i) matches Some(k) ==> i <= k && occurs_at(s, p, k) && forall|j: int|
            i <= j < k ==> !occurs_at(s, p, j),
        find_from(s, p, i) is None ==> forall|j: int| i <= j ==> !occurs_at(s, p, j),
    decreases s.len() + 1 - i,
{
    if p.len() == 0 && i <= s.len() {
        assert(s.subrange(i, i) =~= p);
    }
    if i + p.len() <= s.len() && !occurs_at(s, p, i) {
        lemma_find_from(s, p, i + 1);
        assert forall|j: int| i <= j && find_from(s, p, i) is None implies !occurs_at(s, p, j) by {
            if j > i {
            }
        }
    }
}

/// Whether `p` stands in `h` at `i`.
pub fn at(h: &[char], p: &[char], i: usize) -> (r: bool)
    ensures
        r == occurs_at(h@, p@, i as int),
{
    if i > h.len() || p.len() > h.len() - i {
        return false;
    }
    let mut j: usize = 0;
    let n = h.len();
    while j < p.len()
        invariant
            n == h@.len(),
            i + p@.len() <= h@.len(),
            j <= p@.len(),
            forall|k: int| 0 <= k < j ==> h@[i + k] == p@[k],
        decreases p.len() - j,
    {
        if h[i + j] != p[j] {
            assert(h@.subrange(i as int, i + p@.len())[j as int] != p@[j as int]);
            return false;
        }
        j = j + 1;
    }
    assert(h@.subrange(i as int, i + p@.len()) =~= p@);
    true
}

/// Where `p` first stands in `h`, at `from` or after.
pub fn find_at(h: &[char], p: &[char], from: usize) -> (r: Option<usize>)
    ensures
        r matches Some(k) ==> find_from(h@, p@, from as int) == Some(k as int),
        r is None ==> find_from(h@, p@, from as int) is None,
{
    let mut i = from;
    if p.len() > h.len() || from > h.len() - p.len() {
        proof {
            lemma_find_from(h@, p@, from as int);
        }
        return None;
    }
    let last = h.len() - p.len();
    loop
        invariant
            from <= i <= last,
            last + p@.len() == h@.len(),
            find_from(h@, p@, i as int) == find_from(h@, p@, from as int),
        decreases last - i,
    {
        if at(h, p, i) {
            return Some(i);
        }
        if i == last {
            assert(find_from(h@, p@, i + 1) is None);
            return None;
        }
        i = i + 1;
    }
}

/// Where `p` first stands in `h`.
pub fn find_in(h: &[char], p: &[char]) -> (r: Option<usize>)
    ensures
        r matches Some(k) ==> find(h@, p@) == Some(k as int),
        r is None ==> find(h@, p@) is None,
{
    find_at(h, p, 0)
}

/// Where the string `p` first stands in `h`, at `from` or after.
pub fn find_str(h: &[char], p: &str, from: usize) -> (r: Option<usize>)
    ensures
        r matches Some(k) ==> find_from(h@, p@, from as int) == Some(k as int),
        r is None ==> find_from(h@, p@, from as int) is None,
{
    let pv = chars_of(p);
    find_at(h, &pv, from)
}

/// Whether `h` begins with the string `p`.
pub fn starts(h: &[char], p: &str) -> (r: bool)
    ensures
        r == starts_with(h@, p@),
{
    let pv = chars_of(p);
    at(h, &pv, 0)
}

/// Whether `h` ends with the string `p`.
pub fn ends(h: &[char], p: &str) -> (r: bool)
    ensures
        r == ends_with(h@, p@),
{
    let pv = chars_of(p);
    if pv.len() > h.len() {
        return false;
    }
    at(h, &pv, h.len() - pv.len())
}

/// Whether the string `p` stands anywhere in `h`.
pub fn has(h: &[char], p: &str) -> (r: bool)
    ensures
        r == contains(h@, p@),
{
    find_str(h, p, 0).is_some()
}

/// Whether the character `c` stands anywhere in `h`.
pub open spec fn has_char(h: Seq<char>, c: char) -> bool {
    exists|i: int| 0 <= i < h.len() && h[i] == c
}

pub fn has_ch(h: &[char], c: char) -> (r: bool)
    ensures
        r == has_char(h@, c),
{
    let mut i: usize = 0;
    while i < h.len()
        invariant
            i <= h.len(),
            forall|j: int| 0 <= j < i ==> h@[j] != c,
        decreases h.len() - i,
    {
        if h[i] == c {
            return true;
        }
        i = i + 1;
    }
    false
}

/// Where `p` last stands in `s`, starting before `i`.
pub open spec fn rfind_before(s: Seq<char>, p: Seq<char>, i: int) -> Option<int>
    decreases i,
{
    if i <= 0 {
        None
    } else if occurs_at(s, p, i - 1) {
        Some(i - 1)
    } else {
        rfind_before(s, p, i - 1)
    }
}

/// Where `p` last stands in `s`.
pub open spec fn rfind(s: Seq<char>, p: Seq<char>) -> Option<int> {
    rfind_before(s, p, s.len() as int + 1)
}

pub proof fn lemma_rfind_before(s: Seq<char>, p: Seq<char>, i: int)
    ensures
        rfind_before(s, p, i) matches Some(k) ==> k < i && occurs_at(s, p, k),
    decreases i,
{
    if i > 0 && !occurs_at(s, p, i - 1) {
        lemma_rfind_before(s, p, i - 1);
    }
}

/// Where `rfind` finds `p`, `p` stands.
pub proof fn lemma_rfind(s: Seq<char>, p: Seq<char>)
    ensures
        rfind(s, p) matches Some(k) ==> occurs_at(s, p, k),
{
    lemma_rfind_before(s, p, s.len() as int + 1);
}

/// Where `p` last stands in `h`.
pub fn rfind_in(h: &[char], p: &[char]) -> (r: Option<usize>)
    ensures
        r matches Some(k) ==> rfind(h@, p@) == Some(k as int),
        r is None ==> rfind(h@, p@) is None,
{
    let mut i: usize = h.len();
    loop
        invariant
            i <= h@.len(),
            rfind_before(h@, p@, i + 1) == rfind(h@, p@),
        decreases i,
    {
        if at(h, p, i) {
            return Some(i);
        }
        if i == 0 {
            assert(rfind_before(h@, p@, 0) is None);
            return None;
        }
        i = i - 1;
    }
}

// --------------------------------------------------------------- splitting

/// `s` cut at every place `p` stands, in order; `p` is not empty.
pub open spec fn split_on(s: Seq<char>, p: Seq<char>) -> Seq<Seq<char>>
    decreases s.len(),
{
    if p.len() == 0 {
        seq![s]
    } else {
        match find(s, p) {
            None => seq![s],
            Some(k) => if k + p.len() <= s.len() && k >= 0 {
                seq![s.take(k)] + split_on(s.skip(k + p.len()), p)
            } else {
                seq![s]
            },
        }
    }
}

/// The lines of a text, the way `str::lines` reads them: cut at each `\n`,
/// a `\r` before it dropped, and no line after a final one.
pub open spec fn lines(s: Seq<char>) -> Seq<Seq<char>>
    decreases s.len(),
{
    if s.len() == 0 {
        seq![]
    } else {
        match find(s, seq!['\n']) {
            None => seq![s],
            Some(k) => if 0 <= k < s.len() {
                seq![strip_cr(s.take(k))] + lines(s.skip(k + 1))
            } else {
                seq![s]
            },
        }
    }
}

/// A line with the `\r` of a `\r\n` taken off.
pub open spec fn strip_cr(s: Seq<char>) -> Seq<char> {
    if s.len() > 0 && s.last() == '\r' {
        s.drop_last()
    } else {
        s
    }
}

/// The text cut at every `p`.
pub fn split_at_each(h: &[char], p: &[char]) -> (r: Vec<Vec<char>>)
    requires
        p@.len() > 0,
    ensures
        r@.len() == split_on(h@, p@).len(),
        forall|i: int| 0 <= i < r@.len() ==> #[trigger] r@[i]@ == split_on(h@, p@)[i],
{
    let mut out: Vec<Vec<char>> = Vec::new();
    let mut at_: usize = 0;
    assert(h@.skip(0) =~= h@);
    loop
        invariant
            at_ <= h@.len(),
            p@.len() > 0,
            forall|i: int| 0 <= i < out@.len() ==> #[trigger] out@[i]@ == split_on(h@, p@)[i],
            out@.len() + split_on(h@.skip(at_ as int), p@).len() == split_on(h@, p@).len(),
            forall|i: int|
                0 <= i < split_on(h@.skip(at_ as int), p@).len() ==> split_on(h@, p@)[out@.len()
                    + i] == #[trigger] split_on(h@.skip(at_ as int), p@)[i],
        decreases h@.len() - at_,
    {
        let rest = slice(h, at_, h.len());
        assert(rest@ == h@.skip(at_ as int));
        match find_in(&rest, p) {
            None => {
                let ghost old_out = out@;
                assert(split_on(h@.skip(at_ as int), p@) == seq![h@.skip(at_ as int)]);
                assert(split_on(h@, p@)[old_out.len() as int] == split_on(h@.skip(at_ as int), p@)[0]);
                out.push(rest);
                assert forall|i: int| 0 <= i < out@.len() implies #[trigger] out@[i]@ == split_on(h@, p@)[i] by {
                    if i < old_out.len() {
                        assert(out@[i] == old_out[i]);
                    }
                }
                return out;
            },
            Some(k) => {
                proof {
                    lemma_find_from(rest@, p@, 0);
                }
                let piece = slice(&rest, 0, k);
                let ghost s2 = h@.skip(at_ as int);
                let ghost old_out = out@;
                assert(split_on(s2, p@) == seq![s2.take(k as int)] + split_on(
                    s2.skip(k + p@.len()),
                    p@,
                ));
                assert(s2.skip(k + p@.len()) =~= h@.skip(at_ + k + p@.len()));
                out.push(piece);
                let ghost next: int = at_ + k + p@.len();
                proof {
                    assert forall|i: int| 0 <= i < split_on(h@.skip(next), p@).len() implies split_on(h@, p@)[out@.len() + i] == #[trigger] split_on(h@.skip(next), p@)[i] by {
                        assert(split_on(s2, p@)[i + 1] == split_on(h@.skip(next), p@)[i]);
                        assert(split_on(h@, p@)[old_out.len() + (i + 1)] == split_on(s2, p@)[i + 1]);
                    }
                    assert(split_on(s2, p@)[0] == piece@);
                    assert(split_on(h@, p@)[old_out.len() as int] == split_on(s2, p@)[0]);
                    assert forall|i: int| 0 <= i < out@.len() implies #[trigger] out@[i]@ == split_on(h@, p@)[i] by {
                        if i < old_out.len() {
                            assert(out@[i] == old_out[i]);
                        }
                    }
                }
                at_ = at_ + k + p.len();
            },
        }
    }
}

/// The lines of a text.
pub fn lines_of(h: &[char]) -> (r: Vec<Vec<char>>)
    ensures
        r@.len() == lines(h@).len(),
        forall|i: int| 0 <= i < r@.len() ==> #[trigger] r@[i]@ == lines(h@)[i],
{
    let mut out: Vec<Vec<char>> = Vec::new();
    let mut at_: usize = 0;
    let nl = vec!['\n'];
    assert(h@.skip(0) =~= h@);
    assert(nl@ == seq!['\n']);
    while at_ < h.len()
        invariant
            at_ <= h@.len(),
            nl@ == seq!['\n'],
            forall|i: int| 0 <= i < out@.len() ==> #[trigger] out@[i]@ == lines(h@)[i],
            out@.len() + lines(h@.skip(at_ as int)).len() == lines(h@).len(),
            forall|i: int|
                0 <= i < lines(h@.skip(at_ as int)).len() ==> lines(h@)[out@.len() + i]
                    == #[trigger] lines(h@.skip(at_ as int))[i],
        decreases h@.len() - at_,
    {
        let rest = slice(h, at_, h.len());
        assert(rest@ == h@.skip(at_ as int));
        match find_in(&rest, &nl) {
            None => {
                let ghost old_out = out@;
                assert(lines(h@.skip(at_ as int)) == seq![h@.skip(at_ as int)]);
                assert(lines(h@)[old_out.len() as int] == lines(h@.skip(at_ as int))[0]);
                out.push(rest);
                assert forall|i: int| 0 <= i < out@.len() implies #[trigger] out@[i]@ == lines(h@)[i] by {
                    if i < old_out.len() {
                        assert(out@[i] == old_out[i]);
                    }
                }
                assert(h@.skip(h@.len() as int) =~= Seq::<char>::empty());
                return out;
            },
            Some(k) => {
                proof {
                    lemma_find_from(rest@, nl@, 0);
                }
                let ghost s2 = h@.skip(at_ as int);
                let ghost old_out = out@;
                let mut piece = slice(&rest, 0, k);
                if piece.len() > 0 && piece[piece.len() - 1] == '\r' {
                    piece.pop();
                }
                assert(piece@ == strip_cr(s2.take(k as int)));
                assert(lines(s2) == seq![strip_cr(s2.take(k as int))] + lines(s2.skip(k + 1)));
                assert(s2.skip(k + 1) =~= h@.skip(at_ + k + 1));
                out.push(piece);
                let ghost next: int = at_ + k + 1;
                proof {
                    assert forall|i: int| 0 <= i < lines(h@.skip(next)).len() implies lines(h@)[out@.len() + i] == #[trigger] lines(h@.skip(next))[i] by {
                        assert(lines(s2)[i + 1] == lines(h@.skip(next))[i]);
                        assert(lines(h@)[old_out.len() + (i + 1)] == lines(s2)[i + 1]);
                    }
                    assert(lines(s2)[0] == piece@);
                    assert(lines(h@)[old_out.len() as int] == lines(s2)[0]);
                    assert forall|i: int| 0 <= i < out@.len() implies #[trigger] out@[i]@ == lines(h@)[i] by {
                        if i < old_out.len() {
                            assert(out@[i] == old_out[i]);
                        }
                    }
                }
                at_ = at_ + k + 1;
            },
        }
    }
    assert(h@.skip(at_ as int) =~= Seq::<char>::empty());
    out
}

// ----------------------------------------------------------------- numbers

/// The digit character for a number below ten.
pub open spec fn digit(n: int) -> char {
    ((n + 48) as u32) as char
}

/// A number written in decimal.
pub open spec fn decimal(n: nat) -> Seq<char>
    decreases n,
{
    if n < 10 {
        seq![digit(n as int)]
    } else {
        decimal(n / 10).push(digit((n % 10) as int))
    }
}

/// A signed number written in decimal.
pub open spec fn signed_decimal(n: int) -> Seq<char> {
    if n < 0 {
        seq!['-'] + decimal((-n) as nat)
    } else {
        decimal(n as nat)
    }
}

/// A count written out in decimal.
pub fn write_usize(v: &mut Vec<char>, n: usize)
    ensures
        final(v)@ == old(v)@ + decimal(n as nat),
    decreases n,
{
    if n >= 10 {
        write_usize(v, n / 10);
    }
    let d: u8 = (n % 10) as u8;
    let c = (d + 48) as char;
    proof {
        assert(c == digit((n % 10) as int));
    }
    v.push(c);
}

/// A signed number written out in decimal.
pub fn write_i64(v: &mut Vec<char>, n: i64)
    ensures
        final(v)@ == old(v)@ + signed_decimal(n as int),
{
    if n < 0 {
        v.push('-');
        let m: u64 = if n == i64::MIN { 9_223_372_036_854_775_808u64 } else { (-n) as u64 };
        write_u64(v, m);
        assert(v@ =~= old(v)@ + signed_decimal(n as int));
    } else {
        write_u64(v, n as u64);
    }
}

/// A number written out in decimal.
pub fn write_u64(v: &mut Vec<char>, n: u64)
    ensures
        final(v)@ == old(v)@ + decimal(n as nat),
    decreases n,
{
    if n >= 10 {
        write_u64(v, n / 10);
    }
    let d: u8 = (n % 10) as u8;
    let c = (d + 48) as char;
    proof {
        assert(c == digit((n % 10) as int));
    }
    v.push(c);
}

/// The value of a run of decimal digits.
pub open spec fn value(s: Seq<char>) -> nat
    decreases s.len(),
{
    if s.len() == 0 {
        0
    } else {
        value(s.drop_last()) * 10 + ((s.last() as u32) - 48) as nat
    }
}

/// Nothing but decimal digits, and at least one.
pub open spec fn all_digits(s: Seq<char>) -> bool {
    s.len() > 0 && forall|i: int| 0 <= i < s.len() ==> is_digit(#[trigger] s[i])
}

/// What `str::parse` makes of a number with no sign allowed but `+`, if it
/// comes to no more than `max`.
pub open spec fn parse_nat(s: Seq<char>, max: nat) -> Option<nat> {
    let body = if s.len() > 0 && s[0] == '+' { s.drop_first() } else { s };
    if all_digits(body) && value(body) <= max {
        Some(value(body))
    } else {
        None
    }
}

/// What `str::parse::<i64>` makes of a number.
pub open spec fn parse_int(s: Seq<char>) -> Option<int> {
    if s.len() > 0 && s[0] == '-' {
        let body = s.drop_first();
        if all_digits(body) && value(body) <= 9_223_372_036_854_775_808 {
            Some(-(value(body) as int))
        } else {
            None
        }
    } else {
        match parse_nat(s, 9_223_372_036_854_775_807) {
            Some(n) => Some(n as int),
            None => None,
        }
    }
}

/// The value of digits from `from` to `to`, if it comes to no more than `max`.
fn digits_value(v: &[char], from: usize, max: u64) -> (r: Option<u64>)
    requires
        from <= v@.len(),
    ensures
        r matches Some(n) ==> all_digits(v@.skip(from as int)) && n == value(v@.skip(from as int))
            && n <= max,
        r is None ==> !(all_digits(v@.skip(from as int)) && value(v@.skip(from as int)) <= max),
{
    if from == v.len() {
        return None;
    }
    let mut n: u64 = 0;
    let mut i = from;
    while i < v.len()
        invariant
            from <= i <= v@.len(),
            n == value(v@.subrange(from as int, i as int)),
            n <= max,
            forall|j: int| from <= j < i ==> is_digit(v@[j]),
        decreases v.len() - i,
    {
        let c = v[i];
        if !('0' <= c && c <= '9') {
            proof {
                assert(!is_digit(v@.skip(from as int)[i - from]));
            }
            return None;
        }
        let d: u64 = ((c as u32) - 48) as u64;
        proof {
            assert(v@.subrange(from as int, i + 1).drop_last() =~= v@.subrange(from as int, i as int));
        }
        if n > max / 10 || max - n * 10 < d {
            proof {
                assert(n * 10 + d > max) by (nonlinear_arith)
                    requires n > max / 10 || max - n * 10 < d, n >= 0, d >= 0, max >= 0;
                assert(v@.skip(from as int).take((i - from + 1) as int) =~= v@.subrange(from as int, i + 1));
                assert(forall|j: int| 0 <= j < i - from + 1 ==> is_digit(#[trigger] v@.skip(from as int)[j]));
                lemma_value_prefix_bound(v@.skip(from as int), (i - from + 1) as int, max as nat);
            }
            return None;
        }
        n = n * 10 + d;
        i = i + 1;
    }
    assert(v@.subrange(from as int, v@.len() as int) =~= v@.skip(from as int));
    Some(n)
}

/// A prefix of a run of digits is worth no more than the whole.
proof fn lemma_value_prefix_bound(s: Seq<char>, k: int, max: nat)
    requires
        0 < k <= s.len(),
        forall|i: int| 0 <= i < k ==> is_digit(s[i]),
        value(s.take(k)) > max,
    ensures
        !(all_digits(s) && value(s) <= max),
    decreases s.len() - k,
{
    if k < s.len() && all_digits(s) {
        assert(s.take(k + 1).drop_last() =~= s.take(k));
        assert(forall|i: int| 0 <= i < k + 1 ==> is_digit(s[i]));
        lemma_value_prefix_bound(s, k + 1, max);
    } else if k == s.len() {
        assert(s.take(k) =~= s);
    }
}

/// The number a run of characters spells, the way `str::parse::<i64>` reads it.
pub fn parse_i64(v: &[char]) -> (r: Option<i64>)
    ensures
        r matches Some(n) ==> parse_int(v@) == Some(n as int),
        r is None ==> parse_int(v@) is None,
{
    if v.len() > 0 && v[0] == '-' {
        match digits_value(v, 1, 9_223_372_036_854_775_808u64) {
            Some(n) => {
                assert(v@.skip(1) =~= v@.drop_first());
                if n == 9_223_372_036_854_775_808u64 {
                    Some(i64::MIN)
                } else {
                    Some(-(n as i64))
                }
            },
            None => {
                assert(v@.skip(1) =~= v@.drop_first());
                None
            },
        }
    } else {
        let from: usize = if v.len() > 0 && v[0] == '+' { 1 } else { 0 };
        let r = digits_value(v, from, 9_223_372_036_854_775_807u64);
        assert(v@.skip(1) =~= v@.drop_first());
        assert(v@.skip(0) =~= v@);
        match r {
            Some(n) => Some(n as i64),
            None => None,
        }
    }
}

/// The count a run of characters spells, the way `str::parse::<usize>` reads it.
pub fn parse_usize(v: &[char]) -> (r: Option<usize>)
    ensures
        r matches Some(n) ==> parse_nat(v@, usize::MAX as nat) == Some(n as nat),
        r is None ==> parse_nat(v@, usize::MAX as nat) is None,
{
    let from: usize = if v.len() > 0 && v[0] == '+' { 1 } else { 0 };
    let r = digits_value(v, from, usize::MAX as u64);
    assert(v@.skip(1) =~= v@.drop_first());
    assert(v@.skip(0) =~= v@);
    match r {
        Some(n) => Some(n as usize),
        None => None,
    }
}

// ---------------------------------------------------------------- replacing

/// Every `from` in `s` replaced by `to`, left to right; `from` is not empty.
pub open spec fn replace(s: Seq<char>, from: Seq<char>, to: Seq<char>) -> Seq<char>
    decreases s.len(),
{
    if from.len() == 0 {
        s
    } else {
        match find(s, from) {
            Some(k) => if 0 <= k && k + from.len() <= s.len() {
                s.take(k) + to + replace(s.skip(k + from.len()), from, to)
            } else {
                s
            },
            None => s,
        }
    }
}

/// Every `from` replaced by `to`.
pub fn replaced(h: &[char], from: &[char], to: &[char]) -> (r: Vec<char>)
    requires
        from@.len() > 0,
    ensures
        r@ == replace(h@, from@, to@),
{
    let mut out: Vec<char> = Vec::new();
    let mut at_: usize = 0;
    assert(h@.skip(0) =~= h@);
    loop
        invariant
            at_ <= h@.len(),
            from@.len() > 0,
            out@ + replace(h@.skip(at_ as int), from@, to@) == replace(h@, from@, to@),
        decreases h@.len() - at_,
    {
        let rest = slice(h, at_, h.len());
        match find_in(&rest, from) {
            None => {
                push_all(&mut out, &rest);
                return out;
            },
            Some(k) => {
                proof {
                    lemma_find_from(rest@, from@, 0);
                }
                let ghost s2 = h@.skip(at_ as int);
                let piece = slice(&rest, 0, k);
                push_all(&mut out, &piece);
                push_all(&mut out, to);
                assert(s2.skip(k + from@.len()) =~= h@.skip(at_ + k + from@.len()));
                assert(replace(s2, from@, to@) == s2.take(k as int) + to@ + replace(
                    s2.skip(k + from@.len()),
                    from@,
                    to@,
                ));
                assert(out@ + replace(h@.skip(at_ + k + from@.len()), from@, to@) =~= replace(h@, from@, to@));
                at_ = at_ + k + from.len();
            },
        }
    }
}

/// Every string `from` replaced by the string `to`.
pub fn replace_str(h: &[char], from: &str, to: &str) -> (r: Vec<char>)
    requires
        from@.len() > 0,
    ensures
        r@ == replace(h@, from@, to@),
{
    let f = chars_of(from);
    let t = chars_of(to);
    replaced(h, &f, &t)
}

// ------------------------------------------------------------------ joining

/// Pieces laid end to end with `sep` between each two.
pub open spec fn join(parts: Seq<Seq<char>>, sep: Seq<char>) -> Seq<char>
    decreases parts.len(),
{
    if parts.len() == 0 {
        seq![]
    } else if parts.len() == 1 {
        parts[0]
    } else {
        join(parts.drop_last(), sep) + sep + parts.last()
    }
}

/// Pieces laid end to end with `sep` between each two.
pub fn joined(parts: &Vec<Vec<char>>, sep: &[char]) -> (r: Vec<char>)
    ensures
        r@ == join(views(parts@), sep@),
{
    let ghost vs = views(parts@);
    let mut out: Vec<char> = Vec::new();
    let mut i: usize = 0;
    while i < parts.len()
        invariant
            i <= parts@.len(),
            vs == views(parts@),
            out@ == join(vs.take(i as int), sep@),
        decreases parts.len() - i,
    {
        if i > 0 {
            push_all(&mut out, sep);
        }
        push_all(&mut out, &parts[i]);
        assert(vs.take(i + 1).drop_last() =~= vs.take(i as int));
        i = i + 1;
    }
    assert(vs.take(parts@.len() as int) =~= vs);
    out
}

// ------------------------------------------------------------ letter case

/// What `str::to_lowercase` makes of a text: Unicode's own mapping, which
/// this does not restate.
pub uninterp spec fn lower_of(s: Seq<char>) -> Seq<char>;

/// What `str::to_uppercase` makes of a text: Unicode's own mapping, which
/// this does not restate.
pub uninterp spec fn upper_of(s: Seq<char>) -> Seq<char>;

/// `str::to_lowercase`. Claimed: the result is the named lowercase of the
/// argument's characters, and depends on nothing else; on a text all of
/// ASCII, each capital becomes its small letter and nothing else changes.
#[verifier::external_body]
pub(crate) fn lowercase(s: &str) -> (r: String)
    ensures
        r@ == lower_of(s@),
        all_ascii(s@) ==> r@ == s@.map_values(|c: char| ascii_lower(c)),
{
    s.to_lowercase()
}

/// `str::to_uppercase`. Claimed: the result is the named uppercase of the
/// argument's characters, and depends on nothing else; on a text all of
/// ASCII, each small letter becomes its capital and nothing else changes.
#[verifier::external_body]
pub(crate) fn uppercase(s: &str) -> (r: String)
    ensures
        r@ == upper_of(s@),
        all_ascii(s@) ==> r@ == s@.map_values(|c: char| ascii_upper(c)),
{
    s.to_uppercase()
}

/// What `char::to_lowercase` makes of one character: Unicode's own mapping,
/// one or more characters, which this does not restate.
pub uninterp spec fn char_lower_of(c: char) -> Seq<char>;

/// `char::to_lowercase`, collected. Claimed: the result is the named
/// lowercase of the character, and depends on nothing else; for a character
/// of ASCII it is that one character, made small if it is a capital.
#[verifier::external_body]
pub(crate) fn lower_char(c: char) -> (r: Vec<char>)
    ensures
        r@ == char_lower_of(c),
        is_ascii_char(c) ==> r@ == seq![ascii_lower(c)],
{
    c.to_lowercase().collect()
}

/// What `char::is_alphanumeric` says of a character: Unicode's letters and
/// numbers, which this does not restate.
pub uninterp spec fn alnum_of(c: char) -> bool;

/// `char::is_alphanumeric`. Claimed: the answer is the named property of the
/// character, and depends on nothing else; for a character of ASCII it is
/// whether it is a letter or a digit.
#[verifier::external_body]
pub(crate) fn alphanumeric(c: char) -> (r: bool)
    ensures
        r == alnum_of(c),
        is_ascii_char(c) ==> r == is_ascii_alnum(c),
{
    c.is_alphanumeric()
}

/// A run of characters in Unicode lowercase.
pub fn lower(v: &[char]) -> (r: Vec<char>)
    ensures
        r@ == lower_of(v@),
{
    let s = string_of(v);
    let l = lowercase(s.as_str());
    chars_of(l.as_str())
}

/// A run of characters in Unicode uppercase.
pub fn upper(v: &[char]) -> (r: Vec<char>)
    ensures
        r@ == upper_of(v@),
{
    let s = string_of(v);
    let u = uppercase(s.as_str());
    chars_of(u.as_str())
}

// ------------------------------------------------------- cutting by a set

/// `s` up to the first of the characters in `stops`, or all of it.
pub open spec fn cut_at(s: Seq<char>, stops: Seq<char>) -> Seq<char>
    decreases s.len(),
{
    if s.len() == 0 || stops.contains(s[0]) {
        seq![]
    } else {
        seq![s[0]] + cut_at(s.drop_first(), stops)
    }
}

/// How long `s` runs before the first of `stops`.
pub fn cut_len(v: &[char], stops: &[char]) -> (n: usize)
    ensures
        n <= v@.len(),
        cut_at(v@, stops@) == v@.take(n as int),
{
    let mut i: usize = 0;
    assert(v@.skip(0) =~= v@);
    assert(v@.take(0) + cut_at(v@, stops@) =~= cut_at(v@, stops@));
    while i < v.len()
        invariant
            i <= v.len(),
            cut_at(v@, stops@) == v@.take(i as int) + cut_at(v@.skip(i as int), stops@),
        decreases v.len() - i,
    {
        let ghost rest = v@.skip(i as int);
        if has_ch(stops, v[i]) {
            assert(stops@.contains(rest[0]));
            assert(cut_at(rest, stops@) =~= seq![]);
            assert(v@.take(i as int) + seq![] =~= v@.take(i as int));
            return i;
        }
        assert(!stops@.contains(rest[0]));
        assert(rest.drop_first() =~= v@.skip(i + 1));
        assert(v@.take(i as int) + seq![rest[0]] =~= v@.take(i + 1));
        i = i + 1;
    }
    assert(v@.skip(i as int) =~= seq![]);
    assert(v@.take(i as int) + seq![] =~= v@.take(i as int));
    i
}

/// `s` cut at every one of the characters in `seps`.
pub open spec fn split_set(s: Seq<char>, seps: Seq<char>) -> Seq<Seq<char>>
    decreases s.len(),
{
    let head = cut_at(s, seps);
    if head.len() < s.len() {
        seq![head] + split_set(s.skip(head.len() as int + 1), seps)
    } else {
        seq![s]
    }
}

/// The text cut at every one of the characters in `seps`.
pub fn split_at_any(h: &[char], seps: &[char]) -> (r: Vec<Vec<char>>)
    ensures
        r@.len() == split_set(h@, seps@).len(),
        forall|i: int| 0 <= i < r@.len() ==> #[trigger] r@[i]@ == split_set(h@, seps@)[i],
{
    let mut out: Vec<Vec<char>> = Vec::new();
    let mut at_: usize = 0;
    assert(h@.skip(0) =~= h@);
    loop
        invariant
            at_ <= h@.len(),
            forall|i: int| 0 <= i < out@.len() ==> #[trigger] out@[i]@ == split_set(h@, seps@)[i],
            out@.len() + split_set(h@.skip(at_ as int), seps@).len() == split_set(h@, seps@).len(),
            forall|i: int|
                0 <= i < split_set(h@.skip(at_ as int), seps@).len() ==> split_set(h@, seps@)[out@.len()
                    + i] == #[trigger] split_set(h@.skip(at_ as int), seps@)[i],
        decreases h@.len() - at_,
    {
        let rest = slice(h, at_, h.len());
        let k = cut_len(&rest, seps);
        let ghost s2 = h@.skip(at_ as int);
        let ghost old_out = out@;
        if k == rest.len() {
            assert(cut_at(s2, seps@) =~= s2);
            assert(split_set(s2, seps@) == seq![s2]);
            assert(split_set(h@, seps@)[old_out.len() as int] == split_set(s2, seps@)[0]);
            out.push(rest);
            assert forall|i: int| 0 <= i < out@.len() implies #[trigger] out@[i]@ == split_set(h@, seps@)[i] by {
                if i < old_out.len() {
                    assert(out@[i] == old_out[i]);
                }
            }
            return out;
        }
        let piece = slice(&rest, 0, k);
        assert(split_set(s2, seps@) == seq![s2.take(k as int)] + split_set(s2.skip(k + 1), seps@));
        assert(s2.skip(k + 1) =~= h@.skip(at_ + k + 1));
        out.push(piece);
        let ghost next: int = at_ + k + 1;
        proof {
            assert forall|i: int| 0 <= i < split_set(h@.skip(next), seps@).len() implies split_set(h@, seps@)[out@.len() + i] == #[trigger] split_set(h@.skip(next), seps@)[i] by {
                assert(split_set(s2, seps@)[i + 1] == split_set(h@.skip(next), seps@)[i]);
                assert(split_set(h@, seps@)[old_out.len() + (i + 1)] == split_set(s2, seps@)[i + 1]);
            }
            assert(split_set(h@, seps@)[old_out.len() as int] == split_set(s2, seps@)[0]);
            assert forall|i: int| 0 <= i < out@.len() implies #[trigger] out@[i]@ == split_set(h@, seps@)[i] by {
                if i < old_out.len() {
                    assert(out@[i] == old_out[i]);
                }
            }
        }
        at_ = at_ + k + 1;
    }
}

// ---------------------------------------------------------- ASCII words

/// How many ASCII letters and digits a run starts with.
pub open spec fn alnum_run(s: Seq<char>) -> nat
    decreases s.len(),
{
    if s.len() > 0 && is_ascii_alnum(s[0]) {
        1 + alnum_run(s.drop_first())
    } else {
        0
    }
}

/// The runs of ASCII letters and digits, in order: what is left of
/// `split(|c| !c.is_ascii_alphanumeric())` once the empty pieces are gone.
pub open spec fn ascii_words(s: Seq<char>) -> Seq<Seq<char>>
    decreases s.len(),
{
    if s.len() == 0 {
        seq![]
    } else if !is_ascii_alnum(s[0]) {
        ascii_words(s.drop_first())
    } else {
        let n = alnum_run(s);
        if 0 < n <= s.len() {
            seq![s.take(n as int)] + ascii_words(s.skip(n as int))
        } else {
            seq![]
        }
    }
}

proof fn lemma_alnum_run(s: Seq<char>)
    ensures
        alnum_run(s) <= s.len(),
        s.len() > 0 && is_ascii_alnum(s[0]) ==> alnum_run(s) > 0,
    decreases s.len(),
{
    if s.len() > 0 && is_ascii_alnum(s[0]) {
        lemma_alnum_run(s.drop_first());
    }
}

/// The runs of ASCII letters and digits in a text.
pub fn ascii_words_of(h: &[char]) -> (r: Vec<Vec<char>>)
    ensures
        r@.len() == ascii_words(h@).len(),
        forall|i: int| 0 <= i < r@.len() ==> #[trigger] r@[i]@ == ascii_words(h@)[i],
{
    let mut out: Vec<Vec<char>> = Vec::new();
    let mut i: usize = 0;
    assert(h@.skip(0) =~= h@);
    while i < h.len()
        invariant
            i <= h@.len(),
            forall|j: int| 0 <= j < out@.len() ==> #[trigger] out@[j]@ == ascii_words(h@)[j],
            out@.len() + ascii_words(h@.skip(i as int)).len() == ascii_words(h@).len(),
            forall|j: int|
                0 <= j < ascii_words(h@.skip(i as int)).len() ==> ascii_words(h@)[out@.len()
                    + j] == #[trigger] ascii_words(h@.skip(i as int))[j],
        decreases h@.len() - i,
    {
        let ghost s2 = h@.skip(i as int);
        if !ascii_alnum(h[i]) {
            assert(s2.drop_first() =~= h@.skip(i + 1));
            i = i + 1;
        } else {
            let mut j = i;
            while j < h.len() && ascii_alnum(h[j])
                invariant
                    i <= j <= h@.len(),
                    alnum_run(s2) == (j - i) + alnum_run(h@.skip(j as int)),
                decreases h@.len() - j,
            {
                assert(h@.skip(j as int).drop_first() =~= h@.skip(j + 1));
                j = j + 1;
            }
            proof {
                lemma_alnum_run(s2);
                assert(alnum_run(h@.skip(j as int)) == 0);
            }
            let ghost old_out = out@;
            let piece = slice(h, i, j);
            assert(piece@ =~= s2.take((j - i) as int));
            assert(s2.skip((j - i) as int) =~= h@.skip(j as int));
            assert(ascii_words(s2) == seq![piece@] + ascii_words(h@.skip(j as int)));
            out.push(piece);
            proof {
                assert forall|k: int| 0 <= k < ascii_words(h@.skip(j as int)).len() implies ascii_words(h@)[out@.len() + k] == #[trigger] ascii_words(h@.skip(j as int))[k] by {
                    assert(ascii_words(s2)[k + 1] == ascii_words(h@.skip(j as int))[k]);
                    assert(ascii_words(h@)[old_out.len() + (k + 1)] == ascii_words(s2)[k + 1]);
                }
                assert(ascii_words(h@)[old_out.len() as int] == ascii_words(s2)[0]);
                assert forall|k: int| 0 <= k < out@.len() implies #[trigger] out@[k]@ == ascii_words(h@)[k] by {
                    if k < old_out.len() {
                        assert(out@[k] == old_out[k]);
                    }
                }
            }
            i = j;
        }
    }
    assert(h@.skip(i as int) =~= seq![]);
    out
}

/// The same characters, in a run of their own.
pub fn copied(v: &[char]) -> (r: Vec<char>)
    ensures
        r@ == v@,
{
    slice(v, 0, v.len())
}

/// What a list of runs of characters holds.
pub open spec fn views(v: Seq<Vec<char>>) -> Seq<Seq<char>> {
    v.map_values(|w: Vec<char>| w@)
}

/// What a list of strings holds.
pub open spec fn texts(v: Seq<String>) -> Seq<Seq<char>> {
    v.map_values(|w: String| w@)
}

/// Each run of characters as a string.
pub fn strings_of(v: &Vec<Vec<char>>) -> (r: Vec<String>)
    ensures
        texts(r@) == views(v@),
{
    let mut out: Vec<String> = Vec::new();
    let mut i: usize = 0;
    while i < v.len()
        invariant
            i <= v@.len(),
            texts(out@) == views(v@).take(i as int),
        decreases v.len() - i,
    {
        let ghost before = out@;
        let x = string_of(&v[i]);
        out.push(x);
        assert(texts(out@) =~= texts(before).push(x@));
        assert(views(v@).take(i + 1) =~= views(v@).take(i as int).push(v@[i as int]@));
        i = i + 1;
    }
    assert(views(v@).take(v@.len() as int) =~= views(v@));
    out
}

/// Each string as a run of characters.
pub fn chars_each(v: &[String]) -> (r: Vec<Vec<char>>)
    ensures
        views(r@) == texts(v@),
{
    let mut out: Vec<Vec<char>> = Vec::new();
    let mut i: usize = 0;
    while i < v.len()
        invariant
            i <= v@.len(),
            views(out@) == texts(v@).take(i as int),
        decreases v.len() - i,
    {
        let ghost before = out@;
        let x = chars_of(v[i].as_str());
        out.push(x);
        assert(views(out@) =~= views(before).push(x@));
        assert(texts(v@).take(i + 1) =~= texts(v@).take(i as int).push(v@[i as int]@));
        i = i + 1;
    }
    assert(texts(v@).take(v@.len() as int) =~= texts(v@));
    out
}

// --------------------------------------------------------- words, prefixes

/// How many characters a run starts with before its first whitespace.
pub open spec fn word_run(s: Seq<char>) -> nat
    decreases s.len(),
{
    if s.len() == 0 || is_ws(s[0]) {
        0
    } else {
        1 + word_run(s.drop_first())
    }
}

pub proof fn lemma_word_run(s: Seq<char>)
    ensures
        word_run(s) <= s.len(),
        forall|i: int| 0 <= i < word_run(s) ==> !is_ws(#[trigger] s[i]),
        word_run(s) < s.len() ==> is_ws(s[word_run(s) as int]),
    decreases s.len(),
{
    if s.len() > 0 && !is_ws(s[0]) {
        lemma_word_run(s.drop_first());
        assert forall|i: int| 0 <= i < word_run(s) implies !is_ws(#[trigger] s[i]) by {
            if i > 0 {
                assert(s[i] == s.drop_first()[i - 1]);
            }
        }
    }
}

pub proof fn lemma_trim_start_head(s: Seq<char>)
    ensures
        trim_start(s).len() > 0 ==> !is_ws(trim_start(s)[0]),
    decreases s.len(),
{
    if s.len() > 0 && is_ws(s[0]) {
        lemma_trim_start_head(s.drop_first());
    }
}

/// The words of a text, the way `str::split_whitespace` reads them.
pub open spec fn ws_words(s: Seq<char>) -> Seq<Seq<char>>
    decreases s.len(),
{
    let t = trim_start(s);
    proof {
        lemma_trim_start_suffix(s);
        lemma_trim_start_head(s);
        lemma_word_run(t);
    }
    if t.len() == 0 {
        seq![]
    } else {
        seq![t.take(word_run(t) as int)] + ws_words(t.skip(word_run(t) as int))
    }
}

/// The words of a text.
pub fn ws_words_of(h: &[char]) -> (r: Vec<Vec<char>>)
    ensures
        views(r@) == ws_words(h@),
{
    let mut out: Vec<Vec<char>> = Vec::new();
    let mut i: usize = 0;
    let n = h.len();
    assert(h@.skip(0) =~= h@);
    while i < n
        invariant
            i <= n,
            n == h@.len(),
            ws_words(h@) == views(out@) + ws_words(h@.skip(i as int)),
        decreases n - i,
    {
        let ghost s = h@.skip(i as int);
        let start = i + lead_len(slice(h, i, n).as_slice());
        proof {
            lemma_trim_start_suffix(s);
        }
        assert(trim_start(s) =~= h@.skip(start as int));
        if start == n {
            assert(ws_words(s) =~= seq![]);
            assert(views(out@) + seq![] =~= views(out@));
            return out;
        }
        let mut j = start;
        while j < n && !ws(h[j])
            invariant
                start <= j <= n,
                n == h@.len(),
                forall|k: int| start <= k < j ==> !is_ws(#[trigger] h@[k]),
            decreases n - j,
        {
            j = j + 1;
        }
        let ghost t = h@.skip(start as int);
        proof {
            lemma_word_run(t);
            assert(word_run(t) == j - start) by {
                lemma_run_is(t, (j - start) as int);
            }
        }
        let ghost before = views(out@);
        let w = slice(h, start, j);
        out.push(w);
        assert(views(out@) =~= before.push(w@));
        assert(t.take(word_run(t) as int) =~= w@);
        assert(t.skip(word_run(t) as int) =~= h@.skip(j as int));
        assert(ws_words(s) == seq![w@] + ws_words(h@.skip(j as int)));
        assert(views(out@) + ws_words(h@.skip(j as int)) =~= before + (seq![w@] + ws_words(h@.skip(j as int))));
        i = j;
    }
    assert(h@.skip(i as int) =~= seq![]);
    assert(ws_words(h@.skip(i as int)) =~= seq![]);
    assert(views(out@) + seq![] =~= views(out@));
    out
}

proof fn lemma_run_is(t: Seq<char>, k: int)
    requires
        0 <= k <= t.len(),
        forall|i: int| 0 <= i < k ==> !is_ws(#[trigger] t[i]),
        k == t.len() || is_ws(t[k]),
    ensures
        word_run(t) == k,
    decreases k,
{
    if k > 0 {
        assert forall|i: int| 0 <= i < k - 1 implies !is_ws(#[trigger] t.drop_first()[i]) by {
            assert(t.drop_first()[i] == t[i + 1]);
        }
        if k < t.len() {
            assert(t.drop_first()[k - 1] == t[k]);
        }
        lemma_run_is(t.drop_first(), k - 1);
    }
}

/// `s` with every leading copy of `p` taken off.
pub open spec fn trim_start_pat(s: Seq<char>, p: Seq<char>) -> Seq<char>
    decreases s.len(),
{
    if p.len() > 0 && p.len() <= s.len() && s.take(p.len() as int) == p {
        trim_start_pat(s.skip(p.len() as int), p)
    } else {
        s
    }
}

/// `v` with every leading copy of the string `p` taken off.
pub fn trimmed_start_pat(v: &[char], p: &str) -> (r: Vec<char>)
    ensures
        r@ == trim_start_pat(v@, p@),
{
    let pv = chars_of(p);
    let n = v.len();
    let mut i: usize = 0;
    assert(v@.skip(0) =~= v@);
    while pv.len() > 0 && pv.len() <= n - i && at(v, &pv, i)
        invariant
            i <= n,
            n == v@.len(),
            pv@ == p@,
            trim_start_pat(v@.skip(i as int), p@) == trim_start_pat(v@, p@),
        decreases n - i,
    {
        let ghost s = v@.skip(i as int);
        assert(s.take(pv@.len() as int) =~= v@.subrange(i as int, i + pv@.len()));
        assert(s.skip(pv@.len() as int) =~= v@.skip(i + pv@.len()));
        i = i + pv.len();
    }
    let ghost s = v@.skip(i as int);
    if pv.len() > 0 && pv.len() <= n - i {
        assert(s.take(pv@.len() as int) =~= v@.subrange(i as int, i + pv@.len()));
    }
    slice(v, i, n)
}

/// Two runs the same but for the case of ASCII letters.
pub open spec fn same_ignoring_case(a: Seq<char>, b: Seq<char>) -> bool {
    a.len() == b.len() && forall|i: int| 0 <= i < a.len() ==> ascii_lower(#[trigger] a[i]) == ascii_lower(b[i])
}

/// Whether two runs are the same but for the case of ASCII letters.
pub fn eq_ignore_case(a: &[char], b: &str) -> (r: bool)
    ensures
        r == same_ignoring_case(a@, b@),
{
    let bv = chars_of(b);
    if a.len() != bv.len() {
        return false;
    }
    let mut i: usize = 0;
    while i < a.len()
        invariant
            i <= a@.len(),
            a@.len() == bv@.len(),
            bv@ == b@,
            forall|j: int| 0 <= j < i ==> ascii_lower(#[trigger] a@[j]) == ascii_lower(bv@[j]),
        decreases a.len() - i,
    {
        if lower_ascii_char(a[i]) != lower_ascii_char(bv[i]) {
            return false;
        }
        i = i + 1;
    }
    true
}

// ------------------------------------------------------------- by pattern

/// `s` up to the first `p`, or all of it: `split(p).next()`.
pub open spec fn before_pat(s: Seq<char>, p: Seq<char>) -> Seq<char> {
    match find(s, p) {
        Some(k) => s.take(k),
        None => s,
    }
}

/// What stands between the first `p` and the next one, or the rest of `s`
/// when there is no next one: `split(p).nth(1)`.
pub open spec fn second_piece(s: Seq<char>, p: Seq<char>) -> Option<Seq<char>> {
    match find(s, p) {
        Some(k) => Some(before_pat(s.skip(k + p.len()), p)),
        None => None,
    }
}

/// `s` with its first `p` replaced by `t`.
pub open spec fn replace_first(s: Seq<char>, p: Seq<char>, t: Seq<char>) -> Seq<char> {
    match find(s, p) {
        Some(k) => s.take(k) + t + s.skip(k + p.len()),
        None => s,
    }
}

/// `v` up to the first `p`, or all of it.
pub fn before_str(v: &[char], p: &str) -> (r: Vec<char>)
    ensures
        r@ == before_pat(v@, p@),
{
    let pv = chars_of(p);
    match find_in(v, &pv) {
        Some(k) => {
            proof {
                lemma_find_from(v@, pv@, 0);
            }
            slice(v, 0, k)
        },
        None => slice(v, 0, v.len()),
    }
}

/// What stands between the first `p` and the next one.
pub fn second_str(v: &[char], p: &str) -> (r: Option<Vec<char>>)
    ensures
        r matches Some(x) ==> second_piece(v@, p@) == Some(x@),
        r is None ==> second_piece(v@, p@) is None,
{
    let pv = chars_of(p);
    let len = v.len();
    match find_in(v, &pv) {
        Some(k) => {
            proof {
                lemma_find_from(v@, pv@, 0);
            }
            let rest = slice(v, k + pv.len(), len);
            assert(rest@ =~= v@.skip(k + pv@.len()));
            Some(before_str(&rest, p))
        },
        None => None,
    }
}

/// `v` with its first `p` replaced by `t`.
pub fn replaced_first(v: &[char], p: &str, t: &str) -> (r: Vec<char>)
    ensures
        r@ == replace_first(v@, p@, t@),
{
    let pv = chars_of(p);
    let len = v.len();
    match find_in(v, &pv) {
        Some(k) => {
            proof {
                lemma_find_from(v@, pv@, 0);
            }
            let mut out = slice(v, 0, k);
            push_str(&mut out, t);
            let rest = slice(v, k + pv.len(), len);
            push_all(&mut out, &rest);
            assert(out@ =~= v@.take(k as int) + t@ + v@.skip(k + pv@.len()));
            out
        },
        None => slice(v, 0, len),
    }
}

/// Whether any character of a run is whitespace.
pub fn any_ws(v: &[char]) -> (r: bool)
    ensures
        r == exists|i: int| 0 <= i < v@.len() && is_ws(#[trigger] v@[i]),
{
    let mut i: usize = 0;
    while i < v.len()
        invariant
            i <= v@.len(),
            forall|j: int| 0 <= j < i ==> !is_ws(#[trigger] v@[j]),
        decreases v.len() - i,
    {
        if ws(v[i]) {
            return true;
        }
        i = i + 1;
    }
    false
}

/// A number written in decimal is all digits, and reads back as itself.
pub proof fn lemma_decimal_reads_back(n: nat)
    ensures
        all_digits(decimal(n)),
        value(decimal(n)) == n,
    decreases n,
{
    if n < 10 {
        let d = decimal(n);
        assert(d =~= seq![digit(n as int)]);
        assert(d.drop_last() =~= Seq::<char>::empty());
        assert(((n + 48) as u32) as char as u32 == (n + 48) as u32);
        assert((d.last() as u32) - 48 == n);
        assert(value(d) == value(d.drop_last()) * 10 + ((d.last() as u32) - 48) as nat);
    } else {
        lemma_decimal_reads_back(n / 10);
        let d = decimal(n);
        let k = (n % 10) as int;
        assert(d.drop_last() =~= decimal(n / 10));
        assert(d.last() == digit(k));
        assert(((k + 48) as u32) as char as u32 == (k + 48) as u32);
        assert(n == (n / 10) * 10 + n % 10) by {
            vstd::arithmetic::div_mod::lemma_fundamental_div_mod(n as int, 10);
        }
        assert forall|i: int| 0 <= i < d.len() implies is_digit(#[trigger] d[i]) by {
            if i < d.len() - 1 {
                assert(d[i] == decimal(n / 10)[i]);
            }
        }
        assert((d.last() as u32) - 48 == k);
        assert(value(d) == value(d.drop_last()) * 10 + ((d.last() as u32) - 48) as nat);
        assert(value(d) == (n / 10) * 10 + k);
    }
}

/// No ASCII letter anywhere in a text.
pub open spec fn no_letters(s: Seq<char>) -> bool {
    forall|i: int| 0 <= i < s.len() ==> !(('a' <= #[trigger] s[i] && s[i] <= 'z') || ('A' <= s[i] && s[i] <= 'Z'))
}

proof fn lemma_alnum_prefix(s: Seq<char>)
    ensures
        forall|j: int| 0 <= j < alnum_run(s) ==> is_ascii_alnum(#[trigger] s[j]),
    decreases s.len(),
{
    lemma_alnum_run(s);
    if s.len() > 0 && is_ascii_alnum(s[0]) {
        lemma_alnum_prefix(s.drop_first());
        assert forall|j: int| 0 <= j < alnum_run(s) implies is_ascii_alnum(#[trigger] s[j]) by {
            if j > 0 {
                assert(s[j] == s.drop_first()[j - 1]);
            }
        }
    }
}

/// The words of a text with no letters in it are numbers: each begins with
/// a digit.
pub proof fn lemma_words_of_figures(s: Seq<char>)
    requires
        no_letters(s),
    ensures
        forall|k: int|
            0 <= k < ascii_words(s).len() ==> (#[trigger] ascii_words(s)[k]).len() > 0 && is_digit(ascii_words(s)[k][0]),
    decreases s.len(),
{
    if s.len() > 0 {
        assert(no_letters(s.drop_first())) by {
            assert forall|i: int| 0 <= i < s.drop_first().len() implies !(('a' <= #[trigger] s.drop_first()[i]
                && s.drop_first()[i] <= 'z') || ('A' <= s.drop_first()[i] && s.drop_first()[i] <= 'Z')) by {
                assert(s.drop_first()[i] == s[i + 1]);
            }
        }
        if !is_ascii_alnum(s[0]) {
            lemma_words_of_figures(s.drop_first());
            assert(ascii_words(s) == ascii_words(s.drop_first()));
        } else {
            assert(!(('a' <= s[0] && s[0] <= 'z') || ('A' <= s[0] && s[0] <= 'Z')));
            assert(is_digit(s[0]));
            lemma_alnum_run(s);
            let n = alnum_run(s);
            let rest = s.skip(n as int);
            assert(no_letters(rest)) by {
                assert forall|i: int| 0 <= i < rest.len() implies !(('a' <= #[trigger] rest[i] && rest[i] <= 'z') || (
                'A' <= rest[i] && rest[i] <= 'Z')) by {
                    assert(rest[i] == s[i + n]);
                }
            }
            lemma_words_of_figures(rest);
            let ws = ascii_words(s);
            assert(ws == seq![s.take(n as int)] + ascii_words(rest));
            assert forall|k: int| 0 <= k < ws.len() implies (#[trigger] ws[k]).len() > 0 && is_digit(ws[k][0]) by {
                if k > 0 {
                    assert(ws[k] == ascii_words(rest)[k - 1]);
                } else {
                    assert(ws[0] == s.take(n as int));
                    assert(ws[0][0] == s[0]);
                }
            }
            assert(forall|k: int| 0 <= k < ascii_words(s).len() ==> (#[trigger] ascii_words(s)[k]).len() > 0 && is_digit(ascii_words(s)[k][0]));
        }
    }
}

} // verus!
