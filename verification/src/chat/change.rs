//! What a model offers to do to a project, read out of what it wrote.
//!
//! A change is a block in the reply - an edit, a write, a delete, a merge -
//! and reading one is more than finding its tags. Blocks come with their
//! decision written into them, drafts of one block supersede each other, a
//! write with deletes beside it is a merge, and a delete a merge covers is
//! nothing. All of that is decided here, once, so that the panel that offers
//! a change and the application that applies it never disagree about what
//! was offered.
//!
//! Positions in a text are counted in characters throughout.
use vstd::prelude::*;

use crate::strs::{
    chars_of, cut_at, cut_len, find, find_at, find_from, find_in, is_ws, lemma_find_from, lines,
    lines_of, occurs_at, parse_nat, parse_usize, push_all, push_str, same, slice, split_at_any,
    split_set, starts_with, string_of, trim, trim_start, trimmed, trimmed_start, views, at,
    decimal, write_usize, join, joined, chars_each, texts,
};

verus! {

// ------------------------------------------------------------------ tags

/// A quote mark, as a one-character text.
pub open spec fn quote() -> Seq<char> {
    seq!['"']
}

/// One quoted attribute out of a tag: the first place `name` stands, then
/// what is between the next two quote marks (or after the one, if there is
/// only one), trimmed.
pub open spec fn attr_of(tag: Seq<char>, name: Seq<char>) -> Option<Seq<char>> {
    match find(tag, name) {
        None => None,
        Some(at) => {
            let rest = tag.skip(at);
            match find(rest, quote()) {
                None => None,
                Some(q) => Some(trim(cut_at(rest.skip(q + 1), quote()))),
            }
        },
    }
}

/// One quoted attribute out of a tag.
pub fn attr(tag: &[char], name: &str) -> (r: Option<Vec<char>>)
    ensures
        r matches Some(v) ==> attr_of(tag@, name@) == Some(v@),
        r is None ==> attr_of(tag@, name@) is None,
{
    let at = match find_str_in(tag, name) {
        None => return None,
        Some(a) => a,
    };
    proof {
        lemma_find_from(tag@, name@, 0);
    }
    let rest = slice(tag, at, tag.len());
    assert(rest@ =~= tag@.skip(at as int));
    let qv = vec!['"'];
    assert(qv@ == quote());
    let q = match find_in(&rest, &qv) {
        None => return None,
        Some(q) => q,
    };
    proof {
        lemma_find_from(rest@, qv@, 0);
    }
    let after = slice(&rest, q + 1, rest.len());
    assert(after@ =~= rest@.skip(q + 1));
    let n = cut_len(&after, &qv);
    let value = slice(&after, 0, n);
    assert(value@ =~= after@.take(n as int));
    Some(trimmed(&value))
}

/// Where the string `p` first stands in `h`.
fn find_str_in(h: &[char], p: &str) -> (r: Option<usize>)
    ensures
        r matches Some(k) ==> find(h@, p@) == Some(k as int),
        r is None ==> find(h@, p@) is None,
{
    let pv = chars_of(p);
    find_in(h, &pv)
}

/// The pieces that are something once trimmed, trimmed.
pub open spec fn nonempty_trimmed(ps: Seq<Seq<char>>) -> Seq<Seq<char>>
    decreases ps.len(),
{
    if ps.len() == 0 {
        seq![]
    } else {
        let rest = nonempty_trimmed(ps.drop_last());
        if trim(ps.last()).len() == 0 {
            rest
        } else {
            rest.push(trim(ps.last()))
        }
    }
}

/// What separates the files a merge names.
pub open spec fn list_seps() -> Seq<char> {
    seq![',', ' ']
}

/// The files a merge is folding in: `from="a.md, b.md"`.
pub open spec fn names_of(tag: Seq<char>) -> Seq<Seq<char>> {
    match attr_of(tag, "from"@) {
        None => seq![],
        Some(list) => nonempty_trimmed(split_set(list, list_seps())),
    }
}

/// The files a merge is folding in: `from="a.md, b.md"`.
pub fn names(tag: &[char]) -> (r: Vec<Vec<char>>)
    ensures
        views(r@) == names_of(tag@),
{
    let mut out: Vec<Vec<char>> = Vec::new();
    let list = match attr(tag, "from") {
        None => {
            assert(views(out@) =~= seq![]);
            return out;
        },
        Some(l) => l,
    };
    let seps = vec![',', ' '];
    assert(seps@ == list_seps());
    let parts = split_at_any(&list, &seps);
    let ghost ps = split_set(list@, seps@);
    let mut i: usize = 0;
    while i < parts.len()
        invariant
            i <= parts@.len(),
            parts@.len() == ps.len(),
            forall|j: int| 0 <= j < parts@.len() ==> #[trigger] parts@[j]@ == ps[j],
            views(out@) == nonempty_trimmed(ps.take(i as int)),
        decreases parts.len() - i,
    {
        let t = trimmed(&parts[i]);
        assert(ps.take(i + 1).drop_last() =~= ps.take(i as int));
        assert(ps.take(i + 1).last() == parts@[i as int]@);
        if t.len() > 0 {
            out.push(t);
            assert(views(out@) =~= nonempty_trimmed(ps.take(i as int)).push(t@));
        }
        i = i + 1;
    }
    assert(ps.take(parts@.len() as int) =~= ps);
    out
}

/// A count the way `str::parse::<usize>` reads one.
pub open spec fn parse_count(s: Seq<char>) -> Option<usize> {
    match parse_nat(s, usize::MAX as nat) {
        Some(n) => Some(n as usize),
        None => None,
    }
}

/// A count out of a run of characters.
pub fn count_of(v: &[char]) -> (r: Option<usize>)
    ensures
        r == parse_count(v@),
{
    parse_usize(v)
}

/// `lines="12-14"`, or `lines="12"` for a single one.
pub open spec fn lines_attr_of(tag: Seq<char>) -> Option<(usize, usize)> {
    match attr_of(tag, "lines"@) {
        None => None,
        Some(v) => match find(v, seq!['-']) {
            Some(k) => match (parse_count(trim(v.take(k))), parse_count(trim(v.skip(k + 1)))) {
                (Some(a), Some(b)) => Some((a, b)),
                _ => None,
            },
            None => match parse_count(v) {
                Some(n) => Some((n, n)),
                None => None,
            },
        },
    }
}

/// `lines="12-14"`, or `lines="12"` for a single one.
pub fn lines_attr(tag: &[char]) -> (r: Option<(usize, usize)>)
    ensures
        r == lines_attr_of(tag@),
{
    let value = match attr(tag, "lines") {
        None => return None,
        Some(v) => v,
    };
    let dash = vec!['-'];
    assert(dash@ == seq!['-']);
    match find_in(&value, &dash) {
        Some(k) => {
            proof {
                lemma_find_from(value@, dash@, 0);
            }
            let a = slice(&value, 0, k);
            let b = slice(&value, k + 1, value.len());
            assert(a@ =~= value@.take(k as int));
            assert(b@ =~= value@.skip(k + 1));
            let ta = trimmed(&a);
            let tb = trimmed(&b);
            match (count_of(&ta), count_of(&tb)) {
                (Some(x), Some(y)) => Some((x, y)),
                _ => None,
            }
        },
        None => match count_of(&value) {
            Some(n) => Some((n, n)),
            None => None,
        },
    }
}

/// `state="applied"` or `state="rejected"`, if a decision was written into
/// the tag.
pub open spec fn state_attr_of(tag: Seq<char>) -> Option<bool> {
    match attr_of(tag, "state"@) {
        Some(v) => if v == "applied"@ {
            Some(true)
        } else if v == "rejected"@ {
            Some(false)
        } else {
            None
        },
        None => None,
    }
}

/// `state="applied"`, if a decision was written into the tag.
pub fn state_attr(tag: &[char]) -> (r: Option<bool>)
    ensures
        r == state_attr_of(tag@),
{
    match attr(tag, "state") {
        Some(v) => {
            if same(&v, &chars_of("applied")) {
                Some(true)
            } else if same(&v, &chars_of("rejected")) {
                Some(false)
            } else {
                None
            }
        },
        None => None,
    }
}

/// A line that opens or closes a code fence.
pub open spec fn is_fence(l: Seq<char>) -> bool {
    starts_with(trim_start(l), "```"@) || starts_with(trim_start(l), "~~~"@)
}

/// How many of these lines are fences.
pub open spec fn fence_count(ls: Seq<Seq<char>>) -> nat
    decreases ls.len(),
{
    if ls.len() == 0 {
        0
    } else {
        fence_count(ls.drop_last()) + if is_fence(ls.last()) {
            1nat
        } else {
            0nat
        }
    }
}

/// Whether an odd number of code fences opened in this text.
pub open spec fn odd_fences(text: Seq<char>) -> bool {
    fence_count(lines(text)) % 2 == 1
}

/// Whether a line opens or closes a code fence.
pub fn fence_line(l: &[char]) -> (r: bool)
    ensures
        r == is_fence(l@),
{
    let t = trimmed_start(l);
    crate::strs::starts(&t, "```") || crate::strs::starts(&t, "~~~")
}

/// Whether an odd number of code fences opened in this text.
pub fn fences(text: &[char]) -> (r: bool)
    ensures
        r == odd_fences(text@),
{
    let ls = lines_of(text);
    let ghost all = lines(text@);
    let mut odd = false;
    let mut i: usize = 0;
    while i < ls.len()
        invariant
            i <= ls@.len(),
            ls@.len() == all.len(),
            forall|j: int| 0 <= j < ls@.len() ==> #[trigger] ls@[j]@ == all[j],
            odd == (fence_count(all.take(i as int)) % 2 == 1),
        decreases ls.len() - i,
    {
        assert(all.take(i + 1).drop_last() =~= all.take(i as int));
        assert(all.take(i + 1).last() == ls@[i as int]@);
        if fence_line(&ls[i]) {
            odd = !odd;
        }
        i = i + 1;
    }
    assert(all.take(ls@.len() as int) =~= all);
    odd
}

/// The end of what follows the decision written into a tag: just after the
/// second quote mark from where `state` stands, or the end of the tag.
pub open spec fn state_end(tag: Seq<char>, at: int) -> int {
    match find_from(tag, quote(), at) {
        None => tag.len() as int,
        Some(q1) => match find_from(tag, quote(), q1 + 1) {
            None => tag.len() as int,
            Some(q2) => q2 + 1,
        },
    }
}

/// The tag without any decision already written into it.
pub open spec fn strip_state_of(tag: Seq<char>) -> Seq<char> {
    match find(tag, "state"@) {
        None => tag,
        Some(at) => tag.take(at) + tag.skip(state_end(tag, at)),
    }
}

/// The tag without any decision already written into it.
pub fn strip_state(tag: &[char]) -> (r: Vec<char>)
    ensures
        r@ == strip_state_of(tag@),
{
    let len = tag.len();
    let at = match find_str_in(tag, "state") {
        None => return slice(tag, 0, len),
        Some(a) => a,
    };
    proof {
        lemma_find_from(tag@, "state"@, 0);
    }
    let qv = vec!['"'];
    assert(qv@ == quote());
    let end = match find_at(tag, &qv, at) {
        None => tag.len(),
        Some(q1) => {
            proof {
                lemma_find_from(tag@, qv@, at as int);
            }
            match find_at(tag, &qv, q1 + 1) {
                None => tag.len(),
                Some(q2) => {
                    proof {
                        lemma_find_from(tag@, qv@, q1 + 1);
                    }
                    q2 + 1
                },
            }
        },
    };
    let mut out = slice(tag, 0, at);
    let tail = slice(tag, end, tag.len());
    push_all(&mut out, &tail);
    assert(out@ =~= tag@.take(at as int) + tag@.skip(end as int));
    out
}

/// `s` with every trailing `c` taken off.
pub open spec fn trim_end_char(s: Seq<char>, c: char) -> Seq<char>
    decreases s.len(),
{
    if s.len() > 0 && s.last() == c {
        trim_end_char(s.drop_last(), c)
    } else {
        s
    }
}

/// `v` with every trailing `c` taken off.
pub fn trimmed_end_char(v: &[char], c: char) -> (r: Vec<char>)
    ensures
        r@ == trim_end_char(v@, c),
{
    let mut n = v.len();
    assert(v@.take(n as int) =~= v@);
    while n > 0 && v[n - 1] == c
        invariant
            n <= v@.len(),
            trim_end_char(v@.take(n as int), c) == trim_end_char(v@, c),
        decreases n,
    {
        assert(v@.take(n as int).drop_last() =~= v@.take(n - 1));
        n = n - 1;
    }
    slice(v, 0, n)
}

// ----------------------------------------------------------------- names

/// Either of the two ways a folder is written in front of a name.
pub open spec fn is_sep(c: char) -> bool {
    c == '/' || c == '\\'
}

/// What comes after the last separator, or all of it.
pub open spec fn after_last_sep(s: Seq<char>) -> Seq<char>
    decreases s.len(),
{
    if s.len() == 0 {
        s
    } else if is_sep(s.last()) {
        seq![]
    } else {
        after_last_sep(s.drop_last()).push(s.last())
    }
}

/// What comes before the last separator, if there is one.
pub open spec fn before_last_sep(s: Seq<char>) -> Option<Seq<char>>
    decreases s.len(),
{
    if s.len() == 0 {
        None
    } else if is_sep(s.last()) {
        Some(s.drop_last())
    } else {
        before_last_sep(s.drop_last())
    }
}

/// Separators taken off the front.
pub open spec fn trim_start_seps(s: Seq<char>) -> Seq<char>
    decreases s.len(),
{
    if s.len() > 0 && is_sep(s[0]) {
        trim_start_seps(s.drop_first())
    } else {
        s
    }
}

/// Separators taken off the end.
pub open spec fn trim_end_seps(s: Seq<char>) -> Seq<char>
    decreases s.len(),
{
    if s.len() > 0 && is_sep(s.last()) {
        trim_end_seps(s.drop_last())
    } else {
        s
    }
}

/// A file's own name, without whatever folder was written in front of it.
pub open spec fn own_name_of(named: Seq<char>) -> Seq<char> {
    trim(after_last_sep(named))
}

/// The project a name points at, when it is not this one.
pub open spec fn elsewhere_of(named: Seq<char>, project: Seq<char>) -> Option<Seq<char>> {
    let n = trim_start_seps(trim(named));
    match before_last_sep(n) {
        None => None,
        Some(f) => {
            let folder = trim_end_seps(trim(f));
            if folder.len() > 0 && folder != project {
                Some(folder)
            } else {
                None
            }
        },
    }
}

proof fn lemma_no_sep_tail(s: Seq<char>, i: int)
    requires
        0 <= i <= s.len(),
        forall|j: int| i <= j < s.len() ==> !is_sep(#[trigger] s[j]),
    ensures
        after_last_sep(s) == after_last_sep(s.take(i)) + s.skip(i),
        before_last_sep(s) == before_last_sep(s.take(i)),
    decreases s.len() - i,
{
    if i == s.len() {
        assert(s.take(i) =~= s);
        assert(after_last_sep(s.take(i)) + s.skip(i) =~= after_last_sep(s.take(i)));
    } else {
        let d = s.drop_last();
        lemma_no_sep_tail(d, i);
        assert(d.take(i) =~= s.take(i));
        assert(d.skip(i).push(s.last()) =~= s.skip(i));
        assert((after_last_sep(d.take(i)) + d.skip(i)).push(s.last()) =~= after_last_sep(s.take(i))
            + s.skip(i));
    }
}

/// Where the last separator stands, if there is one.
fn last_sep(v: &[char]) -> (r: Option<usize>)
    ensures
        r matches Some(p) ==> p < v@.len() && is_sep(v@[p as int]) && after_last_sep(v@) == v@.skip(
            p + 1,
        ) && before_last_sep(v@) == Some(v@.take(p as int)),
        r is None ==> after_last_sep(v@) == v@ && before_last_sep(v@) is None,
{
    let mut i = v.len();
    while i > 0 && v[i - 1] != '/' && v[i - 1] != '\\'
        invariant
            i <= v@.len(),
            forall|j: int| i <= j < v@.len() ==> !is_sep(#[trigger] v@[j]),
        decreases i,
    {
        i = i - 1;
    }
    proof {
        lemma_no_sep_tail(v@, i as int);
    }
    if i == 0 {
        assert(v@.take(0) =~= seq![]);
        assert(seq![] + v@.skip(0) =~= v@);
        None
    } else {
        let ghost t = v@.take(i as int);
        assert(t.drop_last() =~= v@.take(i - 1));
        assert(seq![] + v@.skip(i as int) =~= v@.skip(i as int));
        Some(i - 1)
    }
}

/// What comes after the last separator, or all of it.
pub fn after_last_sep_chars(v: &[char]) -> (r: Vec<char>)
    ensures
        r@ == after_last_sep(v@),
{
    let len = v.len();
    match last_sep(v) {
        None => slice(v, 0, len),
        Some(p) => slice(v, p + 1, len),
    }
}

/// A file's own name, without whatever folder was written in front of it.
pub fn own_name_chars(named: &[char]) -> (r: Vec<char>)
    ensures
        r@ == own_name_of(named@),
{
    let len = named.len();
    let tail = match last_sep(named) {
        None => slice(named, 0, named.len()),
        Some(p) => slice(named, p + 1, named.len()),
    };
    assert(tail@ =~= after_last_sep(named@));
    trimmed(&tail)
}

/// A file's own name, without whatever folder was written in front of it.
pub fn own_name(named: &str) -> (r: String)
    ensures
        r@ == own_name_of(named@),
{
    string_of(&own_name_chars(&chars_of(named)))
}

/// Separators taken off the front.
fn trimmed_start_seps(v: &[char]) -> (r: Vec<char>)
    ensures
        r@ == trim_start_seps(v@),
{
    let mut i: usize = 0;
    assert(v@.skip(0) =~= v@);
    while i < v.len() && (v[i] == '/' || v[i] == '\\')
        invariant
            i <= v@.len(),
            trim_start_seps(v@.skip(i as int)) == trim_start_seps(v@),
        decreases v.len() - i,
    {
        assert(v@.skip(i as int).drop_first() =~= v@.skip(i + 1));
        i = i + 1;
    }
    slice(v, i, v.len())
}

/// Separators taken off the end.
fn trimmed_end_seps(v: &[char]) -> (r: Vec<char>)
    ensures
        r@ == trim_end_seps(v@),
{
    let mut n = v.len();
    assert(v@.take(n as int) =~= v@);
    while n > 0 && (v[n - 1] == '/' || v[n - 1] == '\\')
        invariant
            n <= v@.len(),
            trim_end_seps(v@.take(n as int)) == trim_end_seps(v@),
        decreases n,
    {
        assert(v@.take(n as int).drop_last() =~= v@.take(n - 1));
        n = n - 1;
    }
    slice(v, 0, n)
}

/// The project a name points at, when it is not this one.
pub fn elsewhere_chars(named: &[char], project: &[char]) -> (r: Option<Vec<char>>)
    ensures
        r matches Some(f) ==> elsewhere_of(named@, project@) == Some(f@),
        r is None ==> elsewhere_of(named@, project@) is None,
{
    let n = trimmed_start_seps(&trimmed(named));
    match last_sep(&n) {
        None => None,
        Some(p) => {
            let f = slice(&n, 0, p);
            let folder = trimmed_end_seps(&trimmed(&f));
            if folder.len() > 0 && !same(&folder, project) {
                Some(folder)
            } else {
                None
            }
        },
    }
}

/// The project a name points at, when it is not this one.
///
/// A change may name a file with its folder in front. When the folder is the
/// project being looked at, or there is no folder, the name means a file
/// here; when it is some other project, the change is for a file this
/// conversation cannot reach.
pub fn elsewhere(named: &str, project: &str) -> (r: Option<String>)
    ensures
        r matches Some(f) ==> elsewhere_of(named@, project@) == Some(f@),
        r is None ==> elsewhere_of(named@, project@) is None,
{
    match elsewhere_chars(&chars_of(named), &chars_of(project)) {
        None => None,
        Some(f) => Some(string_of(&f)),
    }
}

// ---------------------------------------------------------------- blocks

/// The kinds of block a reply can propose a change in.
#[derive(Clone, Copy, PartialEq, Eq, Debug, Structural)]
pub enum Kind {
    Edit,
    Write,
    Create,
    Delete,
    Merge,
}

/// The word a kind of block is written with.
pub open spec fn kind_word(k: Kind) -> Seq<char> {
    match k {
        Kind::Edit => seq!['e', 'd', 'i', 't'],
        Kind::Write => seq!['w', 'r', 'i', 't', 'e'],
        Kind::Create => seq!['c', 'r', 'e', 'a', 't', 'e'],
        Kind::Delete => seq!['d', 'e', 'l', 'e', 't', 'e'],
        Kind::Merge => seq!['m', 'e', 'r', 'g', 'e'],
    }
}

/// How a block of this kind opens: `<edit`.
pub open spec fn opener(k: Kind) -> Seq<char> {
    seq!['<'] + kind_word(k)
}

/// How a block of this kind closes: `</edit>`.
pub open spec fn shut_of(k: Kind) -> Seq<char> {
    seq!['<', '/'] + kind_word(k) + seq!['>']
}

impl Kind {
    /// The word this kind of block is written with.
    pub fn word(&self) -> (r: &'static str)
        ensures
            r@ == kind_word(*self),
    {
        proof {
            reveal_strlit("edit");
            reveal_strlit("write");
            reveal_strlit("create");
            reveal_strlit("delete");
            reveal_strlit("merge");
        }
        match self {
            Kind::Edit => "edit",
            Kind::Write => "write",
            Kind::Create => "create",
            Kind::Delete => "delete",
            Kind::Merge => "merge",
        }
    }

    /// How a block of this kind opens.
    pub fn opener(&self) -> (r: Vec<char>)
        ensures
            r@ == opener(*self),
    {
        let mut v = vec!['<'];
        push_str(&mut v, self.word());
        v
    }

    /// How a block of this kind closes.
    pub fn shut(&self) -> (r: Vec<char>)
        ensures
            r@ == shut_of(*self),
    {
        let mut v = vec!['<', '/'];
        push_str(&mut v, self.word());
        v.push('>');
        v
    }
}

/// A block found where it was looked for, with its kind.
pub open spec fn found_kind(text: Seq<char>, at: int, k: Kind) -> Option<(int, Kind)> {
    match find_from(text, opener(k), at) {
        Some(i) => Some((i, k)),
        None => None,
    }
}

/// The earlier of two finds, the first on a tie.
pub open spec fn first_of(a: Option<(int, Kind)>, b: Option<(int, Kind)>) -> Option<(int, Kind)> {
    match (a, b) {
        (None, _) => b,
        (_, None) => a,
        (Some(x), Some(y)) => if y.0 < x.0 {
            b
        } else {
            a
        },
    }
}

/// Where the next block opens, at `at` or after, and its kind.
pub open spec fn next_block(text: Seq<char>, at: int) -> Option<(int, Kind)> {
    first_of(
        first_of(
            first_of(
                first_of(found_kind(text, at, Kind::Edit), found_kind(text, at, Kind::Write)),
                found_kind(text, at, Kind::Create),
            ),
            found_kind(text, at, Kind::Delete),
        ),
        found_kind(text, at, Kind::Merge),
    )
}

pub proof fn lemma_next_block(text: Seq<char>, at: int)
    requires
        0 <= at,
    ensures
        next_block(text, at) matches Some((s, k)) ==> at <= s && occurs_at(text, opener(k), s) && s
            < text.len(),
{
    lemma_find_from(text, opener(Kind::Edit), at);
    lemma_find_from(text, opener(Kind::Write), at);
    lemma_find_from(text, opener(Kind::Create), at);
    lemma_find_from(text, opener(Kind::Delete), at);
    lemma_find_from(text, opener(Kind::Merge), at);
}

/// The first `>` or line break at `i` or after.
pub open spec fn stop_from(text: Seq<char>, i: int) -> Option<int>
    decreases text.len() - i,
{
    if i < 0 || i >= text.len() {
        None
    } else if text[i] == '>' || text[i] == '\n' {
        Some(i)
    } else {
        stop_from(text, i + 1)
    }
}

pub proof fn lemma_stop_from(text: Seq<char>, i: int)
    requires
        0 <= i,
    ensures
        stop_from(text, i) matches Some(j) ==> i <= j < text.len() && (text[j] == '>' || text[j]
            == '\n'),
        stop_from(text, i) is None ==> forall|j: int|
            i <= j < text.len() ==> text[j] != '>' && text[j] != '\n',
    decreases text.len() - i,
{
    if i < text.len() && !(text[i] == '>' || text[i] == '\n') {
        lemma_stop_from(text, i + 1);
        assert forall|j: int| i <= j < text.len() && stop_from(text, i) is None implies text[j]
            != '>' && text[j] != '\n' by {
            if j > i {
            }
        }
    }
}

/// Where a tag opened at `start` ends: after its `>`, or at the end of its
/// line when the `>` was left off.
pub open spec fn tag_close(text: Seq<char>, start: int) -> Option<int> {
    match stop_from(text, start + 1) {
        None => None,
        Some(j) => Some(
            if text[j] == '>' {
                j + 1
            } else {
                j
            },
        ),
    }
}

/// The first quoted stretch that holds `start`: where it ends.
pub open spec fn cover(qs: Seq<(int, int)>, start: int) -> Option<int>
    decreases qs.len(),
{
    if qs.len() == 0 {
        None
    } else if qs[0].0 <= start < qs[0].1 {
        Some(qs[0].1)
    } else {
        cover(qs.drop_first(), start)
    }
}

pub proof fn lemma_cover(qs: Seq<(int, int)>, start: int)
    ensures
        cover(qs, start) matches Some(e) ==> start < e && exists|i: int|
            0 <= i < qs.len() && #[trigger] qs[i].1 == e,
    decreases qs.len(),
{
    if qs.len() > 0 && !(qs[0].0 <= start < qs[0].1) {
        lemma_cover(qs.drop_first(), start);
        if cover(qs, start) is Some {
            let i = choose|i: int| 0 <= i < qs.drop_first().len() && #[trigger] qs.drop_first()[i].1
                == cover(qs, start)->0;
            assert(qs[i + 1].1 == cover(qs, start)->0);
        }
    } else if qs.len() > 0 {
        assert(qs[0].1 == cover(qs, start)->0);
    }
}

/// The answers of tools, quoted whole in a reply, from `scan` on: each as
/// where it starts and where it ends.
pub open spec fn quoted_from(text: Seq<char>, scan: int) -> Seq<(int, int)>
    decreases text.len() - scan,
{
    if scan < 0 || scan > text.len() {
        seq![]
    } else {
        match find_from(text, seq!['<', 'u', 's', 'e', 'd'], scan) {
            None => seq![],
            Some(from) => {
                let end = match find_from(
                    text,
                    seq!['<', '/', 'u', 's', 'e', 'd', '>'],
                    from,
                ) {
                    Some(j) => j + 7,
                    None => text.len() as int,
                };
                proof {
                    lemma_find_from(text, seq!['<', 'u', 's', 'e', 'd'], scan);
                    lemma_find_from(text, seq!['<', '/', 'u', 's', 'e', 'd', '>'], from);
                }
                if end <= scan || end > text.len() {
                    seq![(from, end)]
                } else {
                    seq![(from, end)] + quoted_from(text, end)
                }
            },
        }
    }
}

/// Where the blocks are, from `at` on, given the quoted stretches and
/// whether a code fence is open: which kind, the tag's start, where its body
/// starts, and where its body ends.
///
/// A block inside a fence is one being talked about rather than one being
/// made, and so is one inside a tool's quoted answer. A tag ends at its `>`,
/// or at the end of its line when the `>` was left off. A delete is its tag
/// alone when nothing closes it; any other opener that nothing closes is
/// stepped over, and what is inside it is still read.
pub open spec fn blocks_from(text: Seq<char>, qs: Seq<(int, int)>, at: int, in_code: bool) -> Seq<
    (Kind, int, int, int),
>
    decreases text.len() - at,
{
    if at < 0 || at > text.len() {
        seq![]
    } else {
        match next_block(text, at) {
            None => seq![],
            Some((start, kind)) => {
                proof {
                    lemma_next_block(text, at);
                    lemma_cover(qs, start);
                }
                let code = in_code != odd_fences(text.subrange(at, start));
                if code {
                    blocks_from(text, qs, start + 1, code)
                } else {
                    match cover(qs, start) {
                        Some(end) => if end <= text.len() {
                            blocks_from(text, qs, end, code)
                        } else {
                            seq![]
                        },
                        None => match tag_close(text, start) {
                            None => seq![],
                            Some(open) => {
                                proof {
                                    lemma_stop_from(text, start + 1);
                                    lemma_find_from(text, shut_of(kind), open);
                                }
                                match find_from(text, shut_of(kind), open) {
                                    None => if kind == Kind::Delete {
                                        seq![(kind, start, open, open)] + blocks_from(
                                            text,
                                            qs,
                                            open,
                                            code,
                                        )
                                    } else {
                                        blocks_from(text, qs, open, code)
                                    },
                                    Some(close) => seq![(kind, start, open, close)] + blocks_from(
                                        text,
                                        qs,
                                        close + shut_of(kind).len(),
                                        code,
                                    ),
                                }
                            },
                        },
                    }
                }
            },
        }
    }
}

/// Every block in a text. See `blocks_from`.
pub open spec fn blocks_of(text: Seq<char>) -> Seq<(Kind, int, int, int)> {
    blocks_from(text, quoted_from(text, 0), 0, false)
}

/// Where a block ends, given where its body ends: after the closing tag, or
/// right where the body would be for a delete written as a lone tag.
pub open spec fn block_end_of(text: Seq<char>, k: Kind, close: int) -> int {
    if occurs_at(text, shut_of(k), close) {
        close + shut_of(k).len()
    } else {
        close
    }
}

/// Blocks that lie in order in the text, each after the end of the one
/// before, each with its tag before its body.
pub open spec fn in_order(text: Seq<char>, bs: Seq<(Kind, int, int, int)>) -> bool {
    &&& forall|i: int|
        0 <= i < bs.len() ==> 0 <= #[trigger] bs[i].1 < bs[i].2 <= bs[i].3 <= block_end_of(
            text,
            bs[i].0,
            bs[i].3,
        ) <= text.len()
    &&& forall|i: int|
        0 < i < bs.len() ==> block_end_of(text, bs[i - 1].0, bs[i - 1].3) <= #[trigger] bs[i].1
}

/// Spans as numbers.
pub open spec fn spans(v: Seq<(Kind, usize, usize, usize)>) -> Seq<(Kind, int, int, int)> {
    v.map_values(|b: (Kind, usize, usize, usize)| (b.0, b.1 as int, b.2 as int, b.3 as int))
}

/// Stretches as numbers.
pub open spec fn pairs(v: Seq<(usize, usize)>) -> Seq<(int, int)> {
    v.map_values(|p: (usize, usize)| (p.0 as int, p.1 as int))
}

/// Where a block ends, given where its body ends.
pub fn block_end(text: &[char], kind: Kind, close: usize) -> (r: usize)
    requires
        close <= text@.len(),
    ensures
        r == block_end_of(text@, kind, close as int),
        close <= r <= text@.len(),
{
    let len = text.len();
    let shut = kind.shut();
    if at(text, &shut, close) {
        close + shut.len()
    } else {
        close
    }
}

/// The answers of tools quoted whole in a reply.
fn quoted(text: &[char]) -> (r: Vec<(usize, usize)>)
    ensures
        pairs(r@) == quoted_from(text@, 0),
        forall|i: int| 0 <= i < r@.len() ==> #[trigger] r@[i].1 <= text@.len(),
{
    let len = text.len();
    let used = vec!['<', 'u', 's', 'e', 'd'];
    let shut = vec!['<', '/', 'u', 's', 'e', 'd', '>'];
    let mut out: Vec<(usize, usize)> = Vec::new();
    let mut scan: usize = 0;
    loop
        invariant
            scan <= len,
            len == text@.len(),
            used@ == seq!['<', 'u', 's', 'e', 'd'],
            shut@ == seq!['<', '/', 'u', 's', 'e', 'd', '>'],
            quoted_from(text@, 0) == pairs(out@) + quoted_from(text@, scan as int),
            forall|i: int| 0 <= i < out@.len() ==> #[trigger] out@[i].1 <= len,
        decreases len - scan,
    {
        let ghost before = out@;
        let from = match find_at(text, &used, scan) {
            None => {
                assert(pairs(out@) + seq![] =~= pairs(out@));
                return out;
            },
            Some(f) => f,
        };
        proof {
            lemma_find_from(text@, used@, scan as int);
        }
        let end = match find_at(text, &shut, from) {
            Some(j) => {
                proof {
                    lemma_find_from(text@, shut@, from as int);
                }
                j + 7
            },
            None => len,
        };
        out.push((from, end));
        assert(pairs(out@) =~= pairs(before).push((from as int, end as int)));
        if end <= scan {
            assert(false);
        }
        assert(pairs(out@) + quoted_from(text@, end as int) =~= pairs(before) + (seq![
            (from as int, end as int),
        ] + quoted_from(text@, end as int)));
        scan = end;
    }
}

/// The first quoted stretch that holds `start`: where it ends.
fn covering(qs: &Vec<(usize, usize)>, start: usize) -> (r: Option<usize>)
    ensures
        r matches Some(e) ==> cover(pairs(qs@), start as int) == Some(e as int) && exists|i: int|
            0 <= i < qs@.len() && #[trigger] qs@[i].1 == e,
        r is None ==> cover(pairs(qs@), start as int) is None,
{
    let mut i: usize = 0;
    let ghost all = pairs(qs@);
    assert(all.skip(0) =~= all);
    while i < qs.len()
        invariant
            i <= qs@.len(),
            all == pairs(qs@),
            cover(all.skip(i as int), start as int) == cover(all, start as int),
        decreases qs.len() - i,
    {
        let (a, b) = qs[i];
        if a <= start && start < b {
            return Some(b);
        }
        assert(all.skip(i as int).drop_first() =~= all.skip(i + 1));
        i = i + 1;
    }
    None
}

/// Where the next block opens, at `at` or after, and its kind.
fn next_in(text: &[char], at: usize) -> (r: Option<(usize, Kind)>)
    ensures
        r matches Some((s, k)) ==> next_block(text@, at as int) == Some((s as int, k)),
        r is None ==> next_block(text@, at as int) is None,
{
    let mut best: Option<(usize, Kind)> = None;
    let ghost mut spec_best: Option<(int, Kind)> = None;
    let kinds = [Kind::Edit, Kind::Write, Kind::Create, Kind::Delete, Kind::Merge];
    let mut i: usize = 0;
    while i < 5
        invariant
            i <= 5,
            kinds@ == seq![Kind::Edit, Kind::Write, Kind::Create, Kind::Delete, Kind::Merge],
            (i == 0 ==> spec_best == None::<(int, Kind)>),
            (i == 1 ==> spec_best == found_kind(text@, at as int, Kind::Edit)),
            (i == 2 ==> spec_best == first_of(
                found_kind(text@, at as int, Kind::Edit),
                found_kind(text@, at as int, Kind::Write),
            )),
            (i == 3 ==> spec_best == first_of(
                first_of(
                    found_kind(text@, at as int, Kind::Edit),
                    found_kind(text@, at as int, Kind::Write),
                ),
                found_kind(text@, at as int, Kind::Create),
            )),
            (i == 4 ==> spec_best == first_of(
                first_of(
                    first_of(
                        found_kind(text@, at as int, Kind::Edit),
                        found_kind(text@, at as int, Kind::Write),
                    ),
                    found_kind(text@, at as int, Kind::Create),
                ),
                found_kind(text@, at as int, Kind::Delete),
            )),
            (i == 5 ==> spec_best == next_block(text@, at as int)),
            best matches Some((s, k)) ==> spec_best == Some((s as int, k)),
            best is None ==> spec_best is None,
        decreases 5 - i,
    {
        let k = kinds[i];
        let o = k.opener();
        let found = find_at(text, &o, at);
        let ghost f = found_kind(text@, at as int, k);
        proof {
            spec_best = first_of(spec_best, f);
        }
        match found {
            Some(p) => {
                match best {
                    Some((q, _)) => {
                        if p < q {
                            best = Some((p, k));
                        }
                    },
                    None => {
                        best = Some((p, k));
                    },
                }
            },
            None => {},
        }
        i = i + 1;
    }
    best
}

/// The first `>` or line break at `i` or after.
fn stop_in(text: &[char], i: usize) -> (r: Option<usize>)
    ensures
        r matches Some(j) ==> stop_from(text@, i as int) == Some(j as int),
        r is None ==> stop_from(text@, i as int) is None,
{
    let mut j = i;
    while j < text.len()
        invariant
            i <= j,
            stop_from(text@, j as int) == stop_from(text@, i as int),
        decreases text@.len() - j,
    {
        if text[j] == '>' || text[j] == '\n' {
            return Some(j);
        }
        j = j + 1;
    }
    None
}

/// A block as a sequence of none or one.
pub open spec fn one(b: Option<(Kind, int, int, int)>) -> Seq<(Kind, int, int, int)> {
    match b {
        Some(x) => seq![x],
        None => seq![],
    }
}

/// A span as numbers.
pub open spec fn span(b: (Kind, usize, usize, usize)) -> (Kind, int, int, int) {
    (b.0, b.1 as int, b.2 as int, b.3 as int)
}

/// One step of the walk for blocks: the block found at this step, if any,
/// where the walk goes on from, and whether a fence is open there; or `None`
/// where the walk ends.
fn block_step(text: &[char], qs: &Vec<(usize, usize)>, at: usize, in_code: bool) -> (r: Option<
    (Option<(Kind, usize, usize, usize)>, usize, bool),
>)
    requires
        at <= text@.len(),
        forall|i: int| 0 <= i < qs@.len() ==> #[trigger] qs@[i].1 <= text@.len(),
    ensures
        r is None ==> blocks_from(text@, pairs(qs@), at as int, in_code).len() == 0,
        r matches Some((b, next, code)) ==> {
            &&& at < next <= text@.len()
            &&& blocks_from(text@, pairs(qs@), at as int, in_code) == one(
                match b {
                    Some(x) => Some(span(x)),
                    None => None,
                },
            ) + blocks_from(text@, pairs(qs@), next as int, code)
            &&& b matches Some(x) ==> at <= x.1 < x.2 <= x.3 <= block_end_of(text@, x.0, x.3 as int)
                <= next
        },
{
    let ghost q = pairs(qs@);
    let len = text.len();
    let (start, kind) = match next_in(text, at) {
        None => return None,
        Some(n) => n,
    };
    proof {
        lemma_next_block(text@, at as int);
    }
    let between = slice(text, at, start);
    let code = in_code != fences(&between);
    if code {
        return Some((None, start + 1, code));
    }
    match covering(qs, start) {
        Some(end) => {
            proof {
                lemma_cover(q, start as int);
            }
            return Some((None, end, code));
        },
        None => {},
    }
    let open = match stop_in(text, start + 1) {
        None => return None,
        Some(j) => {
            proof {
                lemma_stop_from(text@, start + 1);
            }
            if text[j] == '>' {
                j + 1
            } else {
                j
            }
        },
    };
    let shut = kind.shut();
    proof {
        lemma_find_from(text@, shut@, open as int);
    }
    match find_at(text, &shut, open) {
        None => {
            if kind == Kind::Delete {
                assert(!occurs_at(text@, shut_of(kind), open as int));
                Some((Some((kind, start, open, open)), open, code))
            } else {
                Some((None, open, code))
            }
        },
        Some(close) => {
            assert(occurs_at(text@, shut_of(kind), close as int));
            Some((Some((kind, start, open, close)), close + shut.len(), code))
        },
    }
}

/// Where the blocks are: which kind, the tag's start, where its body starts,
/// and where its body ends.
///
/// A block inside a fence is a block being talked about rather than one
/// being made, and counting the fences passed on the way to it is enough to
/// tell which.
pub fn blocks(text: &[char]) -> (r: Vec<(Kind, usize, usize, usize)>)
    ensures
        spans(r@) == blocks_of(text@),
        in_order(text@, spans(r@)),
{
    let len = text.len();
    let qs = quoted(text);
    let ghost q = pairs(qs@);
    let mut out: Vec<(Kind, usize, usize, usize)> = Vec::new();
    let mut at: usize = 0;
    let mut in_code = false;
    loop
        invariant
            at <= len,
            len == text@.len(),
            q == pairs(qs@),
            q == quoted_from(text@, 0),
            forall|i: int| 0 <= i < qs@.len() ==> #[trigger] qs@[i].1 <= len,
            blocks_of(text@) == spans(out@) + blocks_from(text@, q, at as int, in_code),
            in_order(text@, spans(out@)),
            out@.len() > 0 ==> block_end_of(text@, out@.last().0, out@.last().3 as int) <= at,
        decreases len - at,
    {
        let ghost before = out@;
        match block_step(text, &qs, at, in_code) {
            None => {
                assert(spans(out@) + blocks_from(text@, q, at as int, in_code) =~= spans(out@));
                return out;
            },
            Some((b, next, code)) => {
                match b {
                    Some(x) => {
                        out.push(x);
                        assert(spans(out@) =~= spans(before).push(span(x)));
                        assert(spans(out@) + blocks_from(text@, q, next as int, code) =~= spans(before)
                            + (seq![span(x)] + blocks_from(text@, q, next as int, code)));
                        assert forall|i: int| 0 < i < spans(out@).len() implies block_end_of(
                            text@,
                            spans(out@)[i - 1].0,
                            spans(out@)[i - 1].3,
                        ) <= #[trigger] spans(out@)[i].1 by {
                            if i < spans(before).len() {
                                assert(spans(out@)[i - 1] == spans(before)[i - 1]);
                                assert(spans(out@)[i] == spans(before)[i]);
                            }
                        }
                        assert forall|i: int| 0 <= i < spans(out@).len() implies 0
                            <= #[trigger] spans(out@)[i].1 < spans(out@)[i].2 <= spans(out@)[i].3
                            <= block_end_of(text@, spans(out@)[i].0, spans(out@)[i].3)
                            <= text@.len() by {
                            if i < spans(before).len() {
                                assert(spans(out@)[i] == spans(before)[i]);
                            }
                        }
                    },
                    None => {
                        assert(spans(out@) + blocks_from(text@, q, next as int, code) =~= spans(out@)
                            + (seq![] + blocks_from(text@, q, next as int, code)));
                    },
                }
                at = next;
                in_code = code;
            },
        }
    }
}

// --------------------------------------------------------------- changes

/// The files a conversation is about, as they are now.
///
/// Borrowed for the frame rather than copied: a project is every note in a
/// folder, and copying all of them to draw one diff would be a strange price.
pub struct Folder<'a> {
    /// The project these files are, by its folder name - empty for the notes
    /// that sit loose at the top of the vault.
    pub project: String,
    /// The note in front of you, which is what an unqualified change means.
    pub here: String,
    pub files: Vec<(String, &'a [String])>,
}

/// Something the model has offered to do to the project.
///
/// Line numbers rather than text to find: the files are shown numbered, and a
/// number cannot be misquoted. Both are one-based and inclusive, the way they
/// are written in the margin.
#[derive(Clone, Debug, PartialEq, Eq)]
pub struct Change {
    /// Which file, by name within the project. None means the note in front of
    /// you, which is what an unqualified change is about.
    pub file: Option<String>,
    pub what: What,
    /// What was decided about it, once something was: kept in the transcript,
    /// so a conversation reopened tomorrow does not offer it again.
    pub state: Option<bool>,
}

/// The things a change can offer to do.
#[derive(Clone, Debug, PartialEq, Eq)]
pub enum What {
    /// Replace these lines with this text. Empty text takes them out.
    Edit { from: usize, to: usize, text: String },
    /// Put this text in below this line, moving nothing. Zero is the top.
    Insert { after: usize, text: String },
    /// What the file should contain from now on, whether or not it is there
    /// yet.
    Write { text: String },
    /// What a file that is not there yet should say: an `edit` with a file
    /// named and no lines. For a file that is there it means nothing.
    Lay { text: String },
    /// A file that should not be there any more.
    Delete,
    /// Several files folded into one, and the ones folded in taken away.
    Merge {
        /// What is being folded in. The target may be one of them, and then it
        /// is written rather than removed.
        from: Vec<String>,
        /// What the result should say. Empty means the parts, end to end, in
        /// the order they were named.
        text: String,
    },
}

/// What a change offers, as values.
pub enum Offer {
    Edit { from: usize, to: usize, text: Seq<char> },
    Insert { after: usize, text: Seq<char> },
    Write { text: Seq<char> },
    Lay { text: Seq<char> },
    Delete,
    Merge { from: Seq<Seq<char>>, text: Seq<char> },
}

/// A change, as values.
pub struct Proposal {
    pub file: Option<Seq<char>>,
    pub what: Offer,
    pub state: Option<bool>,
}

/// A name, as values.
pub open spec fn name_view(n: Option<String>) -> Option<Seq<char>> {
    match n {
        Some(s) => Some(s@),
        None => None,
    }
}

/// A list of changes, as values.
pub open spec fn proposals_view(v: Seq<Change>) -> Seq<Proposal> {
    v.map_values(|c: Change| c@)
}

impl View for What {
    type V = Offer;

    open spec fn view(&self) -> Offer {
        match self {
            What::Edit { from, to, text } => Offer::Edit { from: *from, to: *to, text: text@ },
            What::Insert { after, text } => Offer::Insert { after: *after, text: text@ },
            What::Write { text } => Offer::Write { text: text@ },
            What::Lay { text } => Offer::Lay { text: text@ },
            What::Delete => Offer::Delete,
            What::Merge { from, text } => Offer::Merge { from: crate::strs::texts(from@), text: text@ },
        }
    }
}

impl View for Change {
    type V = Proposal;

    open spec fn view(&self) -> Proposal {
        Proposal { file: name_view(self.file), what: self.what@, state: self.state }
    }
}

/// A name as a string, if there is one.
pub fn name_string(n: &Option<Vec<char>>) -> (r: Option<String>)
    ensures
        name_view(r) == match n {
            Some(v) => Some(v@),
            None => None::<Seq<char>>,
        },
{
    match n {
        Some(v) => Some(string_of(v)),
        None => None,
    }
}

/// A copy of a list of strings.
pub fn copy_strings(v: &Vec<String>) -> (r: Vec<String>)
    ensures
        crate::strs::texts(r@) == crate::strs::texts(v@),
{
    let mut out: Vec<String> = Vec::new();
    let mut i: usize = 0;
    while i < v.len()
        invariant
            i <= v@.len(),
            crate::strs::texts(out@) == crate::strs::texts(v@).take(i as int),
        decreases v.len() - i,
    {
        let ghost before = out@;
        let c = v[i].clone();
        out.push(c);
        assert(crate::strs::texts(out@) =~= crate::strs::texts(before).push(c@));
        assert(crate::strs::texts(v@).take(i + 1) =~= crate::strs::texts(v@).take(i as int).push(v@[i as int]@));
        i = i + 1;
    }
    assert(crate::strs::texts(v@).take(v@.len() as int) =~= crate::strs::texts(v@));
    out
}

impl What {
    /// The same offer, copied.
    pub fn copy(&self) -> (r: What)
        ensures
            r@ == self@,
    {
        match self {
            What::Edit { from, to, text } => What::Edit { from: *from, to: *to, text: text.clone() },
            What::Insert { after, text } => What::Insert { after: *after, text: text.clone() },
            What::Write { text } => What::Write { text: text.clone() },
            What::Lay { text } => What::Lay { text: text.clone() },
            What::Delete => What::Delete,
            What::Merge { from, text } => What::Merge { from: copy_strings(from), text: text.clone() },
        }
    }
}

impl Change {
    /// The same change, copied.
    pub fn copy(&self) -> (r: Change)
        ensures
            r@ == self@,
    {
        let file = match &self.file {
            Some(f) => Some(f.clone()),
            None => None,
        };
        Change { file, what: self.what.copy(), state: self.state }
    }
}

// ------------------------------------------------------- reading a reply

/// `s` with every leading `c` taken off.
pub open spec fn trim_start_char(s: Seq<char>, c: char) -> Seq<char>
    decreases s.len(),
{
    if s.len() > 0 && s[0] == c {
        trim_start_char(s.drop_first(), c)
    } else {
        s
    }
}

/// `v` with every leading `c` taken off.
pub fn trimmed_start_char(v: &[char], c: char) -> (r: Vec<char>)
    ensures
        r@ == trim_start_char(v@, c),
{
    let mut i: usize = 0;
    assert(v@.skip(0) =~= v@);
    while i < v.len() && v[i] == c
        invariant
            i <= v@.len(),
            trim_start_char(v@.skip(i as int), c) == trim_start_char(v@, c),
        decreases v.len() - i,
    {
        assert(v@.skip(i as int).drop_first() =~= v@.skip(i + 1));
        i = i + 1;
    }
    slice(v, i, v.len())
}

/// A block's tag.
pub open spec fn head_of(text: Seq<char>, b: (Kind, int, int, int)) -> Seq<char> {
    text.subrange(b.1, b.2)
}

/// A block's body, with the line breaks at either end of it taken off.
pub open spec fn body_of(text: Seq<char>, b: (Kind, int, int, int)) -> Seq<char> {
    trim_end_char(trim_start_char(text.subrange(b.2, b.3), '\n'), '\n')
}

/// The file a tag names: `into` for a merge, which reads as what it is, and
/// `file` for the rest; either spelling is taken for either.
pub open spec fn named_of(head: Seq<char>) -> Option<Seq<char>> {
    match attr_of(head, "into"@) {
        Some(n) => Some(n),
        None => attr_of(head, "file"@),
    }
}

/// `after="3"` on an edit.
pub open spec fn after_of(head: Seq<char>) -> Option<usize> {
    match attr_of(head, "after"@) {
        Some(a) => parse_count(trim(a)),
        None => None,
    }
}

/// What a block of this kind, with this tag and body, offers; nothing when it
/// is not a block this understands.
///
/// An edit with `after` is an insert, one with `lines` an edit of them, and
/// one with neither but a file named is what a file not there yet should say.
/// The rest are about a file by name and mean nothing without one; `create`
/// is read as `write`; a merge must name what it folds in.
pub open spec fn offer_of(kind: Kind, head: Seq<char>, body: Seq<char>) -> Option<Offer> {
    let named = named_of(head);
    match kind {
        Kind::Edit => match after_of(head) {
            Some(after) => Some(Offer::Insert { after, text: body }),
            None => match lines_attr_of(head) {
                Some((from, to)) => Some(Offer::Edit { from, to, text: body }),
                None => if named is Some {
                    Some(Offer::Lay { text: body })
                } else {
                    None
                },
            },
        },
        Kind::Write | Kind::Create => if named is Some {
            Some(Offer::Write { text: body })
        } else {
            None
        },
        Kind::Delete => if named is Some {
            Some(Offer::Delete)
        } else {
            None
        },
        Kind::Merge => if named is Some && names_of(head).len() > 0 {
            Some(Offer::Merge { from: names_of(head), text: body })
        } else {
            None
        },
    }
}

/// The change a block makes, if it makes one.
pub open spec fn proposal_of(text: Seq<char>, b: (Kind, int, int, int)) -> Option<Proposal> {
    let head = head_of(text, b);
    match offer_of(b.0, head, body_of(text, b)) {
        Some(w) => Some(Proposal { file: named_of(head), what: w, state: state_attr_of(head) }),
        None => None,
    }
}

/// The prose and the changes of the first blocks, and where the text goes on
/// after them. A block that is not understood is left in the prose.
pub open spec fn read_blocks(text: Seq<char>, bs: Seq<(Kind, int, int, int)>) -> (
    Seq<char>,
    Seq<Proposal>,
    int,
)
    decreases bs.len(),
{
    if bs.len() == 0 {
        (seq![], seq![], 0)
    } else {
        let (prose, cs, at) = read_blocks(text, bs.drop_last());
        let b = bs.last();
        let shut = block_end_of(text, b.0, b.3);
        match proposal_of(text, b) {
            Some(c) => (prose + text.subrange(at, b.1), cs.push(c), shut),
            None => (prose + text.subrange(at, shut), cs, shut),
        }
    }
}

/// A reply split into what it said, trimmed, and every change it proposed.
pub open spec fn every_proposal_of(reply: Seq<char>) -> (Seq<char>, Seq<Proposal>) {
    let (prose, cs, at) = read_blocks(reply, blocks_of(reply));
    (trim(prose + reply.skip(at)), cs)
}

/// `after="3"` on an edit.
fn after_attr(head: &[char]) -> (r: Option<usize>)
    ensures
        r == after_of(head@),
{
    match attr(head, "after") {
        Some(a) => count_of(&trimmed(&a)),
        None => None,
    }
}

/// The file a tag names.
pub fn named(head: &[char]) -> (r: Option<Vec<char>>)
    ensures
        r matches Some(v) ==> named_of(head@) == Some(v@),
        r is None ==> named_of(head@) is None,
{
    match attr(head, "into") {
        Some(n) => Some(n),
        None => attr(head, "file"),
    }
}

/// What a block of this kind, with this tag and body, offers.
fn offer(kind: Kind, head: &[char], body: &[char]) -> (r: Option<What>)
    ensures
        r matches Some(w) ==> offer_of(kind, head@, body@) == Some(w@),
        r is None ==> offer_of(kind, head@, body@) is None,
{
    let is_named = named(head).is_some();
    match kind {
        Kind::Edit => match after_attr(head) {
            Some(after) => Some(What::Insert { after, text: string_of(body) }),
            None => match lines_attr(head) {
                Some((from, to)) => Some(What::Edit { from, to, text: string_of(body) }),
                None => if is_named {
                    Some(What::Lay { text: string_of(body) })
                } else {
                    None
                },
            },
        },
        Kind::Write | Kind::Create => if is_named {
            Some(What::Write { text: string_of(body) })
        } else {
            None
        },
        Kind::Delete => if is_named {
            Some(What::Delete)
        } else {
            None
        },
        Kind::Merge => {
            let from = names(head);
            if is_named && from.len() > 0 {
                Some(What::Merge { from: crate::strs::strings_of(&from), text: string_of(body) })
            } else {
                None
            }
        },
    }
}

/// The change a block makes, if it makes one.
fn proposal_in(text: &[char], b: (Kind, usize, usize, usize)) -> (r: Option<Change>)
    requires
        b.1 <= b.2 <= b.3 <= text@.len(),
    ensures
        r matches Some(c) ==> proposal_of(text@, span(b)) == Some(c@),
        r is None ==> proposal_of(text@, span(b)) is None,
{
    let (kind, tag, open, close) = b;
    let head = slice(text, tag, open);
    let inner = slice(text, open, close);
    let body = trimmed_end_char(&trimmed_start_char(&inner, '\n'), '\n');
    match offer(kind, &head, &body) {
        Some(what) => {
            let file = name_string(&named(&head));
            Some(Change { file, what, state: state_attr(&head) })
        },
        None => None,
    }
}

/// Split a reply into what it said and every change it proposed, drafts and
/// all.
pub fn every_proposal(reply: &[char]) -> (r: (Vec<char>, Vec<Change>))
    ensures
        r.0@ == every_proposal_of(reply@).0,
        proposals_view(r.1@) == every_proposal_of(reply@).1,
{
    let bs = blocks(reply);
    let ghost all = spans(bs@);
    let mut prose: Vec<char> = Vec::new();
    let mut changes: Vec<Change> = Vec::new();
    let mut at: usize = 0;
    let mut k: usize = 0;
    while k < bs.len()
        invariant
            k <= bs@.len(),
            all == spans(bs@),
            all == blocks_of(reply@),
            in_order(reply@, all),
            at <= reply@.len(),
            k < bs@.len() ==> at <= all[k as int].1,
            read_blocks(reply@, all.take(k as int)) == (prose@, proposals_view(changes@), at as int),
        decreases bs.len() - k,
    {
        let b = bs[k];
        let ghost sb = all[k as int];
        assert(sb == span(b));
        assert(all.take(k + 1).drop_last() =~= all.take(k as int));
        assert(all.take(k + 1).last() == sb);
        let shut = block_end(reply, b.0, b.3);
        let ghost pv = prose@;
        let ghost cv = proposals_view(changes@);
        match proposal_in(reply, b) {
            Some(c) => {
                let part = slice(reply, at, b.1);
                push_all(&mut prose, &part);
                changes.push(c);
                assert(proposals_view(changes@) =~= cv.push(c@));
            },
            None => {
                let part = slice(reply, at, shut);
                push_all(&mut prose, &part);
            },
        }
        at = shut;
        k = k + 1;
        if k < bs.len() {
            assert(all[k - 1] == sb);
        }
    }
    assert(all.take(bs@.len() as int) =~= all);
    let tail = slice(reply, at, reply.len());
    push_all(&mut prose, &tail);
    assert(tail@ =~= reply@.skip(at as int));
    (trimmed(&prose), changes)
}

// ------------------------------------------------------ drafts and merges

/// How to say what a change is, in a few words.
pub open spec fn headline_of(c: Proposal, whose: Seq<char>) -> Seq<char> {
    let named = match c.file {
        Some(f) => f,
        None => whose,
    };
    match c.what {
        Offer::Edit { from, to, .. } => if from == to {
            named + "  LINE "@ + decimal(from as nat)
        } else {
            named + "  LINES "@ + decimal(from as nat) + "-"@ + decimal(to as nat)
        },
        Offer::Insert { after, .. } => if after == 0 {
            named + "  AT THE TOP"@
        } else {
            named + "  AFTER LINE "@ + decimal(after as nat)
        },
        Offer::Write { .. } | Offer::Lay { .. } => "WRITE  "@ + named,
        Offer::Delete => "DELETE  "@ + named,
        Offer::Merge { from, .. } => "MERGE  "@ + join(from, ", "@) + "  INTO  "@ + named,
    }
}

/// Whether a list of texts holds this one.
pub fn listed(list: &Vec<Vec<char>>, x: &[char]) -> (r: bool)
    ensures
        r == views(list@).contains(x@),
{
    let mut i: usize = 0;
    while i < list.len()
        invariant
            i <= list@.len(),
            forall|j: int| 0 <= j < i ==> #[trigger] views(list@)[j] != x@,
        decreases list.len() - i,
    {
        if same(&list[i], x) {
            assert(views(list@)[i as int] == x@);
            return true;
        }
        i = i + 1;
    }
    false
}

impl Change {
    /// How to say what it is, in a few words.
    pub fn headline(&self, whose: &str) -> (r: String)
        ensures
            r@ == headline_of(self@, whose@),
    {
        let named = match &self.file {
            Some(f) => chars_of(f.as_str()),
            None => chars_of(whose),
        };
        let mut v: Vec<char>;
        match &self.what {
            What::Edit { from, to, .. } => {
                v = copied_chars(&named);
                if *from == *to {
                    push_str(&mut v, "  LINE ");
                    write_usize(&mut v, *from);
                } else {
                    push_str(&mut v, "  LINES ");
                    write_usize(&mut v, *from);
                    push_str(&mut v, "-");
                    write_usize(&mut v, *to);
                }
            },
            What::Insert { after, .. } => {
                v = copied_chars(&named);
                if *after == 0 {
                    push_str(&mut v, "  AT THE TOP");
                } else {
                    push_str(&mut v, "  AFTER LINE ");
                    write_usize(&mut v, *after);
                }
            },
            What::Write { .. } | What::Lay { .. } => {
                v = chars_of("WRITE  ");
                push_all(&mut v, &named);
            },
            What::Delete => {
                v = chars_of("DELETE  ");
                push_all(&mut v, &named);
            },
            What::Merge { from, .. } => {
                v = chars_of("MERGE  ");
                let parts = chars_each(from.as_slice());
                let sep = chars_of(", ");
                let list = joined(&parts, &sep);
                push_all(&mut v, &list);
                push_str(&mut v, "  INTO  ");
                push_all(&mut v, &named);
            },
        }
        string_of(&v)
    }
}

/// The same characters, in a run of their own.
fn copied_chars(v: &Vec<char>) -> (r: Vec<char>)
    ensures
        r@ == v@,
{
    slice(v.as_slice(), 0, v.len())
}

/// Each name by its own name.
pub open spec fn own_names(fs: Seq<Seq<char>>) -> Seq<Seq<char>> {
    fs.map_values(|f: Seq<char>| own_name_of(f))
}

/// What a merge folds in, each by its own name.
pub open spec fn merge_parts(c: Proposal) -> Seq<Seq<char>> {
    match c.what {
        Offer::Merge { from, .. } => own_names(from),
        _ => seq![],
    }
}

/// Everything the merges in a list fold in, by own name.
pub open spec fn folded_of(cs: Seq<Proposal>) -> Seq<Seq<char>>
    decreases cs.len(),
{
    if cs.len() == 0 {
        seq![]
    } else {
        folded_of(cs.drop_last()) + merge_parts(cs.last())
    }
}

/// A delete of a file that a merge folds in.
pub open spec fn folded_delete(c: Proposal, folded: Seq<Seq<char>>) -> bool {
    &&& c.what is Delete
    &&& c.file matches Some(f) && folded.contains(own_name_of(f))
}

/// The list without the deletes of what is folded in.
pub open spec fn keep_unfolded(cs: Seq<Proposal>, folded: Seq<Seq<char>>) -> Seq<Proposal>
    decreases cs.len(),
{
    if cs.len() == 0 {
        seq![]
    } else {
        let r = keep_unfolded(cs.drop_last(), folded);
        if folded_delete(cs.last(), folded) {
            r
        } else {
            r.push(cs.last())
        }
    }
}

/// Where a change is aimed: the file by its own name, and what it does there.
pub open spec fn place_of(c: Proposal) -> (Option<Seq<char>>, Seq<char>) {
    (
        match c.file {
            Some(f) => Some(own_name_of(f)),
            None => None,
        },
        headline_of(c, seq![]),
    )
}

/// A later change in the list is aimed at the same place as this one.
pub open spec fn superseded(cs: Seq<Proposal>, i: int) -> bool {
    exists|j: int| i < j < cs.len() && place_of(#[trigger] cs[j]) == place_of(cs[i])
}

/// The first `n` changes, less those a later draft stands for.
pub open spec fn latest(cs: Seq<Proposal>, n: int) -> Seq<Proposal>
    decreases n,
{
    if n <= 0 {
        seq![]
    } else {
        let r = latest(cs, n - 1);
        if superseded(cs, n - 1) {
            r
        } else {
            r.push(cs[n - 1])
        }
    }
}

/// A write of a file named.
pub open spec fn named_write(c: Proposal) -> bool {
    c.what is Write && c.file is Some
}

/// A delete of a file named.
pub open spec fn named_delete(c: Proposal) -> bool {
    c.what is Delete && c.file is Some
}

/// How many named writes.
pub open spec fn write_count(cs: Seq<Proposal>) -> nat
    decreases cs.len(),
{
    if cs.len() == 0 {
        0
    } else {
        write_count(cs.drop_last()) + if named_write(cs.last()) {
            1nat
        } else {
            0nat
        }
    }
}

/// How many named deletes.
pub open spec fn delete_count(cs: Seq<Proposal>) -> nat
    decreases cs.len(),
{
    if cs.len() == 0 {
        0
    } else {
        delete_count(cs.drop_last()) + if named_delete(cs.last()) {
            1nat
        } else {
            0nat
        }
    }
}

/// The first named write.
pub open spec fn first_write(cs: Seq<Proposal>) -> Proposal
    decreases cs.len(),
{
    if cs.len() == 0 || named_write(cs[0]) {
        cs[0]
    } else {
        first_write(cs.drop_first())
    }
}

/// The files the named deletes are of, in order, less the one called `target`.
pub open spec fn deleted_files(cs: Seq<Proposal>, target: Seq<char>) -> Seq<Seq<char>>
    decreases cs.len(),
{
    if cs.len() == 0 {
        seq![]
    } else {
        let r = deleted_files(cs.drop_last(), target);
        match cs.last().file {
            Some(f) => if named_delete(cs.last()) && own_name_of(f) != target {
                r.push(f)
            } else {
                r
            },
            None => r,
        }
    }
}

/// The changes that are neither a named write nor a named delete.
pub open spec fn neither(cs: Seq<Proposal>) -> Seq<Proposal>
    decreases cs.len(),
{
    if cs.len() == 0 {
        seq![]
    } else {
        let r = neither(cs.drop_last());
        if named_write(cs.last()) || named_delete(cs.last()) {
            r
        } else {
            r.push(cs.last())
        }
    }
}

/// One write of a file and deletes of others, read as the merge they are:
/// the other changes, then the merge, which carries the write's text and
/// decision and folds in the deleted files other than the one written.
pub open spec fn fold_merge(cs: Seq<Proposal>) -> Seq<Proposal> {
    if write_count(cs) == 1 && delete_count(cs) > 0 {
        let w = first_write(cs);
        let target = own_name_of(w.file->0);
        neither(cs).push(
            Proposal {
                file: w.file,
                what: Offer::Merge { from: deleted_files(cs, target), text: w.what->Write_text },
                state: w.state,
            },
        )
    } else {
        cs
    }
}

/// A reply split into what it said and what it proposed: deletes of what a
/// merge folds in dropped, the last draft for each place standing for the
/// rest, and a write with deletes beside it read as a merge.
pub open spec fn proposals_of(reply: Seq<char>) -> (Seq<char>, Seq<Proposal>) {
    let (prose, cs) = every_proposal_of(reply);
    let kept = keep_unfolded(cs, folded_of(cs));
    (prose, fold_merge(latest(kept, kept.len() as int)))
}

/// Everything the merges in a list fold in, by own name.
fn folded(cs: &Vec<Change>) -> (r: Vec<Vec<char>>)
    ensures
        views(r@) == folded_of(proposals_view(cs@)),
{
    let ghost pv = proposals_view(cs@);
    let mut out: Vec<Vec<char>> = Vec::new();
    let mut i: usize = 0;
    while i < cs.len()
        invariant
            i <= cs@.len(),
            pv == proposals_view(cs@),
            views(out@) == folded_of(pv.take(i as int)),
        decreases cs.len() - i,
    {
        assert(pv.take(i + 1).drop_last() =~= pv.take(i as int));
        assert(pv.take(i + 1).last() == cs@[i as int]@);
        match &cs[i].what {
            What::Merge { from, .. } => {
                let ghost base = views(out@);
                let ghost fv = texts(from@);
                let mut j: usize = 0;
                while j < from.len()
                    invariant
                        j <= from@.len(),
                        fv == texts(from@),
                        views(out@) == base + own_names(fv.take(j as int)),
                    decreases from.len() - j,
                {
                    let ghost before = out@;
                    let x = own_name_chars(&chars_of(from[j].as_str()));
                    out.push(x);
                    assert(views(out@) =~= views(before).push(x@));
                    assert(own_names(fv.take(j + 1)) =~= own_names(fv.take(j as int)).push(own_name_of(fv[j as int])));
                    j = j + 1;
                }
                assert(fv.take(from@.len() as int) =~= fv);
            },
            _ => {
                assert(views(out@) =~= views(out@) + seq![]);
            },
        }
        i = i + 1;
    }
    assert(pv.take(cs@.len() as int) =~= pv);
    out
}

/// The list without the deletes of what is folded in.
fn unfolded(cs: &Vec<Change>, folded: &Vec<Vec<char>>) -> (r: Vec<Change>)
    ensures
        proposals_view(r@) == keep_unfolded(proposals_view(cs@), views(folded@)),
{
    let ghost pv = proposals_view(cs@);
    let mut out: Vec<Change> = Vec::new();
    let mut i: usize = 0;
    while i < cs.len()
        invariant
            i <= cs@.len(),
            pv == proposals_view(cs@),
            proposals_view(out@) == keep_unfolded(pv.take(i as int), views(folded@)),
        decreases cs.len() - i,
    {
        assert(pv.take(i + 1).drop_last() =~= pv.take(i as int));
        assert(pv.take(i + 1).last() == cs@[i as int]@);
        let c = &cs[i];
        let drop = match (&c.what, &c.file) {
            (What::Delete, Some(f)) => listed(folded, &own_name_chars(&chars_of(f.as_str()))),
            _ => false,
        };
        if !drop {
            let ghost before = out@;
            let x = c.copy();
            out.push(x);
            assert(proposals_view(out@) =~= proposals_view(before).push(x@));
        }
        i = i + 1;
    }
    assert(pv.take(cs@.len() as int) =~= pv);
    out
}

/// Where a change is aimed.
fn place(c: &Change) -> (r: (Option<Vec<char>>, Vec<char>))
    ensures
        (match r.0 {
            Some(v) => Some(v@),
            None => None::<Seq<char>>,
        }) == place_of(c@).0,
        r.1@ == place_of(c@).1,
{
    let file = match &c.file {
        Some(f) => Some(own_name_chars(&chars_of(f.as_str()))),
        None => None,
    };
    let h = c.headline("");
    proof {
        reveal_strlit("");
    }
    (file, chars_of(h.as_str()))
}

/// Whether two places are the same.
fn same_place(a: &(Option<Vec<char>>, Vec<char>), b: &(Option<Vec<char>>, Vec<char>)) -> (r: bool)
    ensures
        r == ((match a.0 {
            Some(v) => Some(v@),
            None => None::<Seq<char>>,
        }) == (match b.0 {
            Some(v) => Some(v@),
            None => None::<Seq<char>>,
        }) && a.1@ == b.1@),
{
    let files = match (&a.0, &b.0) {
        (Some(x), Some(y)) => same(x, y),
        (None, None) => true,
        _ => false,
    };
    files && same(&a.1, &b.1)
}

/// The view of a place.
pub open spec fn place_view(p: (Option<Vec<char>>, Vec<char>)) -> (Option<Seq<char>>, Seq<char>) {
    (
        match p.0 {
            Some(v) => Some(v@),
            None => None,
        },
        p.1@,
    )
}

/// The changes less those a later draft stands for.
fn latest_only(cs: &Vec<Change>) -> (r: Vec<Change>)
    ensures
        proposals_view(r@) == latest(proposals_view(cs@), cs@.len() as int),
{
    let ghost pv = proposals_view(cs@);
    let mut places: Vec<(Option<Vec<char>>, Vec<char>)> = Vec::new();
    let mut i: usize = 0;
    while i < cs.len()
        invariant
            i <= cs@.len(),
            pv == proposals_view(cs@),
            places@.len() == i,
            forall|j: int| 0 <= j < i ==> place_view(#[trigger] places@[j]) == place_of(pv[j]),
        decreases cs.len() - i,
    {
        let p = place(&cs[i]);
        places.push(p);
        assert(place_view(places@[i as int]) == place_of(pv[i as int]));
        i = i + 1;
    }
    let mut out: Vec<Change> = Vec::new();
    let mut i: usize = 0;
    while i < cs.len()
        invariant
            i <= cs@.len(),
            pv == proposals_view(cs@),
            places@.len() == cs@.len(),
            forall|j: int| 0 <= j < cs@.len() ==> place_view(#[trigger] places@[j]) == place_of(pv[j]),
            proposals_view(out@) == latest(pv, i as int),
        decreases cs.len() - i,
    {
        let mut later = false;
        let mut j = i + 1;
        while j < cs.len()
            invariant
                i < j <= cs@.len(),
                pv == proposals_view(cs@),
                places@.len() == cs@.len(),
                forall|k: int| 0 <= k < cs@.len() ==> place_view(#[trigger] places@[k]) == place_of(pv[k]),
                later ==> superseded(pv, i as int),
                !later ==> forall|k: int| i < k < j ==> place_of(#[trigger] pv[k]) != place_of(pv[i as int]),
            decreases cs.len() - j,
        {
            if same_place(&places[j], &places[i]) {
                assert(place_of(pv[j as int]) == place_of(pv[i as int]));
                assert(i < j < pv.len());
                assert(superseded(pv, i as int));
                later = true;
            }
            j = j + 1;
        }
        if !later {
            let ghost before = out@;
            let x = cs[i].copy();
            out.push(x);
            assert(proposals_view(out@) =~= proposals_view(before).push(x@));
        }
        i = i + 1;
    }
    out
}

proof fn lemma_first_write(cs: Seq<Proposal>, w: int)
    requires
        0 <= w < cs.len(),
        named_write(cs[w]),
        forall|k: int| 0 <= k < w ==> !named_write(#[trigger] cs[k]),
    ensures
        first_write(cs) == cs[w],
    decreases w,
{
    if w > 0 {
        assert(!named_write(cs[0]));
        assert forall|k: int| 0 <= k < w - 1 implies !named_write(#[trigger] cs.drop_first()[k]) by {
            assert(cs.drop_first()[k] == cs[k + 1]);
        }
        lemma_first_write(cs.drop_first(), w - 1);
    }
}

/// How many named writes and deletes there are, and where the first write is.
fn count_named(cs: &Vec<Change>) -> (r: (usize, usize, usize))
    ensures
        r.0 == write_count(proposals_view(cs@)),
        r.1 == delete_count(proposals_view(cs@)),
        r.0 > 0 ==> r.2 < cs@.len() && first_write(proposals_view(cs@)) == proposals_view(cs@)[r.2 as int]
            && named_write(proposals_view(cs@)[r.2 as int]),
{
    let ghost pv = proposals_view(cs@);
    let mut writes: usize = 0;
    let mut deletes: usize = 0;
    let mut w: usize = 0;
    let mut i: usize = 0;
    while i < cs.len()
        invariant
            i <= cs@.len(),
            pv == proposals_view(cs@),
            writes == write_count(pv.take(i as int)),
            deletes == delete_count(pv.take(i as int)),
            writes <= i,
            deletes <= i,
            writes > 0 ==> w < i && named_write(pv[w as int]) && forall|k: int|
                0 <= k < w ==> !named_write(#[trigger] pv[k]),
            writes == 0 ==> forall|k: int| 0 <= k < i ==> !named_write(#[trigger] pv[k]),
        decreases cs.len() - i,
    {
        assert(pv.take(i + 1).drop_last() =~= pv.take(i as int));
        assert(pv.take(i + 1).last() == cs@[i as int]@);
        let c = &cs[i];
        let named = c.file.is_some();
        match &c.what {
            What::Write { .. } => {
                if named {
                    if writes == 0 {
                        w = i;
                    }
                    writes = writes + 1;
                }
            },
            What::Delete => {
                if named {
                    deletes = deletes + 1;
                }
            },
            _ => {},
        }
        i = i + 1;
    }
    assert(pv.take(cs@.len() as int) =~= pv);
    if writes > 0 {
        proof {
            lemma_first_write(pv, w as int);
        }
    }
    (writes, deletes, w)
}

/// A copy of every change in a list.
fn copy_all(cs: &Vec<Change>) -> (r: Vec<Change>)
    ensures
        proposals_view(r@) == proposals_view(cs@),
{
    let ghost pv = proposals_view(cs@);
    let mut out: Vec<Change> = Vec::new();
    let mut k: usize = 0;
    while k < cs.len()
        invariant
            k <= cs@.len(),
            pv == proposals_view(cs@),
            proposals_view(out@) == pv.take(k as int),
        decreases cs.len() - k,
    {
        let ghost before = out@;
        let x = cs[k].copy();
        out.push(x);
        assert(proposals_view(out@) =~= proposals_view(before).push(x@));
        assert(pv.take(k + 1) =~= pv.take(k as int).push(pv[k as int]));
        k = k + 1;
    }
    assert(pv.take(cs@.len() as int) =~= pv);
    out
}

/// The changes that are neither a named write nor a named delete, and the
/// files of the named deletes other than `target`.
fn split_named(cs: &Vec<Change>, target: &Vec<char>) -> (r: (Vec<Change>, Vec<String>))
    ensures
        proposals_view(r.0@) == neither(proposals_view(cs@)),
        texts(r.1@) == deleted_files(proposals_view(cs@), target@),
{
    let ghost pv = proposals_view(cs@);
    let mut rest: Vec<Change> = Vec::new();
    let mut from: Vec<String> = Vec::new();
    let mut k: usize = 0;
    while k < cs.len()
        invariant
            k <= cs@.len(),
            pv == proposals_view(cs@),
            proposals_view(rest@) == neither(pv.take(k as int)),
            texts(from@) == deleted_files(pv.take(k as int), target@),
        decreases cs.len() - k,
    {
        assert(pv.take(k + 1).drop_last() =~= pv.take(k as int));
        assert(pv.take(k + 1).last() == cs@[k as int]@);
        let c = &cs[k];
        let is_write = match &c.what {
            What::Write { .. } => c.file.is_some(),
            _ => false,
        };
        let is_delete = match &c.what {
            What::Delete => c.file.is_some(),
            _ => false,
        };
        if !is_write && !is_delete {
            let ghost before = rest@;
            let x = c.copy();
            rest.push(x);
            assert(proposals_view(rest@) =~= proposals_view(before).push(x@));
        }
        match &c.file {
            Some(f) => {
                if is_delete && !same(&own_name_chars(&chars_of(f.as_str())), target) {
                    let ghost before = from@;
                    let x = f.clone();
                    from.push(x);
                    assert(texts(from@) =~= texts(before).push(x@));
                }
            },
            None => {},
        }
        k = k + 1;
    }
    assert(pv.take(cs@.len() as int) =~= pv);
    (rest, from)
}

/// One write of a file and deletes of others, read as the merge they are.
fn merge_named(cs: &Vec<Change>) -> (r: Vec<Change>)
    ensures
        proposals_view(r@) == fold_merge(proposals_view(cs@)),
{
    let ghost pv = proposals_view(cs@);
    let (writes, deletes, w) = count_named(cs);
    if !(writes == 1 && deletes > 0) {
        return copy_all(cs);
    }
    let into = match &cs[w].file {
        Some(f) => f.clone(),
        None => String::new(),
    };
    let target = own_name_chars(&chars_of(into.as_str()));
    let (mut rest, from) = split_named(cs, &target);
    let text = match &cs[w].what {
        What::Write { text } => text.clone(),
        _ => String::new(),
    };
    let merged = Change { file: Some(into), what: What::Merge { from, text }, state: cs[w].state };
    let ghost before = rest@;
    rest.push(merged);
    assert(proposals_view(rest@) =~= proposals_view(before).push(merged@));
    rest
}

/// Split a reply into what it said and what it proposed.
///
/// The blocks are lifted out of the prose rather than left in it. A delete of
/// a file a merge in the same reply folds in is the merge's own work said
/// twice, and is dropped. Several blocks aimed at the same place are drafts,
/// and the last is the one meant. A write of one file with deletes of others
/// is a merge said the long way, and is read as one.
pub fn proposals(reply: &str) -> (r: (String, Vec<Change>))
    ensures
        r.0@ == proposals_of(reply@).0,
        proposals_view(r.1@) == proposals_of(reply@).1,
{
    let text = chars_of(reply);
    let (prose, changes) = every_proposal(&text);
    let gone = folded(&changes);
    let kept = unfolded(&changes, &gone);
    let drafts = latest_only(&kept);
    let merged = merge_named(&drafts);
    (string_of(&prose), merged)
}

// -------------------------------------------------- writing decisions down

/// The tag without its decision, its `>` or the space before it.
pub open spec fn bare_tag(tag: Seq<char>) -> Seq<char> {
    crate::strs::trim_end(trim_end_char(crate::strs::trim_end(strip_state_of(tag)), '>'))
}

/// The tag without its decision, its `>` or the space before it.
fn bare(tag: &[char]) -> (r: Vec<char>)
    ensures
        r@ == bare_tag(tag@),
{
    let t = strip_state(tag);
    let t = crate::strs::trimmed_end(&t);
    let t = trimmed_end_char(&t, '>');
    crate::strs::trimmed_end(&t)
}

/// Every tag in a reply with any decision taken back out of it: the first
/// `n` blocks, and where the text goes on after them.
pub open spec fn undecided_blocks(text: Seq<char>, bs: Seq<(Kind, int, int, int)>) -> (Seq<char>, int)
    decreases bs.len(),
{
    if bs.len() == 0 {
        (seq![], 0)
    } else {
        let (out, at) = undecided_blocks(text, bs.drop_last());
        let b = bs.last();
        (out + text.subrange(at, b.1) + bare_tag(head_of(text, b)) + seq!['>'], b.2)
    }
}

/// A reply with any decision the model wrote into its own changes taken back
/// out: a decision only ever gets into the text from this side of it.
pub open spec fn undecided_of(reply: Seq<char>) -> Seq<char> {
    let (out, at) = undecided_blocks(reply, blocks_of(reply));
    out + reply.skip(at)
}

/// Take back any decision the model wrote into its own change.
pub fn undecided(reply: &[char]) -> (r: Vec<char>)
    ensures
        r@ == undecided_of(reply@),
{
    let bs = blocks(reply);
    let ghost all = spans(bs@);
    let mut out: Vec<char> = Vec::new();
    let mut at: usize = 0;
    let mut k: usize = 0;
    while k < bs.len()
        invariant
            k <= bs@.len(),
            all == spans(bs@),
            all == blocks_of(reply@),
            in_order(reply@, all),
            at <= reply@.len(),
            k < bs@.len() ==> at <= all[k as int].1,
            undecided_blocks(reply@, all.take(k as int)) == (out@, at as int),
        decreases bs.len() - k,
    {
        let b = bs[k];
        let ghost sb = all[k as int];
        assert(sb == span(b));
        assert(all.take(k + 1).drop_last() =~= all.take(k as int));
        assert(all.take(k + 1).last() == sb);
        let part = slice(reply, at, b.1);
        push_all(&mut out, &part);
        let head = slice(reply, b.1, b.2);
        let t = bare(&head);
        push_all(&mut out, &t);
        out.push('>');
        at = b.2;
        k = k + 1;
        if k < bs.len() {
            assert(all[k - 1] == sb);
        }
    }
    assert(all.take(bs@.len() as int) =~= all);
    let tail = slice(reply, at, reply.len());
    push_all(&mut out, &tail);
    assert(tail@ =~= reply@.skip(at as int));
    out
}

/// The word a decision is written with.
pub open spec fn decision_word(taken: bool) -> Seq<char> {
    if taken {
        "applied"@
    } else {
        "rejected"@
    }
}

/// A change's file by its own name.
pub open spec fn own_file(c: Proposal) -> Option<Seq<char>> {
    match c.file {
        Some(f) => Some(own_name_of(f)),
        None => None,
    }
}

/// For a merge, the file it writes and the files it folds in, by own name.
pub open spec fn merge_target(c: Proposal) -> (Option<Seq<char>>, Seq<Seq<char>>) {
    match c.what {
        Offer::Merge { from, .. } => (own_file(c), own_names(from)),
        _ => (None, seq![]),
    }
}

/// Whether the change a block makes is part of `change`: aimed at the same
/// place, or - for a merge - the write that became it or a delete it folds
/// in.
pub open spec fn belongs(own: Proposal, change: Proposal) -> bool {
    let (target, from) = merge_target(change);
    ||| place_of(own) == place_of(change)
    ||| match own.what {
        Offer::Write { .. } | Offer::Lay { .. } | Offer::Merge { .. } => target is Some && own_file(own)
            == target,
        Offer::Delete => own.file matches Some(f) && from.contains(own_name_of(f)),
        _ => false,
    }
}

/// Whether a block is one of those `change` came from.
pub open spec fn block_is_of(text: Seq<char>, b: (Kind, int, int, int), change: Proposal) -> bool {
    let own = every_proposal_of(text.subrange(b.1, block_end_of(text, b.0, b.3))).1;
    own.len() > 0 && belongs(own[0], change)
}

/// The text with the decision written into the first blocks that `change`
/// came from, and where the text goes on after them.
pub open spec fn settle_blocks(
    text: Seq<char>,
    bs: Seq<(Kind, int, int, int)>,
    change: Proposal,
    word: Seq<char>,
) -> (Seq<char>, int)
    decreases bs.len(),
{
    if bs.len() == 0 {
        (seq![], 0)
    } else {
        let (out, at) = settle_blocks(text, bs.drop_last(), change, word);
        let b = bs.last();
        if block_is_of(text, b, change) {
            (
                out + text.subrange(at, b.1) + bare_tag(head_of(text, b)) + " state=\""@ + word
                    + "\">"@,
                b.2,
            )
        } else {
            (out + text.subrange(at, b.1), b.1)
        }
    }
}

/// The text with what was decided about `change` written into every block it
/// came from.
pub open spec fn settle_of(text: Seq<char>, change: Proposal, taken: bool) -> Seq<char> {
    let (out, at) = settle_blocks(text, blocks_of(text), change, decision_word(taken));
    out + text.skip(at)
}

/// Whether a change is part of `change`.
fn belongs_to(own: &Change, change: &Change) -> (r: bool)
    ensures
        r == belongs(own@, change@),
{
    let p = place(own);
    let q = place(change);
    if same_place(&p, &q) {
        return true;
    }
    let target: Option<Vec<char>> = match (&change.what, &change.file) {
        (What::Merge { .. }, Some(f)) => Some(own_name_chars(&chars_of(f.as_str()))),
        _ => None,
    };
    let own_file: Option<Vec<char>> = match &own.file {
        Some(f) => Some(own_name_chars(&chars_of(f.as_str()))),
        None => None,
    };
    match &own.what {
        What::Write { .. } | What::Lay { .. } | What::Merge { .. } => match (&target, &own_file) {
            (Some(t), Some(o)) => same(t, o),
            _ => false,
        },
        What::Delete => match (&change.what, &own.file) {
            (What::Merge { from, .. }, Some(f)) => {
                let name = own_name_chars(&chars_of(f.as_str()));
                let ghost fv = texts(from@);
                let mut i: usize = 0;
                while i < from.len()
                    invariant
                        i <= from@.len(),
                        fv == texts(from@),
                        merge_target(change@).1 == own_names(fv),
                        own@.what is Delete,
                        own@.file matches Some(g) && own_name_of(g) == name@,
                        forall|j: int| 0 <= j < i ==> #[trigger] own_name_of(fv[j]) != name@,
                    decreases from.len() - i,
                {
                    if same(&own_name_chars(&chars_of(from[i].as_str())), &name) {
                        assert(own_names(fv)[i as int] == name@);
                        assert(own_names(fv).contains(name@));
                        return true;
                    }
                    i = i + 1;
                }
                assert(!own_names(fv).contains(name@)) by {
                    if own_names(fv).contains(name@) {
                        let names = own_names(fv);
                        let j = choose|j: int| 0 <= j < names.len() && #[trigger] names[j] == name@;
                        assert(own_name_of(fv[j]) == name@);
                    }
                }
                false
            },
            _ => false,
        },
        _ => false,
    }
}

/// Write down what was decided about a change in the reply it came from.
///
/// Into the tag, so it is carried by the transcript and is still true when the
/// conversation is opened again: every block the change came from, not one
/// block by its number, because drafts of the same edit are one change and a
/// write with deletes beside it is one merge.
pub fn settle(text: &str, change: &Change, taken: bool) -> (r: String)
    ensures
        r@ == settle_of(text@, change@, taken),
{
    let reply = chars_of(text);
    let word = if taken {
        chars_of("applied")
    } else {
        chars_of("rejected")
    };
    let bs = blocks(&reply);
    let ghost all = spans(bs@);
    let mut out: Vec<char> = Vec::new();
    let mut at: usize = 0;
    let mut k: usize = 0;
    while k < bs.len()
        invariant
            k <= bs@.len(),
            reply@ == text@,
            word@ == decision_word(taken),
            all == spans(bs@),
            all == blocks_of(reply@),
            in_order(reply@, all),
            at <= reply@.len(),
            k < bs@.len() ==> at <= all[k as int].1,
            settle_blocks(reply@, all.take(k as int), change@, word@) == (out@, at as int),
        decreases bs.len() - k,
    {
        let b = bs[k];
        let ghost sb = all[k as int];
        assert(sb == span(b));
        assert(all.take(k + 1).drop_last() =~= all.take(k as int));
        assert(all.take(k + 1).last() == sb);
        let end = block_end(&reply, b.0, b.3);
        let own_text = slice(&reply, b.1, end);
        let (_, own) = every_proposal(&own_text);
        let mine = own.len() > 0 && belongs_to(&own[0], change);
        assert(mine == block_is_of(reply@, sb, change@)) by {
            if own.len() > 0 {
                assert(proposals_view(own@)[0] == own@[0]@);
            }
        }
        let part = slice(&reply, at, b.1);
        push_all(&mut out, &part);
        if mine {
            let head = slice(&reply, b.1, b.2);
            let t = bare(&head);
            push_all(&mut out, &t);
            push_str(&mut out, " state=\"");
            push_all(&mut out, &word);
            push_str(&mut out, "\">");
            at = b.2;
        } else {
            at = b.1;
        }
        k = k + 1;
        if k < bs.len() {
            assert(all[k - 1] == sb);
        }
    }
    assert(all.take(bs@.len() as int) =~= all);
    let tail = slice(&reply, at, reply.len());
    push_all(&mut out, &tail);
    assert(tail@ =~= reply@.skip(at as int));
    string_of(&out)
}

// ------------------------------------------------------ against the files

/// The first file in the list whose own name is `want`: its lines.
pub open spec fn lookup(files: Seq<(Seq<char>, Seq<Seq<char>>)>, want: Seq<char>) -> Option<
    Seq<Seq<char>>,
>
    decreases files.len(),
{
    if files.len() == 0 {
        None
    } else if own_name_of(files[0].0) == want {
        Some(files[0].1)
    } else {
        lookup(files.drop_first(), want)
    }
}

impl<'a> Folder<'a> {
    /// The files, as values.
    pub open spec fn files_of(&self) -> Seq<(Seq<char>, Seq<Seq<char>>)> {
        self.files@.map_values(|e: (String, &'a [String])| (e.0@, texts(e.1@)))
    }

    /// The lines of the file a change names - by its own name - or of the note
    /// in front of you when it names none.
    pub open spec fn lines_for(&self, named: Option<Seq<char>>) -> Option<Seq<Seq<char>>> {
        lookup(
            self.files_of(),
            match named {
                Some(n) => own_name_of(n),
                None => self@.here,
            },
        )
    }

    /// The file a change is about, if it is there at all: by its own name,
    /// with any folder in front of it dropped.
    pub fn lines(&self, named: Option<&String>) -> (r: Option<&'a [String]>)
        ensures
            r matches Some(l) ==> self.lines_for(
                match named {
                    Some(n) => Some(n@),
                    None => None,
                },
            ) == Some(texts(l@)),
            r is None ==> self.lines_for(
                match named {
                    Some(n) => Some(n@),
                    None => None,
                },
            ) is None,
    {
        let want = match named {
            Some(n) => own_name_chars(&chars_of(n.as_str())),
            None => chars_of(self.here.as_str()),
        };
        let ghost fs = self.files_of();
        let mut i: usize = 0;
        assert(fs.skip(0) =~= fs);
        assert(want@ == match named {
            Some(n) => own_name_of(n@),
            None => self@.here,
        });
        while i < self.files.len()
            invariant
                i <= self.files@.len(),
                fs == self.files_of(),
                want@ == match named {
                    Some(n) => own_name_of(n@),
                    None => self@.here,
                },
                lookup(fs.skip(i as int), want@) == lookup(fs, want@),
            decreases self.files.len() - i,
        {
            let name = own_name_chars(&chars_of(self.files[i].0.as_str()));
            assert(fs.skip(i as int)[0] == fs[i as int]);
            assert(fs[i as int] == (self.files@[i as int].0@, texts(self.files@[i as int].1@)));
            if same(&name, &want) {
                let l = self.files[i].1;
                assert(own_name_of(fs.skip(i as int)[0].0) == want@);
                assert(lookup(fs.skip(i as int), want@) == Some(texts(l@)));
                return Some(l);
            }
            assert(fs.skip(i as int).drop_first() =~= fs.skip(i + 1));
            i = i + 1;
        }
        None
    }
}

/// A view of the folder that is enough for the specification: the project
/// and the note in front of you.
pub struct Place {
    pub project: Seq<char>,
    pub here: Seq<char>,
}

impl<'a> View for Folder<'a> {
    type V = Place;

    open spec fn view(&self) -> Place {
        Place { project: self.project@, here: self.here@ }
    }
}

/// Every name a change carries: its file, and what a merge folds in.
pub open spec fn carried_names(c: Proposal) -> Seq<Seq<char>> {
    (match c.file {
        Some(f) => seq![f],
        None => seq![],
    }) + match c.what {
        Offer::Merge { from, .. } => from,
        _ => seq![],
    }
}

/// The first of these names that points at another project: that project.
pub open spec fn first_elsewhere(names: Seq<Seq<char>>, project: Seq<char>) -> Option<Seq<char>>
    decreases names.len(),
{
    if names.len() == 0 {
        None
    } else {
        match elsewhere_of(names[0], project) {
            Some(f) => Some(f),
            None => first_elsewhere(names.drop_first(), project),
        }
    }
}

/// The other project a change reaches for, if it does.
pub open spec fn misplaced_of(c: Proposal, project: Seq<char>) -> Option<Seq<char>> {
    first_elsewhere(carried_names(c), project)
}

/// How many lines a text comes to: none when it is empty.
pub open spec fn line_count(t: Seq<char>) -> nat {
    if t.len() == 0 {
        0
    } else {
        lines(t).len()
    }
}

/// The lines of the files a merge folds in, less its own file, that are
/// there: their lengths, summed.
pub open spec fn gone_lines(folder: Folder, c: Proposal, from: Seq<Seq<char>>) -> nat
    decreases from.len(),
{
    if from.len() == 0 {
        0
    } else {
        gone_lines(folder, c, from.drop_last()) + if Some(from.last()) != c.file {
            match folder.lines_for(Some(from.last())) {
                Some(l) => l.len(),
                None => 0,
            }
        } else {
            0
        }
    }
}

/// The parts a merge with no text of its own joins: each part that is there,
/// its lines joined, in the order they were named.
pub open spec fn merge_parts_text(folder: Folder, from: Seq<Seq<char>>) -> Seq<Seq<char>>
    decreases from.len(),
{
    if from.len() == 0 {
        seq![]
    } else {
        let r = merge_parts_text(folder, from.drop_last());
        match folder.lines_for(Some(from.last())) {
            Some(l) => r.push(join(l, seq!['\n'])),
            None => r,
        }
    }
}

/// What a change would leave behind in place of what it replaces.
pub open spec fn becoming_of(c: Proposal, folder: Folder) -> Seq<char> {
    match c.what {
        Offer::Edit { text, .. } => text,
        Offer::Insert { text, .. } => text,
        Offer::Write { text } => text,
        Offer::Lay { text } => text,
        Offer::Delete => seq![],
        Offer::Merge { from, text } => if text.len() == 0 {
            join(merge_parts_text(folder, from), seq!['\n', '\n'])
        } else {
            text
        },
    }
}

/// The lines the file a change is about has now, or none.
pub open spec fn target_lines(c: Proposal, folder: Folder) -> nat {
    match folder.lines_for(c.file) {
        Some(l) => l.len(),
        None => 0,
    }
}

/// Lines gone and lines arrived, the way a diff counts them - for a merge,
/// what the project loses, not what one file does.
pub open spec fn tally_of(c: Proposal, folder: Folder) -> (nat, nat) {
    match c.what {
        Offer::Edit { from, to, text } => (
            line_count(text),
            (if to >= from {
                to - from
            } else {
                0
            }) as nat + 1,
        ),
        Offer::Insert { text, .. } => (line_count(text), 0),
        Offer::Write { text } => (line_count(text), target_lines(c, folder)),
        Offer::Lay { text } => (line_count(text), target_lines(c, folder)),
        Offer::Delete => (0, target_lines(c, folder)),
        Offer::Merge { from, .. } => (
            line_count(becoming_of(c, folder)),
            target_lines(c, folder) + gone_lines(folder, c, from),
        ),
    }
}

/// Whether every one of these names is a file that is there.
pub open spec fn all_there(folder: Folder, from: Seq<Seq<char>>) -> bool {
    forall|i: int| 0 <= i < from.len() ==> (#[trigger] folder.lines_for(Some(from[i]))) is Some
}

/// What a change would replace, given the file it is about as it is now; none
/// when there is nothing there to replace.
///
/// An insert goes below a line that is there, at the top, or one past the
/// end; an edit may reach one past the end too, which is the line that is
/// not there yet. A write replaces whatever was there, which may be nothing;
/// a file laid down must not be there yet; a merge must name only files that
/// are there. A change that reaches into another project replaces nothing.
pub open spec fn replacing_of(c: Proposal, folder: Folder) -> Option<Seq<char>> {
    let lines = folder.lines_for(c.file);
    if misplaced_of(c, folder@.project) is Some {
        None
    } else {
        match c.what {
            Offer::Insert { after, .. } => match lines {
                Some(l) => if after <= l.len() + 1 {
                    Some(seq![])
                } else {
                    None
                },
                None => None,
            },
            Offer::Edit { from, to, .. } => match lines {
                Some(l) => if from == 0 || from - 1 > l.len() || to < from {
                    None
                } else {
                    Some(join(l.subrange(from - 1, if to < l.len() { to as int } else { l.len() as int }), seq!['\n']))
                },
                None => None,
            },
            Offer::Write { .. } => Some(
                match lines {
                    Some(l) => join(l, seq!['\n']),
                    None => seq![],
                },
            ),
            Offer::Lay { .. } => if lines is None {
                Some(seq![])
            } else {
                None
            },
            Offer::Delete => match lines {
                Some(l) => Some(join(l, seq!['\n'])),
                None => None,
            },
            Offer::Merge { from, .. } => if all_there(folder, from) {
                Some(
                    match lines {
                        Some(l) => join(l, seq!['\n']),
                        None => seq![],
                    },
                )
            } else {
                None
            },
        }
    }
}

/// Lines laid end to end with a line break between each two.
fn joined_lines(l: &[String]) -> (r: Vec<char>)
    ensures
        r@ == join(texts(l@), seq!['\n']),
{
    let parts = chars_each(l);
    let nl = vec!['\n'];
    assert(nl@ == seq!['\n']);
    joined(&parts, &nl)
}

/// How many lines a text comes to: none when it is empty.
fn count_lines(t: &String) -> (r: usize)
    ensures
        r == line_count(t@),
{
    let v = chars_of(t.as_str());
    if v.len() == 0 {
        0
    } else {
        lines_of(&v).len()
    }
}

impl Change {
    /// The other project this change reaches for, if it does: every name it
    /// carries is looked at, because one pointing out of the project is
    /// enough to make it a change this conversation cannot make.
    pub fn misplaced(&self, folder: &Folder) -> (r: Option<String>)
        ensures
            r matches Some(f) ==> misplaced_of(self@, folder@.project) == Some(f@),
            r is None ==> misplaced_of(self@, folder@.project) is None,
    {
        let project = chars_of(folder.project.as_str());
        let mut names: Vec<Vec<char>> = Vec::new();
        match &self.file {
            Some(f) => names.push(chars_of(f.as_str())),
            None => {},
        }
        match &self.what {
            What::Merge { from, .. } => {
                let more = chars_each(from.as_slice());
                let mut i: usize = 0;
                let ghost base = views(names@);
                while i < more.len()
                    invariant
                        i <= more@.len(),
                        views(names@) == base + views(more@).take(i as int),
                    decreases more.len() - i,
                {
                    let ghost before = names@;
                    let x = copied_chars(&more[i]);
                    names.push(x);
                    assert(views(names@) =~= views(before).push(x@));
                    assert(views(more@).take(i + 1) =~= views(more@).take(i as int).push(more@[i as int]@));
                    i = i + 1;
                }
                assert(views(more@).take(more@.len() as int) =~= views(more@));
            },
            _ => {},
        }
        let ghost all = views(names@);
        assert(all =~= carried_names(self@));
        let mut i: usize = 0;
        assert(all.skip(0) =~= all);
        while i < names.len()
            invariant
                i <= names@.len(),
                all == views(names@),
                all == carried_names(self@),
                project@ == folder@.project,
                first_elsewhere(all.skip(i as int), project@) == first_elsewhere(all, project@),
            decreases names.len() - i,
        {
            assert(all.skip(i as int)[0] == names@[i as int]@);
            match elsewhere_chars(&names[i], &project) {
                Some(f) => return Some(string_of(&f)),
                None => {},
            }
            assert(all.skip(i as int).drop_first() =~= all.skip(i + 1));
            i = i + 1;
        }
        None
    }
}

/// Some of the lines, from `from` up to `to`, laid end to end with a line
/// break between each two.
fn joined_range(l: &[String], from: usize, to: usize) -> (r: Vec<char>)
    requires
        from <= to <= l@.len(),
    ensures
        r@ == join(texts(l@).subrange(from as int, to as int), seq!['\n']),
{
    let mut parts: Vec<Vec<char>> = Vec::new();
    let mut i = from;
    while i < to
        invariant
            from <= i <= to,
            to <= l@.len(),
            views(parts@) == texts(l@).subrange(from as int, i as int),
        decreases to - i,
    {
        let ghost before = parts@;
        let x = chars_of(l[i].as_str());
        parts.push(x);
        assert(views(parts@) =~= views(before).push(x@));
        assert(texts(l@).subrange(from as int, i + 1) =~= texts(l@).subrange(from as int, i as int).push(l@[i as int]@));
        i = i + 1;
    }
    let nl = vec!['\n'];
    assert(nl@ == seq!['\n']);
    joined(&parts, &nl)
}

/// A name as a borrowed name.
fn name_ref(n: &Option<String>) -> (r: Option<&String>)
    ensures
        (match r {
            Some(s) => Some(s@),
            None => None::<Seq<char>>,
        }) == name_view(*n),
{
    match n {
        Some(s) => Some(s),
        None => None,
    }
}

proof fn lemma_gone_prefix(folder: Folder, c: Proposal, from: Seq<Seq<char>>, i: int)
    requires
        0 <= i <= from.len(),
    ensures
        gone_lines(folder, c, from.take(i)) <= gone_lines(folder, c, from),
    decreases from.len() - i,
{
    if i < from.len() {
        lemma_gone_prefix(folder, c, from.drop_last(), i);
        assert(from.drop_last().take(i) =~= from.take(i));
    } else {
        assert(from.take(i) =~= from);
    }
}

impl Change {
    /// What it would leave behind in place of what it replaces: a merge with no
    /// text of its own is its parts, end to end, in the order they were named.
    pub fn becoming(&self, folder: &Folder) -> (r: String)
        ensures
            r@ == becoming_of(self@, *folder),
    {
        match &self.what {
            What::Edit { text, .. } | What::Insert { text, .. } | What::Write { text } | What::Lay {
                text,
            } => text.clone(),
            What::Delete => String::new(),
            What::Merge { from, text } => {
                if !text.as_str().is_empty() {
                    return text.clone();
                }
                let ghost fv = texts(from@);
                let mut parts: Vec<Vec<char>> = Vec::new();
                let mut i: usize = 0;
                while i < from.len()
                    invariant
                        i <= from@.len(),
                        fv == texts(from@),
                        views(parts@) == merge_parts_text(*folder, fv.take(i as int)),
                    decreases from.len() - i,
                {
                    assert(fv.take(i + 1).drop_last() =~= fv.take(i as int));
                    assert(fv.take(i + 1).last() == from@[i as int]@);
                    match folder.lines(Some(&from[i])) {
                        Some(l) => {
                            let ghost before = parts@;
                            let x = joined_lines(l);
                            parts.push(x);
                            assert(views(parts@) =~= views(before).push(x@));
                        },
                        None => {},
                    }
                    i = i + 1;
                }
                assert(fv.take(from@.len() as int) =~= fv);
                let sep = vec!['\n', '\n'];
                assert(sep@ == seq!['\n', '\n']);
                string_of(&joined(&parts, &sep))
            },
        }
    }

    /// Lines gone and lines arrived, the way a diff counts them.
    pub fn tally(&self, folder: &Folder) -> (r: (usize, usize))
        requires
            tally_of(self@, *folder).1 <= usize::MAX,
        ensures
            r.0 == tally_of(self@, *folder).0,
            r.1 == tally_of(self@, *folder).1,
    {
        let target: usize = match folder.lines(name_ref(&self.file)) {
            Some(l) => l.len(),
            None => 0,
        };
        match &self.what {
            What::Edit { from, to, text } => {
                let span = if *to >= *from {
                    *to - *from
                } else {
                    0
                };
                (count_lines(text), span + 1)
            },
            What::Insert { text, .. } => (count_lines(text), 0),
            What::Write { text } | What::Lay { text } => (count_lines(text), target),
            What::Delete => (0, target),
            What::Merge { from, .. } => {
                let ghost fv = texts(from@);
                let mut gone: usize = 0;
                let mut i: usize = 0;
                while i < from.len()
                    invariant
                        i <= from@.len(),
                        fv == texts(from@),
                        self@.what == (Offer::Merge { from: fv, text: self@.what->Merge_text }),
                        target + gone_lines(*folder, self@, fv) <= usize::MAX,
                        gone == gone_lines(*folder, self@, fv.take(i as int)),
                    decreases from.len() - i,
                {
                    assert(fv.take(i + 1).drop_last() =~= fv.take(i as int));
                    assert(fv.take(i + 1).last() == from@[i as int]@);
                    proof {
                        lemma_gone_prefix(*folder, self@, fv, i + 1);
                    }
                    let other = match &self.file {
                        Some(f) => !(*f == from[i]),
                        None => true,
                    };
                    if other {
                        match folder.lines(Some(&from[i])) {
                            Some(l) => {
                                gone = gone + l.len();
                            },
                            None => {},
                        }
                    }
                    i = i + 1;
                }
                assert(fv.take(from@.len() as int) =~= fv);
                let becomes = self.becoming(folder);
                (count_lines(&becomes), target + gone)
            },
        }
    }

    /// What this would replace, given the file it is about as it is now; none
    /// when there is nothing there to replace - lines past the end, or a file
    /// that is not there - so the panel can say so instead of guessing.
    pub fn replacing(&self, folder: &Folder) -> (r: Option<String>)
        ensures
            r matches Some(t) ==> replacing_of(self@, *folder) == Some(t@),
            r is None ==> replacing_of(self@, *folder) is None,
    {
        if self.misplaced(folder).is_some() {
            return None;
        }
        let lines = folder.lines(name_ref(&self.file));
        match &self.what {
            What::Insert { after, .. } => match lines {
                Some(l) => if *after == 0 || *after - 1 <= l.len() {
                    Some(String::new())
                } else {
                    None
                },
                None => None,
            },
            What::Edit { from, to, .. } => match lines {
                Some(l) => {
                    if *from == 0 {
                        return None;
                    }
                    let first = *from - 1;
                    if first > l.len() || *to < *from {
                        return None;
                    }
                    let end = if *to < l.len() {
                        *to
                    } else {
                        l.len()
                    };
                    Some(string_of(&joined_range(l, first, end)))
                },
                None => None,
            },
            What::Write { .. } => match lines {
                Some(l) => Some(string_of(&joined_lines(l))),
                None => Some(String::new()),
            },
            What::Lay { .. } => match lines {
                Some(_) => None,
                None => Some(String::new()),
            },
            What::Delete => match lines {
                Some(l) => Some(string_of(&joined_lines(l))),
                None => None,
            },
            What::Merge { from, .. } => {
                let ghost fv = texts(from@);
                let mut i: usize = 0;
                while i < from.len()
                    invariant
                        i <= from@.len(),
                        fv == texts(from@),
                        self@.what == (Offer::Merge { from: fv, text: self@.what->Merge_text }),
                        misplaced_of(self@, folder@.project) is None,
                        lines matches Some(l) ==> folder.lines_for(self@.file) == Some(texts(l@)),
                        lines is None ==> folder.lines_for(self@.file) is None,
                        forall|j: int| 0 <= j < i ==> (#[trigger] folder.lines_for(Some(fv[j]))) is Some,
                    decreases from.len() - i,
                {
                    assert(fv[i as int] == from@[i as int]@);
                    if folder.lines(Some(&from[i])).is_none() {
                        assert(!all_there(*folder, fv));
                        return None;
                    }
                    i = i + 1;
                }
                match lines {
                    Some(l) => Some(string_of(&joined_lines(l))),
                    None => Some(String::new()),
                }
            },
        }
    }
}


// --------------------------------------------------------- how one shows

/// What an offered change shows in the conversation.
pub enum Offering {
    /// Decided: whether it was taken, the lines it brought and the lines it
    /// took away, and the first line of what it came to.
    Settled { taken: bool, plus: usize, minus: usize, gist: String },
    /// Nothing to act on: its headline, and why.
    Refused(String),
    /// Waiting for an answer: what it would replace, and what with.
    Open { before: String, after: String },
}

/// What an offered change shows, as values.
pub enum OfferingView {
    Settled(bool, nat, nat, Seq<char>),
    Refused(Seq<char>),
    Open(Seq<char>, Seq<char>),
}

impl View for Offering {
    type V = OfferingView;

    open spec fn view(&self) -> OfferingView {
        match self {
            Offering::Settled { taken, plus, minus, gist } => OfferingView::Settled(
                *taken,
                *plus as nat,
                *minus as nat,
                gist@,
            ),
            Offering::Refused(why) => OfferingView::Refused(why@),
            Offering::Open { before, after } => OfferingView::Open(before@, after@),
        }
    }
}

/// The first of these lines, from `i` on, with anything on it.
pub open spec fn first_filled(ls: Seq<Seq<char>>, i: int) -> Option<Seq<char>>
    decreases ls.len() - i,
{
    if i < 0 || i >= ls.len() {
        None
    } else if trim(ls[i]).len() > 0 {
        Some(ls[i])
    } else {
        first_filled(ls, i + 1)
    }
}

/// One line of what a decided change came to: the first with anything on
/// it, or what it did when it left nothing.
pub open spec fn gist_of(c: Proposal, folder: Folder) -> Seq<char> {
    match first_filled(lines(becoming_of(c, folder)), 0) {
        Some(l) => l,
        None => if c.what is Delete {
            "(the file was taken away)"@
        } else {
            "(the lines were taken out)"@
        },
    }
}

/// Why a change cannot be acted on, after its headline: it reaches into
/// another project, which opening that project would remedy; it would lay
/// down a file that is there already; or what it changes is not there.
pub open spec fn refusal_of(c: Proposal, folder: Folder) -> Seq<char> {
    headline_of(c, folder@.here) + match misplaced_of(c, folder@.project) {
        Some(p) => " - IN "@ + crate::strs::upper_of(p) + " - OPEN IT TO CHANGE IT"@,
        None => if c.what is Lay {
            " - WHICH IS THERE ALREADY, AND NO LINES SAID"@
        } else {
            " - WHICH IS NOT THERE TO CHANGE"@
        },
    }
}

/// What an offered change shows: once decided, what became of it; else,
/// when there is something it would replace, the two sides of its diff -
/// against the project as it is now, not as the model was shown it; and
/// else why nothing can be done with it.
pub open spec fn offering_of(c: Proposal, folder: Folder) -> OfferingView {
    match c.state {
        Some(taken) => OfferingView::Settled(taken, tally_of(c, folder).0, tally_of(c, folder).1, gist_of(c, folder)),
        None => match replacing_of(c, folder) {
            Some(before) => OfferingView::Open(before, becoming_of(c, folder)),
            None => OfferingView::Refused(refusal_of(c, folder)),
        },
    }
}

/// The first of these lines with anything on it.
fn filled_line(ls: &Vec<Vec<char>>, Ghost(all): Ghost<Seq<Seq<char>>>) -> (r: Option<Vec<char>>)
    requires
        ls@.len() == all.len(),
        forall|j: int| 0 <= j < ls@.len() ==> #[trigger] ls@[j]@ == all[j],
    ensures
        r matches Some(l) ==> first_filled(all, 0) == Some(l@),
        r is None ==> first_filled(all, 0) is None,
{
    let mut i: usize = 0;
    while i < ls.len()
        invariant
            i <= ls@.len(),
            ls@.len() == all.len(),
            forall|j: int| 0 <= j < ls@.len() ==> #[trigger] ls@[j]@ == all[j],
            first_filled(all, 0) == first_filled(all, i as int),
        decreases ls.len() - i,
    {
        let t = trimmed(&ls[i]);
        if t.len() > 0 {
            assert(ls@[i as int]@ == all[i as int]);
            return Some(ls[i].clone());
        }
        i = i + 1;
    }
    None
}

impl Change {
    /// What this change shows in the conversation: once decided, what
    /// became of it; else the two sides of its diff, when there is something
    /// for it to replace; else why nothing can be done with it.
    pub fn offering(&self, folder: &Folder) -> (r: Offering)
        requires
            self@.state is Some ==> tally_of(self@, *folder).1 <= usize::MAX,
        ensures
            r@ == offering_of(self@, *folder),
    {
        match self.state {
            Some(taken) => {
                let (plus, minus) = self.tally(folder);
                let becoming = self.becoming(folder);
                let bc = chars_of(becoming.as_str());
                let ls = lines_of(&bc);
                let gist = match filled_line(&ls, Ghost(lines(bc@))) {
                    Some(l) => string_of(&l),
                    None => match self.what {
                        What::Delete => String::from_str("(the file was taken away)"),
                        _ => String::from_str("(the lines were taken out)"),
                    },
                };
                Offering::Settled { taken, plus, minus, gist }
            },
            None => match self.replacing(folder) {
                Some(before) => Offering::Open { before, after: self.becoming(folder) },
                None => {
                    let head = self.headline(folder.here.as_str());
                    let mut why = chars_of(head.as_str());
                    assert(why@ == headline_of(self@, folder@.here));
                    match self.misplaced(folder) {
                        Some(p) => {
                            push_str(&mut why, " - IN ");
                            let up = crate::strs::upper(&chars_of(p.as_str()));
                            push_all(&mut why, &up);
                            push_str(&mut why, " - OPEN IT TO CHANGE IT");
                        },
                        None => match self.what {
                            What::Lay { .. } => {
                                assert(self@.what is Lay);
                                push_str(&mut why, " - WHICH IS THERE ALREADY, AND NO LINES SAID");
                            },
                            _ => {
                                assert(!(self@.what is Lay));
                                push_str(&mut why, " - WHICH IS NOT THERE TO CHANGE");
                            },
                        },
                    }
                    assert(why@ =~= refusal_of(self@, *folder));
                    Offering::Refused(string_of(&why))
                },
            },
        }
    }
}

proof fn lemma_lookup_first(files: Seq<(Seq<char>, Seq<Seq<char>>)>, want: Seq<char>, k: int)
    requires
        0 <= k < files.len(),
        own_name_of(files[k].0) == want,
        forall|j: int| 0 <= j < k ==> own_name_of(#[trigger] files[j].0) != want,
    ensures
        lookup(files, want) == Some(files[k].1),
    decreases k,
{
    if k > 0 {
        let rest = files.drop_first();
        assert(own_name_of(files[0].0) != want);
        assert forall|j: int| 0 <= j < k - 1 implies own_name_of(#[trigger] rest[j].0) != want by {
            assert(rest[j] == files[j + 1]);
        }
        assert(rest[k - 1] == files[k]);
        lemma_lookup_first(rest, want, k - 1);
    }
}

/// A file is found by its own name, whatever folder is written in front of
/// it: any name whose own name is that of the `k`th file, where no file
/// before it has that own name, gives that file's lines; and naming no file
/// gives the lines of the first whose own name is the note in front.
pub proof fn law_files_are_found_by_own_name(f: Folder, k: int, named: Seq<char>)
    requires
        0 <= k < f.files_of().len(),
        own_name_of(named) == own_name_of(f.files_of()[k].0),
        forall|j: int| 0 <= j < k ==> own_name_of(#[trigger] f.files_of()[j].0) != own_name_of(named),
    ensures
        f.lines_for(Some(named)) == Some(f.files_of()[k].1),
        own_name_of(f.files_of()[k].0) == f@.here ==> f.lines_for(None) == Some(f.files_of()[k].1),
{
    lemma_lookup_first(f.files_of(), own_name_of(named), k);
    if own_name_of(f.files_of()[k].0) == f@.here {
        lemma_lookup_first(f.files_of(), f@.here, k);
    }
}
} // verus!
