//! What the model is told about the rest of your notes.
//!
//! Every note gets a line - its name, what it calls itself, and the first
//! thing it says - which is enough for the model to know a subject exists and
//! which file it is in. The note actually being edited is given whole, with
//! the passage marked in place. Both are built from the text's own structure
//! rather than written by the model.
//!
//! The digest is the same for every request - every note, always, in order -
//! which buys the one property worth having: it is a stable prefix.
use std::hash::{Hash, Hasher};
use vstd::prelude::*;
use vstd::relations::{sorted_by, total_ordering};

use crate::chat::change::trim_start_char;
use crate::text::Cursor;
use crate::diff::{all_as, step, steps_view, walk, walkable, walked, words_view, Change};
use crate::strs::{
    chars_of, join, joined, push_all, push_str, rfind, rfind_in, slice, starts_with, string_of,
    trim, trim_end, trimmed, trimmed_end, views, texts, chars_each, lemma_rfind, lines, lines_of,
    split_on, split_at_each, decimal, write_usize, same, second_piece, second_str,
};

verus! {

broadcast use vstd::seq_lib::group_to_multiset_ensures;

/// How much of a note's first line to quote.
pub const GIST: usize = 140;

/// How many of a note's headings to name.
pub const SECTIONS: usize = 6;

/// A note as the list of notes sees it: where it sits, what it calls itself,
/// and its lines.
pub struct Note {
    /// Where it sits in the vault: its folder, if any, and its file name.
    pub slug: String,
    /// Its own title, cut to sixty characters.
    pub title: String,
    pub lines: Vec<String>,
}

/// A line that is a horizontal rule, or the underline of a setext heading.
pub open spec fn is_rule(t: Seq<char>) -> bool {
    t.len() >= 3 && forall|i: int|
        0 <= i < t.len() ==> #[trigger] t[i] == '-' || t[i] == '=' || t[i] == '*' || t[i] == '_'
            || t[i] == ' '
}

/// A line that is a horizontal rule, or the underline of a setext heading.
pub fn rule(t: &[char]) -> (r: bool)
    ensures
        r == is_rule(t@),
{
    if t.len() < 3 {
        return false;
    }
    let mut i: usize = 0;
    while i < t.len()
        invariant
            i <= t@.len(),
            forall|j: int|
                0 <= j < i ==> #[trigger] t@[j] == '-' || t@[j] == '=' || t@[j] == '*' || t@[j]
                    == '_' || t@[j] == ' ',
        decreases t.len() - i,
    {
        let c = t[i];
        if !(c == '-' || c == '=' || c == '*' || c == '_' || c == ' ') {
            return false;
        }
        i = i + 1;
    }
    true
}

/// Cut to `room` characters on a word boundary, with an ellipsis if it bit.
pub open spec fn clip_of(text: Seq<char>, room: nat) -> Seq<char> {
    if text.len() <= room {
        text
    } else {
        let head = text.take(room as int);
        let cut = match rfind(head, seq![' ']) {
            Some(k) => k,
            None => head.len() as int,
        };
        trim_end(head.take(cut)) + "..."@
    }
}

/// Cut to `room` characters on a word boundary, with an ellipsis if it bit.
pub fn clip(text: &[char], room: usize) -> (r: Vec<char>)
    ensures
        r@ == clip_of(text@, room as nat),
{
    if text.len() <= room {
        return slice(text, 0, text.len());
    }
    let head = slice(text, 0, room);
    assert(head@ =~= text@.take(room as int));
    let sp = vec![' '];
    assert(sp@ == seq![' ']);
    let cut = match rfind_in(&head, &sp) {
        Some(c) => c,
        None => head.len(),
    };
    proof {
        lemma_rfind(head@, sp@);
    }
    let kept = slice(&head, 0, cut);
    assert(kept@ =~= head@.take(cut as int));
    let mut out = trimmed_end(&kept);
    push_str(&mut out, "...");
    out
}

/// A line that opens or closes a code fence, once trimmed.
pub open spec fn fence_at(t: Seq<char>) -> bool {
    starts_with(t, "```"@) || starts_with(t, "~~~"@)
}

/// Whether a trimmed line opens or closes a code fence.
fn fence(t: &[char]) -> (r: bool)
    ensures
        r == fence_at(t@),
{
    crate::strs::starts(t, "```") || crate::strs::starts(t, "~~~")
}

/// Whether a code fence is open once the first `n` lines are read.
pub open spec fn in_code_after(lines: Seq<Seq<char>>, n: int) -> bool
    decreases n,
{
    if n <= 0 {
        false
    } else {
        in_code_after(lines, n - 1) != fence_at(trim(lines[n - 1]))
    }
}

/// Whether line `i` is prose worth quoting: outside code, not a fence, not
/// empty, not a heading, a table row or a rule, and not a setext heading's
/// text over its rule.
pub open spec fn quotable(lines: Seq<Seq<char>>, i: int) -> bool {
    let t = trim(lines[i]);
    &&& !fence_at(t)
    &&& !in_code_after(lines, i)
    &&& t.len() > 0
    &&& !starts_with(t, "#"@)
    &&& !starts_with(t, "|"@)
    &&& !is_rule(t)
    &&& !(i + 1 < lines.len() && is_rule(trim(lines[i + 1])))
}

/// The first line at `i` or after that is worth quoting.
pub open spec fn first_quotable(lines: Seq<Seq<char>>, i: int) -> Option<int>
    decreases lines.len() - i,
{
    if i < 0 || i >= lines.len() {
        None
    } else if quotable(lines, i) {
        Some(i)
    } else {
        first_quotable(lines, i + 1)
    }
}

/// The first thing a note actually says, headings and markup aside, cut to
/// size.
pub open spec fn gist_of(lines: Seq<Seq<char>>) -> Option<Seq<char>> {
    match first_quotable(lines, 0) {
        Some(i) => Some(clip_of(trim(lines[i]), GIST as nat)),
        None => None,
    }
}

/// The first thing a note actually says, headings and markup aside.
pub fn gist(lines: &[String]) -> (r: Option<Vec<char>>)
    ensures
        r matches Some(g) ==> gist_of(texts(lines@)) == Some(g@),
        r is None ==> gist_of(texts(lines@)) is None,
{
    let ls = chars_each(lines);
    let ghost all = texts(lines@);
    let mut in_code = false;
    let mut i: usize = 0;
    while i < ls.len()
        invariant
            i <= ls@.len(),
            views(ls@) == all,
            all == texts(lines@),
            in_code == in_code_after(all, i as int),
            first_quotable(all, i as int) == first_quotable(all, 0),
        decreases ls.len() - i,
    {
        assert(all[i as int] == ls@[i as int]@);
        let t = trimmed(&ls[i]);
        let is_fence = fence(&t);
        let skip = is_fence || in_code || t.len() == 0 || crate::strs::starts(&t, "#")
            || crate::strs::starts(&t, "|") || rule(&t) || (i + 1 < ls.len() && {
            assert(all[i + 1] == ls@[i + 1]@);
            rule(&trimmed(&ls[i + 1]))
        });
        assert(quotable(all, i as int) == !skip);
        if is_fence {
            in_code = !in_code;
        }
        if !skip {
            assert(first_quotable(all, i as int) == Some(i as int));
            let c = clip(&t, GIST);
            assert(c@ == clip_of(trim(all[i as int]), GIST as nat));
            return Some(c);
        }
        i = i + 1;
    }
    None
}

/// The headings of a note, outside code, each cut to forty characters: the
/// first `n` lines.
pub open spec fn headings(lines: Seq<Seq<char>>, n: int) -> Seq<Seq<char>>
    decreases n,
{
    if n <= 0 {
        seq![]
    } else {
        let r = headings(lines, n - 1);
        let t = trim(lines[n - 1]);
        if fence_at(t) || in_code_after(lines, n - 1) || !starts_with(t, "#"@) {
            r
        } else {
            let text = trim(trim_start_char(t.drop_first(), '#'));
            if text.len() > 0 {
                r.push(clip_of(text, 40))
            } else {
                r
            }
        }
    }
}

/// The headings under the title, which are the shape of the note: all but
/// the first, and no more than six.
pub open spec fn sections_of(lines: Seq<Seq<char>>) -> Seq<Seq<char>> {
    let hs = headings(lines, lines.len() as int);
    if hs.len() == 0 {
        seq![]
    } else if hs.len() - 1 > SECTIONS {
        hs.drop_first().take(SECTIONS as int)
    } else {
        hs.drop_first()
    }
}

/// The headings under the title, which are the shape of the note.
pub fn sections(lines: &[String]) -> (r: Vec<Vec<char>>)
    ensures
        views(r@) == sections_of(texts(lines@)),
{
    let ls = chars_each(lines);
    let ghost all = texts(lines@);
    let mut hs: Vec<Vec<char>> = Vec::new();
    let mut in_code = false;
    let mut i: usize = 0;
    while i < ls.len()
        invariant
            i <= ls@.len(),
            views(ls@) == all,
            in_code == in_code_after(all, i as int),
            views(hs@) == headings(all, i as int),
        decreases ls.len() - i,
    {
        assert(all[i as int] == ls@[i as int]@);
        let t = trimmed(&ls[i]);
        if fence(&t) {
            in_code = !in_code;
        } else if !in_code && crate::strs::starts(&t, "#") {
            proof {
                reveal_strlit("#");
            }
            let rest = slice(&t, 1, t.len());
            assert(rest@ =~= t@.drop_first());
            let text = trimmed(&crate::chat::change::trimmed_start_char(&rest, '#'));
            if text.len() > 0 {
                let ghost before = views(hs@);
                let c = clip(&text, 40);
                hs.push(c);
                assert(views(hs@) =~= before.push(c@));
            }
        }
        i = i + 1;
    }
    let mut out: Vec<Vec<char>> = Vec::new();
    if hs.len() == 0 {
        assert(views(out@) =~= seq![]);
        return out;
    }
    let mut k: usize = 1;
    while k < hs.len() && out.len() < SECTIONS
        invariant
            1 <= k <= hs@.len(),
            out@.len() == k - 1,
            out@.len() <= SECTIONS,
            views(out@) == views(hs@).subrange(1, k as int),
        decreases hs.len() - k,
    {
        let ghost before = views(out@);
        let c = slice(&hs[k], 0, hs[k].len());
        assert(c@ =~= hs@[k as int]@);
        out.push(c);
        assert(views(out@) =~= before.push(c@));
        assert(views(hs@).subrange(1, k + 1) =~= views(hs@).subrange(1, k as int).push(hs@[k as int]@));
        k = k + 1;
    }
    if hs.len() - 1 > SECTIONS {
        assert(views(hs@).drop_first().take(SECTIONS as int) =~= views(hs@).subrange(1, k as int));
    } else {
        assert(views(hs@).drop_first() =~= views(hs@).subrange(1, k as int));
    }
    out
}

/// A note's line in the list: where it sits, its title, its gist, and its
/// sections.
pub open spec fn entry_of(slug: Seq<char>, title: Seq<char>, lines: Seq<Seq<char>>) -> Seq<char> {
    let head = "- `"@ + slug + "` \""@ + title + "\""@;
    let with_gist = match gist_of(lines) {
        Some(g) => head + ": "@ + g,
        None => head,
    };
    let secs = sections_of(lines);
    if secs.len() > 0 {
        with_gist + " (sections: "@ + join(secs, ", "@) + ")"@
    } else {
        with_gist
    }
}

/// A note's line in the list.
fn entry(note: &Note) -> (r: Vec<char>)
    ensures
        r@ == entry_of(note.slug@, note.title@, texts(note.lines@)),
{
    let mut out = chars_of("- `");
    push_str(&mut out, note.slug.as_str());
    push_str(&mut out, "` \"");
    push_str(&mut out, note.title.as_str());
    push_str(&mut out, "\"");
    match gist(note.lines.as_slice()) {
        Some(g) => {
            push_str(&mut out, ": ");
            push_all(&mut out, &g);
        },
        None => {},
    }
    let secs = sections(note.lines.as_slice());
    if secs.len() > 0 {
        push_str(&mut out, " (sections: ");
        let sep = chars_of(", ");
        let j = joined(&secs, &sep);
        push_all(&mut out, &j);
        push_str(&mut out, ")");
    }
    out
}

// ---------------------------------------------------------------- ordering

/// Whether `a` comes no later than `b` in the order strings sort in: by the
/// first character that differs, a prefix first.
pub open spec fn lex_le(a: Seq<char>, b: Seq<char>) -> bool
    decreases a.len(),
{
    if a.len() == 0 {
        true
    } else if b.len() == 0 {
        false
    } else if a[0] != b[0] {
        a[0] < b[0]
    } else {
        lex_le(a.drop_first(), b.drop_first())
    }
}

/// The order strings sort in, as a relation.
pub open spec fn lex_order() -> spec_fn(Seq<char>, Seq<char>) -> bool {
    |a: Seq<char>, b: Seq<char>| lex_le(a, b)
}

pub proof fn lemma_lex_total(a: Seq<char>, b: Seq<char>)
    ensures
        lex_le(a, b) || lex_le(b, a),
    decreases a.len(),
{
    if a.len() > 0 && b.len() > 0 {
        if a[0] == b[0] {
            lemma_lex_total(a.drop_first(), b.drop_first());
        }
    }
}

proof fn lemma_lex_antisym(a: Seq<char>, b: Seq<char>)
    requires
        lex_le(a, b),
        lex_le(b, a),
    ensures
        a == b,
    decreases a.len(),
{
    if a.len() > 0 && b.len() > 0 {
        if a[0] == b[0] {
            lemma_lex_antisym(a.drop_first(), b.drop_first());
            assert(a =~= seq![a[0]] + a.drop_first());
            assert(b =~= seq![b[0]] + b.drop_first());
        }
    }
}

pub proof fn lemma_lex_trans(a: Seq<char>, b: Seq<char>, c: Seq<char>)
    requires
        lex_le(a, b),
        lex_le(b, c),
    ensures
        lex_le(a, c),
    decreases a.len(),
{
    if a.len() > 0 && b.len() > 0 && c.len() > 0 {
        if a[0] == b[0] && b[0] == c[0] {
            lemma_lex_trans(a.drop_first(), b.drop_first(), c.drop_first());
        }
    }
}

proof fn lemma_lex_refl(a: Seq<char>)
    ensures
        lex_le(a, a),
    decreases a.len(),
{
    if a.len() > 0 {
        lemma_lex_refl(a.drop_first());
    }
}

/// The order strings sort in is a total order.
pub proof fn lemma_lex_total_ordering()
    ensures
        total_ordering(lex_order()),
{
    assert forall|a: Seq<char>| #[trigger] lex_order()(a, a) by {
        lemma_lex_refl(a);
    }
    assert forall|a: Seq<char>, b: Seq<char>|
        #[trigger] lex_order()(a, b) && #[trigger] lex_order()(b, a) implies a == b by {
        lemma_lex_antisym(a, b);
    }
    assert forall|a: Seq<char>, b: Seq<char>, c: Seq<char>|
        #[trigger] lex_order()(a, b) && #[trigger] lex_order()(b, c) implies lex_order()(a, c) by {
        lemma_lex_trans(a, b, c);
    }
    assert forall|a: Seq<char>, b: Seq<char>| #[trigger] lex_order()(a, b) || lex_order()(b, a) by {
        lemma_lex_total(a, b);
    }
}

/// Whether `a` comes no later than `b`.
pub fn lex_le_chars(a: &[char], b: &[char]) -> (r: bool)
    ensures
        r == lex_le(a@, b@),
{
    let mut i: usize = 0;
    assert(a@.skip(0) =~= a@);
    assert(b@.skip(0) =~= b@);
    while i < a.len() && i < b.len() && a[i] == b[i]
        invariant
            i <= a@.len(),
            i <= b@.len(),
            lex_le(a@.skip(i as int), b@.skip(i as int)) == lex_le(a@, b@),
        decreases a.len() - i,
    {
        assert(a@.skip(i as int).drop_first() =~= a@.skip(i + 1));
        assert(b@.skip(i as int).drop_first() =~= b@.skip(i + 1));
        i = i + 1;
    }
    if i == a.len() {
        true
    } else if i == b.len() {
        false
    } else {
        a[i] < b[i]
    }
}

/// The lines in the order strings sort in.
fn sorted_lines(v: Vec<Vec<char>>) -> (r: Vec<Vec<char>>)
    ensures
        sorted_by(views(r@), lex_order()),
        views(r@).to_multiset() == views(v@).to_multiset(),
{
    let mut out: Vec<Vec<char>> = Vec::new();
    let mut i: usize = 0;
    proof {
        lemma_lex_total_ordering();
    }
    while i < v.len()
        invariant
            i <= v@.len(),
            total_ordering(lex_order()),
            sorted_by(views(out@), lex_order()),
            views(out@).to_multiset() == views(v@).take(i as int).to_multiset(),
        decreases v.len() - i,
    {
        let x = slice(&v[i], 0, v[i].len());
        let mut p: usize = 0;
        while p < out.len() && lex_le_chars(&out[p], &x)
            invariant
                p <= out@.len(),
                forall|k: int| 0 <= k < p ==> lex_le(#[trigger] views(out@)[k], x@),
            decreases out.len() - p,
        {
            assert(views(out@)[p as int] == out@[p as int]@);
            p = p + 1;
        }
        let ghost before = views(out@);
        out.insert(p, x);
        assert(views(out@) =~= before.insert(p as int, x@));
        assert(x@ == views(v@)[i as int]);
        assert(views(out@).to_multiset() =~= before.to_multiset().insert(x@));
        proof {
            if p < before.len() {
                assert(!lex_le(before[p as int], x@));
                lemma_lex_total(before[p as int], x@);
            }
            assert(sorted_by(before, lex_order()));
            assert forall|a: int, b: int| 0 <= a < b < views(out@).len() implies (lex_order())(
                #[trigger] views(out@)[a],
                #[trigger] views(out@)[b],
            ) by {
                let s = views(out@);
                if b < p {
                    assert(s[a] == before[a] && s[b] == before[b]);
                    assert((lex_order())(before[a], before[b]));
                } else if b == p {
                    assert(s[a] == before[a]);
                } else if a == p {
                    assert(s[b] == before[b - 1]);
                    if b - 1 > p {
                        assert((lex_order())(before[p as int], before[b - 1]));
                        lemma_lex_trans(x@, before[p as int], before[b - 1]);
                    }
                } else if a < p {
                    assert(s[a] == before[a] && s[b] == before[b - 1]);
                    assert((lex_order())(before[a], before[b - 1]));
                } else {
                    assert(s[a] == before[a - 1] && s[b] == before[b - 1]);
                    assert((lex_order())(before[a - 1], before[b - 1]));
                }
            }
            assert(views(v@).take(i + 1) =~= views(v@).take(i as int).push(v@[i as int]@));
        }
        i = i + 1;
    }
    assert(views(v@).take(v@.len() as int) =~= views(v@));
    out
}

/// The list of notes: one line per note, in the order strings sort in, one
/// line after another.
pub open spec fn vault_of(entries: Seq<Seq<char>>, listed: Seq<Seq<char>>) -> bool {
    sorted_by(listed, lex_order()) && listed.to_multiset() == entries.to_multiset()
}

/// Each note's line in the list.
pub open spec fn entries_of(notes: Seq<Note>) -> Seq<Seq<char>> {
    notes.map_values(|n: Note| entry_of(n.slug@, n.title@, texts(n.lines@)))
}

/// One line per note: where it sits, what it calls itself, and its gist.
///
/// Ordered by path rather than by the order the vault happened to be read
/// in, so the same vault always produces the same text - and sorting by path
/// is what puts a project's notes together under each other.
pub fn vault(notes: &[Note]) -> (r: String)
    ensures
        exists|listed: Seq<Seq<char>>| vault_of(entries_of(notes@), listed) && r@ == join(listed, "\n"@),
{
    let mut lines: Vec<Vec<char>> = Vec::new();
    let mut i: usize = 0;
    while i < notes.len()
        invariant
            i <= notes@.len(),
            views(lines@) == entries_of(notes@).take(i as int),
        decreases notes.len() - i,
    {
        let ghost before = views(lines@);
        let e = entry(&notes[i]);
        lines.push(e);
        assert(views(lines@) =~= before.push(e@));
        assert(entries_of(notes@).take(i + 1) =~= entries_of(notes@).take(i as int).push(entries_of(notes@)[i as int]));
        i = i + 1;
    }
    assert(entries_of(notes@).take(notes@.len() as int) =~= entries_of(notes@));
    let sorted = sorted_lines(lines);
    let nl = chars_of("\n");
    let out = joined(&sorted, &nl);
    assert(vault_of(entries_of(notes@), views(sorted@)));
    string_of(&out)
}

// --------------------------------------------------------------- numbered

/// A file's lines, counted the way the editor counts them: on `\n`, so a file
/// ending in a newline has an empty last line.
pub open spec fn rows_of(text: Seq<char>) -> Seq<Seq<char>> {
    split_on(text, seq!['\n'])
}

/// A file's lines, counted the way the editor counts them.
fn rows(text: &[char]) -> (r: Vec<Vec<char>>)
    ensures
        views(r@) == rows_of(text@),
{
    let nl = vec!['\n'];
    assert(nl@ == seq!['\n']);
    let r = split_at_each(text, &nl);
    assert(views(r@) =~= rows_of(text@));
    r
}

/// A number right-aligned in four places.
pub open spec fn right4(n: nat) -> Seq<char> {
    let d = decimal(n);
    if d.len() < 4 {
        Seq::new((4 - d.len()) as nat, |i: int| ' ') + d
    } else {
        d
    }
}

/// One numbered line: its number right-aligned in four places, a bar, the
/// line.
pub open spec fn numbered_line(i: int, line: Seq<char>) -> Seq<char> {
    right4((i + 1) as nat) + " | "@ + line + "\n"@
}

/// The first `k` rows numbered.
pub open spec fn numbered_rows(rs: Seq<Seq<char>>, k: int) -> Seq<char>
    decreases k,
{
    if k <= 0 {
        seq![]
    } else {
        numbered_rows(rs, k - 1) + numbered_line(k - 1, rs[k - 1])
    }
}

/// A note with its lines numbered, for a conversation that may be asked to
/// change one of them.
pub open spec fn numbered_of(text: Seq<char>) -> Seq<char> {
    numbered_rows(rows_of(text), rows_of(text).len() as int)
}

/// A number right-aligned in four places.
fn write_right4(out: &mut Vec<char>, n: usize)
    ensures
        final(out)@ == old(out)@ + right4(n as nat),
{
    let mut d: Vec<char> = Vec::new();
    write_usize(&mut d, n);
    assert(d@ =~= decimal(n as nat));
    let mut k = d.len();
    while k < 4
        invariant
            d@.len() <= k <= 4 || (k == d@.len() && k >= 4),
            old(out)@ + Seq::new((k - d@.len()) as nat, |i: int| ' ') == out@,
        decreases 4 - k,
    {
        out.push(' ');
        assert(old(out)@ + Seq::new((k + 1 - d@.len()) as nat, |i: int| ' ') =~= old(out)@
            + Seq::new((k - d@.len()) as nat, |i: int| ' ').push(' '));
        k = k + 1;
    }
    push_all(out, &d);
    if d.len() < 4 {
        assert(out@ =~= old(out)@ + right4(n as nat));
    } else {
        assert(Seq::new(0, |i: int| ' ') =~= Seq::<char>::empty());
        assert(out@ =~= old(out)@ + right4(n as nat));
    }
}

/// A note with its lines numbered.
pub fn numbered_chars(text: &[char]) -> (r: Vec<char>)
    ensures
        r@ == numbered_of(text@),
{
    let rs = rows(text);
    let ghost all = rows_of(text@);
    let mut out: Vec<char> = Vec::new();
    let mut i: usize = 0;
    while i < rs.len()
        invariant
            i <= rs@.len(),
            views(rs@) == all,
            out@ == numbered_rows(all, i as int),
        decreases rs.len() - i,
    {
        assert(all[i as int] == rs@[i as int]@);
        let ghost before = out@;
        write_right4(&mut out, i + 1);
        push_str(&mut out, " | ");
        push_all(&mut out, &rs[i]);
        push_str(&mut out, "\n");
        assert(out@ =~= before + numbered_line(i as int, all[i as int]));
        i = i + 1;
    }
    out
}

/// A note with its lines numbered, for a conversation that may be asked to
/// change one of them: numbers rather than quoting the text back, because a
/// number cannot be misquoted.
pub fn numbered(text: &str) -> (r: String)
    ensures
        r@ == numbered_of(text@),
{
    string_of(&numbered_chars(&chars_of(text)))
}

/// The first `k` files of a project, each headed by its name and numbered.
pub open spec fn project_files(files: Seq<(Seq<char>, Seq<char>)>, k: int) -> Seq<char>
    decreases k,
{
    if k <= 0 {
        seq![]
    } else {
        project_files(files, k - 1) + "=== "@ + files[k - 1].0 + " ===\n"@ + numbered_of(files[k - 1].1)
            + "\n"@
    }
}

/// Named texts, as values.
pub open spec fn named_texts(v: Seq<(String, String)>) -> Seq<(Seq<char>, Seq<char>)> {
    v.map_values(|e: (String, String)| (e.0@, e.1@))
}

/// Every file in a project, numbered, for a conversation that may be asked
/// to change one of them: all of them, whole.
pub fn project(files: &[(String, String)]) -> (r: String)
    ensures
        r@ == project_files(named_texts(files@), files@.len() as int),
{
    let ghost fs = named_texts(files@);
    let mut out: Vec<char> = Vec::new();
    let mut i: usize = 0;
    while i < files.len()
        invariant
            i <= files@.len(),
            fs == named_texts(files@),
            out@ == project_files(fs, i as int),
        decreases files.len() - i,
    {
        assert(fs[i as int] == (files@[i as int].0@, files@[i as int].1@));
        let ghost before = out@;
        push_str(&mut out, "=== ");
        push_str(&mut out, files[i].0.as_str());
        push_str(&mut out, " ===\n");
        let n = numbered_chars(&chars_of(files[i].1.as_str()));
        push_all(&mut out, &n);
        push_str(&mut out, "\n");
        assert(out@ =~= project_files(fs, i + 1));
        i = i + 1;
    }
    string_of(&out)
}

/// What `fingerprint` makes of a text: the standard library's default hash
/// of it, which this does not restate.
pub uninterp spec fn fingerprint_of(text: Seq<char>) -> u64;

/// A file's contents in eight bytes, for telling whether it is the one we
/// saw: the standard library's default hasher, fed the text. Claimed: the
/// result is the named hash of the text's characters, and depends on nothing
/// else.
#[verifier::external_body]
pub fn fingerprint(text: &str) -> (r: u64)
    ensures
        r == fingerprint_of(text@),
{
    let mut h = std::collections::hash_map::DefaultHasher::new();
    text.hash(&mut h);
    h.finish()
}

// ------------------------------------------------------------ byte counts

/// How many bytes a character takes in UTF-8.
pub open spec fn char_bytes(c: char) -> nat {
    if (c as u32) < 0x80 {
        1
    } else if (c as u32) < 0x800 {
        2
    } else if (c as u32) < 0x10000 {
        3
    } else {
        4
    }
}

/// How many bytes a text takes in UTF-8, which is what `str::len` counts.
pub open spec fn byte_len(s: Seq<char>) -> nat
    decreases s.len(),
{
    if s.len() == 0 {
        0
    } else {
        byte_len(s.drop_last()) + char_bytes(s.last())
    }
}

/// How many bytes a text takes in UTF-8.
pub fn utf8_len(v: &[char]) -> (r: u128)
    ensures
        r == byte_len(v@),
        r <= 4 * v@.len(),
{
    let mut n: u128 = 0;
    let mut i: usize = 0;
    while i < v.len()
        invariant
            i <= v@.len(),
            n == byte_len(v@.take(i as int)),
            n <= 4 * i,
        decreases v.len() - i,
    {
        assert(v@.take(i + 1).drop_last() =~= v@.take(i as int));
        let c = v[i] as u32;
        n = n + if c < 0x80 {
            1
        } else if c < 0x800 {
            2
        } else if c < 0x10000 {
            3
        } else {
            4
        };
        i = i + 1;
    }
    assert(v@.take(v@.len() as int) =~= v@);
    n
}

// ------------------------------------------------------------- the diff

/// How many lines two lists begin with in common.
pub open spec fn common_head(a: Seq<Seq<char>>, b: Seq<Seq<char>>) -> nat
    decreases a.len(),
{
    if a.len() == 0 || b.len() == 0 || a[0] != b[0] {
        0
    } else {
        1 + common_head(a.drop_first(), b.drop_first())
    }
}

/// How many lines two lists end with in common.
pub open spec fn common_tail(a: Seq<Seq<char>>, b: Seq<Seq<char>>) -> nat
    decreases a.len(),
{
    if a.len() == 0 || b.len() == 0 || a.last() != b.last() {
        0
    } else {
        1 + common_tail(a.drop_last(), b.drop_last())
    }
}

/// The mark a step is written with.
pub open spec fn mark_of(c: Change) -> char {
    match c {
        Change::Same => ' ',
        Change::Removed => '-',
        Change::Added => '+',
    }
}

/// The steps as marks and lines.
pub open spec fn marked_steps(steps: Seq<(Change, Seq<char>)>) -> Seq<(char, Seq<char>)> {
    steps.map_values(|s: (Change, Seq<char>)| (mark_of(s.0), s.1))
}

/// How many unchanged lines to show either side of a change.
pub const CONTEXT: usize = 2;

/// The most cells of comparison to do before giving up and showing the lot.
pub const CELLS: usize = 4_000_000;

/// Where step `k` sits in the old file, counting from `skip`.
pub open spec fn old_pos(steps: Seq<(char, Seq<char>)>, skip: int, k: int) -> int
    decreases k,
{
    if k <= 0 {
        skip
    } else {
        old_pos(steps, skip, k - 1) + if steps[k - 1].0 != '+' {
            1int
        } else {
            0int
        }
    }
}

/// Where step `k` sits in the new file, counting from `skip`.
pub open spec fn new_pos(steps: Seq<(char, Seq<char>)>, skip: int, k: int) -> int
    decreases k,
{
    if k <= 0 {
        skip
    } else {
        new_pos(steps, skip, k - 1) + if steps[k - 1].0 != '-' {
            1int
        } else {
            0int
        }
    }
}

/// The changed steps among the first `k`, grouped while they are near enough
/// to share context: each group its first and last step.
pub open spec fn groups_of(steps: Seq<(char, Seq<char>)>, k: int) -> Seq<(int, int)>
    decreases k,
{
    if k <= 0 {
        seq![]
    } else {
        let g = groups_of(steps, k - 1);
        let i = k - 1;
        if steps[i].0 == ' ' {
            g
        } else if g.len() > 0 && i <= g.last().1 + 2 * CONTEXT + 1 {
            g.update(g.len() - 1, (g.last().0, i))
        } else {
            g.push((i, i))
        }
    }
}

/// How many of the steps from `from` up to `k` are kept or marked `want`.
pub open spec fn span_count(steps: Seq<(char, Seq<char>)>, from: int, k: int, want: char) -> nat
    decreases k - from,
{
    if k <= from {
        0
    } else {
        span_count(steps, from, k - 1, want) + if steps[k - 1].0 == want || steps[k - 1].0 == ' ' {
            1nat
        } else {
            0nat
        }
    }
}

/// The steps from `from` up to `k`, each its mark, its line and a break.
pub open spec fn span_lines(steps: Seq<(char, Seq<char>)>, from: int, k: int) -> Seq<char>
    decreases k - from,
{
    if k <= from {
        seq![]
    } else {
        span_lines(steps, from, k - 1) + seq![steps[k - 1].0] + steps[k - 1].1 + "\n"@
    }
}

/// One hunk: where it starts and how long it is on each side, then its lines,
/// with up to two lines of context either side.
pub open spec fn hunk_of(steps: Seq<(char, Seq<char>)>, skip: int, first: int, last: int) -> Seq<char> {
    let from = if first >= CONTEXT {
        first - CONTEXT
    } else {
        0
    };
    let to = if last + CONTEXT < steps.len() - 1 {
        last + CONTEXT
    } else {
        steps.len() - 1
    };
    hunk_text(
        old_pos(steps, skip, from) + 1,
        span_count(steps, from, to + 1, '-'),
        new_pos(steps, skip, from) + 1,
        span_count(steps, from, to + 1, '+'),
        span_lines(steps, from, to + 1),
    )
}

/// A hunk's head - where it starts and how long it is on each side - and
/// its lines.
pub open spec fn hunk_text(o: int, minus: nat, n: int, plus: nat, lines: Seq<char>) -> Seq<char> {
    "@@ -"@ + decimal(o as nat) + ","@ + decimal(minus) + " +"@ + decimal(n as nat) + ","@ + decimal(plus)
        + " @@\n"@ + lines
}

/// The first `n` groups written out as hunks.
pub open spec fn hunks(steps: Seq<(char, Seq<char>)>, skip: int, gs: Seq<(int, int)>, n: int) -> Seq<char>
    decreases n,
{
    if n <= 0 {
        seq![]
    } else {
        hunks(steps, skip, gs, n - 1) + hunk_of(steps, skip, gs[n - 1].0, gs[n - 1].1)
    }
}

/// The steps written out as hunks, with their line numbers counted from one
/// in the whole file, `skip` lines having been the same at the front.
pub open spec fn written_of(steps: Seq<(char, Seq<char>)>, skip: int) -> Seq<char> {
    let gs = groups_of(steps, steps.len() as int);
    hunks(steps, skip, gs, gs.len() as int)
}

/// Marked steps, as values.
pub open spec fn marks_view(v: Seq<(char, Vec<char>)>) -> Seq<(char, Seq<char>)> {
    v.map_values(|s: (char, Vec<char>)| (s.0, s.1@))
}

proof fn lemma_groups(steps: Seq<(char, Seq<char>)>, k: int)
    requires
        0 <= k <= steps.len(),
    ensures
        forall|g: int| 0 <= g < groups_of(steps, k).len() ==> 0 <= #[trigger] groups_of(steps, k)[g].0
            <= groups_of(steps, k)[g].1 < k,
        groups_of(steps, k).len() <= k,
    decreases k,
{
    if k > 0 {
        lemma_groups(steps, k - 1);
    }
}

proof fn lemma_positions(steps: Seq<(char, Seq<char>)>, skip: int, k: int)
    requires
        0 <= k <= steps.len(),
        skip >= 0,
    ensures
        skip <= old_pos(steps, skip, k) <= skip + k,
        skip <= new_pos(steps, skip, k) <= skip + k,
    decreases k,
{
    if k > 0 {
        lemma_positions(steps, skip, k - 1);
    }
}

proof fn lemma_span_count(steps: Seq<(char, Seq<char>)>, from: int, k: int, want: char)
    requires
        from <= k,
    ensures
        span_count(steps, from, k, want) <= k - from,
    decreases k - from,
{
    if k > from {
        lemma_span_count(steps, from, k - 1, want);
    }
}

/// Where step `from` sits in the old and the new file.
fn positions(steps: &Vec<(char, Vec<char>)>, skip: usize, from: usize) -> (r: (usize, usize))
    requires
        from < steps@.len(),
        skip + steps@.len() + 2 <= usize::MAX,
    ensures
        r.0 == old_pos(marks_view(steps@), skip as int, from as int),
        r.1 == new_pos(marks_view(steps@), skip as int, from as int),
        r.0 + 1 <= usize::MAX,
        r.1 + 1 <= usize::MAX,
{
    let ghost sv = marks_view(steps@);
    let n = steps.len();
    let mut o = skip;
    let mut nn = skip;
    let mut k: usize = 0;
    while k < from
        invariant
            k <= from < n,
            n == steps@.len(),
            sv == marks_view(steps@),
            skip + n + 2 <= usize::MAX,
            o == old_pos(sv, skip as int, k as int),
            nn == new_pos(sv, skip as int, k as int),
        decreases from - k,
    {
        proof {
            lemma_positions(sv, skip as int, k as int);
        }
        assert(sv[k as int].0 == steps@[k as int].0);
        if steps[k].0 != '+' {
            o = o + 1;
        }
        if steps[k].0 != '-' {
            nn = nn + 1;
        }
        k = k + 1;
    }
    proof {
        lemma_positions(sv, skip as int, from as int);
    }
    (o, nn)
}

/// The steps from `from` to `to`: how many are kept or removed, how many are
/// kept or added, and their lines.
fn span_text(steps: &Vec<(char, Vec<char>)>, from: usize, to: usize) -> (r: (usize, usize, Vec<char>))
    requires
        from <= to < steps@.len(),
    ensures
        r.0 == span_count(marks_view(steps@), from as int, to + 1, '-'),
        r.1 == span_count(marks_view(steps@), from as int, to + 1, '+'),
        r.2@ == span_lines(marks_view(steps@), from as int, to + 1),
{
    let ghost sv = marks_view(steps@);
    let n = steps.len();
    let mut minus: usize = 0;
    let mut plus: usize = 0;
    let mut lines: Vec<char> = Vec::new();
    let mut j = from;
    while j <= to
        invariant
            from <= j <= to + 1,
            to < n,
            n == steps@.len(),
            sv == marks_view(steps@),
            minus == span_count(sv, from as int, j as int, '-'),
            plus == span_count(sv, from as int, j as int, '+'),
            lines@ == span_lines(sv, from as int, j as int),
        decreases to + 1 - j,
    {
        proof {
            lemma_span_count(sv, from as int, j as int, '-');
            lemma_span_count(sv, from as int, j as int, '+');
        }
        assert(sv[j as int] == (steps@[j as int].0, steps@[j as int].1@));
        let m = steps[j].0;
        if m == '-' || m == ' ' {
            minus = minus + 1;
        }
        if m == '+' || m == ' ' {
            plus = plus + 1;
        }
        let ghost before = lines@;
        lines.push(m);
        push_all(&mut lines, &steps[j].1);
        lines.push('\n');
        assert(lines@ =~= before + seq![m] + steps@[j as int].1@ + "\n"@) by {
            reveal_strlit("\n");
        }
        j = j + 1;
    }
    (minus, plus, lines)
}

/// One hunk written out.
fn write_hunk(out: &mut Vec<char>, steps: &Vec<(char, Vec<char>)>, skip: usize, first: usize, last: usize)
    requires
        first <= last < steps@.len(),
        skip + steps@.len() + 2 <= usize::MAX,
    ensures
        final(out)@ == old(out)@ + hunk_of(marks_view(steps@), skip as int, first as int, last as int),
{
    let ghost sv = marks_view(steps@);
    let n = steps.len();
    let from = if first >= CONTEXT {
        first - CONTEXT
    } else {
        0
    };
    let to = if last + CONTEXT < n - 1 {
        last + CONTEXT
    } else {
        n - 1
    };
    let (o, nn) = positions(steps, skip, from);
    let (minus, plus, lines) = span_text(steps, from, to);
    assert(hunk_of(sv, skip as int, first as int, last as int) == hunk_text(
        o + 1,
        minus as nat,
        nn + 1,
        plus as nat,
        lines@,
    ));
    write_hunk_text(out, o + 1, minus, nn + 1, plus, &lines);
}

/// A hunk's header line and its lines.
fn write_hunk_text(out: &mut Vec<char>, o: usize, minus: usize, nn: usize, plus: usize, lines: &Vec<char>)
    ensures
        final(out)@ == old(out)@ + hunk_text(o as int, minus as nat, nn as int, plus as nat, lines@),
{
    let ghost start = out@;
    push_str(out, "@@ -");
    write_usize(out, o);
    push_str(out, ",");
    write_usize(out, minus);
    push_str(out, " +");
    write_usize(out, nn);
    push_str(out, ",");
    write_usize(out, plus);
    push_str(out, " @@\n");
    push_all(out, lines);
    assert(out@ =~= start + hunk_text(o as int, minus as nat, nn as int, plus as nat, lines@));
}

/// The steps written out as hunks, with their line numbers.
fn written(steps: &Vec<(char, Vec<char>)>, skip: usize) -> (r: Vec<char>)
    requires
        skip + steps@.len() + 2 <= usize::MAX,
    ensures
        r@ == written_of(marks_view(steps@), skip as int),
{
    let ghost sv = marks_view(steps@);
    let mut groups: Vec<(usize, usize)> = Vec::new();
    let mut i: usize = 0;
    while i < steps.len()
        invariant
            i <= steps@.len(),
            sv == marks_view(steps@),
            groups@.map_values(|g: (usize, usize)| (g.0 as int, g.1 as int)) == groups_of(sv, i as int),
        decreases steps.len() - i,
    {
        proof {
            lemma_groups(sv, i as int);
        }
        let ghost gv = groups_of(sv, i as int);
        assert(sv[i as int].0 == steps@[i as int].0);
        if steps[i].0 != ' ' {
            let gl = groups.len();
            if gl > 0 && {
                assert(gv[gl - 1] == (groups@[gl - 1].0 as int, groups@[gl - 1].1 as int));
                i - groups[gl - 1].1 <= 2 * CONTEXT + 1
            } {
                let first = groups[gl - 1].0;
                groups.set(gl - 1, (first, i));
            } else {
                groups.push((i, i));
            }
        }
        assert(groups@.map_values(|g: (usize, usize)| (g.0 as int, g.1 as int)) =~= groups_of(sv, i + 1));
        i = i + 1;
    }
    proof {
        lemma_groups(sv, sv.len() as int);
    }
    let ghost gs = groups_of(sv, sv.len() as int);
    let mut out: Vec<char> = Vec::new();
    let mut g: usize = 0;
    while g < groups.len()
        invariant
            g <= groups@.len(),
            sv == marks_view(steps@),
            skip + steps@.len() + 2 <= usize::MAX,
            groups@.map_values(|x: (usize, usize)| (x.0 as int, x.1 as int)) == gs,
            forall|k: int| 0 <= k < gs.len() ==> 0 <= #[trigger] gs[k].0 <= gs[k].1 < sv.len(),
            out@ == hunks(sv, skip as int, gs, g as int),
        decreases groups.len() - g,
    {
        assert(gs[g as int] == (groups@[g as int].0 as int, groups@[g as int].1 as int));
        let (first, last) = groups[g];
        write_hunk(&mut out, steps, skip, first, last);
        g = g + 1;
    }
    out
}

/// The lines of a file that are not the same any more, as a diff: `@@` to
/// say where, `-` for what went, `+` for what came, with two lines of
/// context; the whole file instead when the diff would be longer than it,
/// and a plain statement when nothing moved after all.
pub open spec fn replaced_of(before: Seq<char>, after: Seq<char>) -> Seq<char> {
    let old = rows_of(before);
    let new = rows_of(after);
    let head = common_head(old, new) as int;
    let tail = common_tail(old.skip(head), new.skip(head)) as int;
    let room = if old.len() < new.len() {
        old.len() as int
    } else {
        new.len() as int
    };
    let h = if head >= CONTEXT {
        head - CONTEXT
    } else {
        0
    };
    let t0 = if tail >= CONTEXT {
        tail - CONTEXT
    } else {
        0
    };
    let t = if t0 < room - h {
        t0
    } else {
        room - h
    };
    let o = old.subrange(h, old.len() - t);
    let n = new.subrange(h, new.len() - t);
    let ends = "The file is "@ + decimal(new.len()) + " lines long."@;
    if o.len() == 0 && n.len() == 0 {
        "nothing changed after all. "@ + ends
    } else {
        let steps = if o.len() * n.len() > CELLS {
            marked_steps(all_as(o, Change::Removed) + all_as(n, Change::Added))
        } else {
            marked_steps(walk(o, n, 0, 0))
        };
        let text = written_of(steps, h);
        if byte_len(text) >= byte_len(after) {
            "it now reads, in full:\n\n"@ + numbered_of(after) + "\n\n"@ + ends
        } else {
            "these lines changed:\n\n"@ + text + "\n"@ + ends
        }
    }
}

proof fn lemma_head_is(a: Seq<Seq<char>>, b: Seq<Seq<char>>, k: int)
    requires
        0 <= k <= a.len(),
        k <= b.len(),
        forall|i: int| 0 <= i < k ==> a[i] == b[i],
        k == a.len() || k == b.len() || a[k] != b[k],
    ensures
        common_head(a, b) == k,
    decreases k,
{
    if k > 0 {
        assert forall|i: int| 0 <= i < k - 1 implies a.drop_first()[i] == b.drop_first()[i] by {
            assert(a[i + 1] == b[i + 1]);
        }
        if k < a.len() && k < b.len() {
            assert(a.drop_first()[k - 1] == a[k]);
        }
        lemma_head_is(a.drop_first(), b.drop_first(), k - 1);
    }
}

/// The line `i` from the end.
pub open spec fn from_end(a: Seq<Seq<char>>, i: int) -> Seq<char> {
    a[a.len() - 1 - i]
}

proof fn lemma_tail_is(a: Seq<Seq<char>>, b: Seq<Seq<char>>, k: int)
    requires
        0 <= k <= a.len(),
        k <= b.len(),
        forall|i: int| 0 <= i < k ==> #[trigger] from_end(a, i) == from_end(b, i),
        k == a.len() || k == b.len() || a[a.len() - 1 - k] != b[b.len() - 1 - k],
    ensures
        common_tail(a, b) == k,
    decreases k,
{
    if k > 0 {
        assert(from_end(a, 0) == from_end(b, 0));
        let a2 = a.drop_last();
        let b2 = b.drop_last();
        assert forall|i: int| 0 <= i < k - 1 implies #[trigger] from_end(a2, i) == from_end(b2, i) by {
            assert(from_end(a, i + 1) == from_end(b, i + 1));
        }
        if k < a.len() && k < b.len() {
            assert(a2[a2.len() - 1 - (k - 1)] == a[a.len() - 1 - k]);
        }
        lemma_tail_is(a2, b2, k - 1);
    }
}

proof fn lemma_walk_len(a: Seq<Seq<char>>, b: Seq<Seq<char>>, i: int, j: int)
    requires
        0 <= i <= a.len(),
        0 <= j <= b.len(),
    ensures
        walk(a, b, i, j).len() <= (a.len() - i) + (b.len() - j),
    decreases a.len() - i + b.len() - j,
{
    if i < a.len() && j < b.len() {
        if a[i] == b[j] {
            lemma_walk_len(a, b, i + 1, j + 1);
        } else if crate::diff::lcs(a, b, i + 1, j) >= crate::diff::lcs(a, b, i, j + 1) {
            lemma_walk_len(a, b, i + 1, j);
        } else {
            lemma_walk_len(a, b, i, j + 1);
        }
    }
}

/// Some of the rows, from `from` up to `to`, copied.
fn rows_range(v: &Vec<Vec<char>>, from: usize, to: usize) -> (r: Vec<Vec<char>>)
    requires
        from <= to <= v@.len(),
    ensures
        views(r@) == views(v@).subrange(from as int, to as int),
{
    let mut out: Vec<Vec<char>> = Vec::new();
    let mut i = from;
    while i < to
        invariant
            from <= i <= to <= v@.len(),
            views(out@) == views(v@).subrange(from as int, i as int),
        decreases to - i,
    {
        let ghost before = views(out@);
        let x = slice(&v[i], 0, v[i].len());
        assert(x@ =~= v@[i as int]@);
        out.push(x);
        assert(views(out@) =~= before.push(x@));
        assert(views(v@).subrange(from as int, i + 1) =~= views(v@).subrange(from as int, i as int).push(v@[i as int]@));
        i = i + 1;
    }
    out
}

/// How many lines the two files begin and end with in common.
fn common_ends(old: &Vec<Vec<char>>, new: &Vec<Vec<char>>) -> (r: (usize, usize))
    ensures
        r.0 == common_head(views(old@), views(new@)),
        r.0 <= old@.len() && r.0 <= new@.len(),
        r.1 == common_tail(views(old@).skip(r.0 as int), views(new@).skip(r.0 as int)),
        r.1 <= old@.len() - r.0 && r.1 <= new@.len() - r.0,
{
    let ghost ov = views(old@);
    let ghost nv = views(new@);
    let mut head: usize = 0;
    while head < old.len() && head < new.len() && same(&old[head], &new[head])
        invariant
            head <= old@.len(),
            head <= new@.len(),
            ov == views(old@),
            nv == views(new@),
            forall|i: int| 0 <= i < head ==> ov[i] == nv[i],
        decreases old.len() - head,
    {
        assert(ov[head as int] == old@[head as int]@ && nv[head as int] == new@[head as int]@);
        head = head + 1;
    }
    proof {
        if head < old.len() && head < new.len() {
            assert(ov[head as int] == old@[head as int]@ && nv[head as int] == new@[head as int]@);
        }
        lemma_head_is(ov, nv, head as int);
    }
    let ghost os = ov.skip(head as int);
    let ghost ns = nv.skip(head as int);
    let mut tail: usize = 0;
    while tail < old.len() - head && tail < new.len() - head && same(
        &old[old.len() - 1 - tail],
        &new[new.len() - 1 - tail],
    )
        invariant
            head <= old@.len(),
            head <= new@.len(),
            tail <= old@.len() - head,
            tail <= new@.len() - head,
            ov == views(old@),
            nv == views(new@),
            os == ov.skip(head as int),
            ns == nv.skip(head as int),
            forall|i: int| 0 <= i < tail ==> #[trigger] from_end(os, i) == from_end(ns, i),
        decreases old.len() - tail,
    {
        assert(from_end(os, tail as int) == old@[old@.len() - 1 - tail]@);
        assert(from_end(ns, tail as int) == new@[new@.len() - 1 - tail]@);
        tail = tail + 1;
    }
    proof {
        if tail < old.len() - head && tail < new.len() - head {
            assert(from_end(os, tail as int) == old@[old@.len() - 1 - tail]@);
            assert(from_end(ns, tail as int) == new@[new@.len() - 1 - tail]@);
        }
        lemma_tail_is(os, ns, tail as int);
    }
    (head, tail)
}

/// Everything on one side gone and everything on the other come.
fn all_marked(o: &Vec<Vec<char>>, n: &Vec<Vec<char>>) -> (r: Vec<(char, Vec<char>)>)
    ensures
        marks_view(r@) == marked_steps(all_as(views(o@), Change::Removed) + all_as(views(n@), Change::Added)),
        r@.len() == o@.len() + n@.len(),
{
    let ghost wo = views(o@);
    let ghost wn = views(n@);
    let mut steps: Vec<(char, Vec<char>)> = Vec::new();
    let mut i: usize = 0;
    while i < o.len()
        invariant
            i <= o@.len(),
            wo == views(o@),
            marks_view(steps@) == marked_steps(all_as(wo.take(i as int), Change::Removed)),
        decreases o.len() - i,
    {
        let ghost before = marks_view(steps@);
        let x = slice(&o[i], 0, o[i].len());
        assert(x@ =~= wo[i as int]);
        steps.push(('-', x));
        assert(marks_view(steps@) =~= before.push(('-', x@)));
        assert(marked_steps(all_as(wo.take(i + 1), Change::Removed)) =~= marked_steps(all_as(wo.take(i as int), Change::Removed)).push(('-', wo[i as int])));
        i = i + 1;
    }
    assert(wo.take(o@.len() as int) =~= wo);
    let ghost mid = marks_view(steps@);
    let mut j: usize = 0;
    while j < n.len()
        invariant
            j <= n@.len(),
            wn == views(n@),
            marks_view(steps@) == mid + marked_steps(all_as(wn.take(j as int), Change::Added)),
        decreases n.len() - j,
    {
        let ghost before = marks_view(steps@);
        let x = slice(&n[j], 0, n[j].len());
        assert(x@ =~= wn[j as int]);
        steps.push(('+', x));
        assert(marks_view(steps@) =~= before.push(('+', x@)));
        assert(marked_steps(all_as(wn.take(j + 1), Change::Added)) =~= marked_steps(all_as(wn.take(j as int), Change::Added)).push(('+', wn[j as int])));
        j = j + 1;
    }
    assert(wn.take(n@.len() as int) =~= wn);
    assert(marks_view(steps@) =~= marked_steps(all_as(wo, Change::Removed) + all_as(wn, Change::Added)));
    steps
}

/// The two sides walked together, as marks and lines.
fn walk_marked(o: &Vec<Vec<char>>, n: &Vec<Vec<char>>) -> (r: Vec<(char, Vec<char>)>)
    requires
        walkable(o@.len(), n@.len()),
    ensures
        marks_view(r@) == marked_steps(walk(views(o@), views(n@), 0, 0)),
        r@.len() <= o@.len() + n@.len(),
{
    assert(words_view(o@) =~= views(o@));
    assert(words_view(n@) =~= views(n@));
    let w = walked(o, n);
    proof {
        lemma_walk_len(views(o@), views(n@), 0, 0);
    }
    let mut steps: Vec<(char, Vec<char>)> = Vec::new();
    let mut k: usize = 0;
    while k < w.len()
        invariant
            k <= w@.len(),
            marks_view(steps@) == marked_steps(steps_view(w@)).take(k as int),
        decreases w.len() - k,
    {
        let ghost before = marks_view(steps@);
        let x = slice(&w[k].1, 0, w[k].1.len());
        assert(x@ =~= w@[k as int].1@);
        let m = match w[k].0 {
            Change::Same => ' ',
            Change::Removed => '-',
            Change::Added => '+',
        };
        steps.push((m, x));
        assert(marks_view(steps@) =~= before.push((m, x@)));
        assert(marked_steps(steps_view(w@)).take(k + 1) =~= marked_steps(steps_view(w@)).take(k as int).push((m, x@)));
        k = k + 1;
    }
    assert(marked_steps(steps_view(w@)).take(w@.len() as int) =~= marked_steps(steps_view(w@)));
    steps
}

/// The lines of a file that are not the same any more, as a diff.
fn replaced(before: &[char], after: &[char]) -> (r: Vec<char>)
    requires
        rows_of(before@).len() + rows_of(after@).len() + 8 <= usize::MAX,
    ensures
        r@ == replaced_of(before@, after@),
{
    let old = rows(before);
    let new = rows(after);
    let (head, tail) = common_ends(&old, &new);
    let room = if old.len() < new.len() {
        old.len()
    } else {
        new.len()
    };
    let h = if head >= CONTEXT {
        head - CONTEXT
    } else {
        0
    };
    let t0 = if tail >= CONTEXT {
        tail - CONTEXT
    } else {
        0
    };
    let t = if t0 < room - h {
        t0
    } else {
        room - h
    };
    let o = rows_range(&old, h, old.len() - t);
    let n = rows_range(&new, h, new.len() - t);
    let mut ends = chars_of("The file is ");
    write_usize(&mut ends, new.len());
    push_str(&mut ends, " lines long.");
    if o.len() == 0 && n.len() == 0 {
        let mut out = chars_of("nothing changed after all. ");
        push_all(&mut out, &ends);
        return out;
    }
    let ol = o.len() as u128;
    let nl = n.len() as u128;
    assert(ol * nl <= u128::MAX) by (nonlinear_arith)
        requires
            ol <= u64::MAX,
            nl <= u64::MAX,
    ;
    let big = ol * nl > CELLS as u128;
    let steps = if big {
        all_marked(&o, &n)
    } else {
        proof {
            if o@.len() > 4_000_000 && n@.len() > 4_000_000 {
                assert(o@.len() * n@.len() > 4_000_000) by (nonlinear_arith)
                    requires
                        o@.len() > 4_000_000,
                        n@.len() > 4_000_000,
                ;
            }
        }
        walk_marked(&o, &n)
    };
    assert(h + steps@.len() + 2 <= usize::MAX) by {
        assert(views(old@).len() == old@.len());
        assert(views(new@).len() == new@.len());
        assert(views(o@).len() == o@.len());
        assert(views(n@).len() == n@.len());
    }
    let text = written(&steps, h);
    let mut out: Vec<char>;
    if utf8_len(&text) >= utf8_len(after) {
        out = chars_of("it now reads, in full:\n\n");
        let num = numbered_chars(after);
        push_all(&mut out, &num);
        push_str(&mut out, "\n\n");
        push_all(&mut out, &ends);
    } else {
        out = chars_of("these lines changed:\n\n");
        push_all(&mut out, &text);
        push_str(&mut out, "\n");
        push_all(&mut out, &ends);
    }
    out
}

// ------------------------------------------------------------ what moved

/// What the model is told before what has moved since it was shown the
/// project: that this, and nothing before it, is current.
pub const MOVED: &'static str = "STOP. The files below have changed on disk since anything you have been \
             told about them - including the copy written out at the top of this \
             conversation, and including anything you or the user said about them in \
             earlier turns. All of that is out of date and must be ignored. What \
             follows is the only current text. Answer from this and nothing else.\n\n";

/// Where the file called `name` is in a list of named texts, if it is.
pub open spec fn find_named(files: Seq<(Seq<char>, Seq<char>)>, name: Seq<char>) -> Option<int>
    decreases files.len(),
{
    if files.len() == 0 {
        None
    } else if files[0].0 == name {
        Some(0)
    } else {
        match find_named(files.drop_first(), name) {
            Some(i) => Some(i + 1),
            None => None,
        }
    }
}

/// What is said of one file now in the project: nothing when it weighs the
/// same as what was shown; the lines that changed when it was shown; the
/// whole of it when it was not.
pub open spec fn since_part(
    shown: Seq<(Seq<char>, Seq<char>)>,
    shown_prints: Seq<u64>,
    name: Seq<char>,
    text: Seq<char>,
    print: u64,
) -> Seq<char> {
    match find_named(shown, name) {
        Some(i) => if shown_prints[i] == print {
            seq![]
        } else {
            "In `"@ + name + "`, "@ + replaced_of(shown[i].1, text) + "\n\n"@
        },
        None => "`"@ + name + "` now contains, in full:\n\n"@ + numbered_of(text) + "\n\n"@,
    }
}

/// What is said of the first `k` files now in the project.
pub open spec fn since_parts(
    shown: Seq<(Seq<char>, Seq<char>)>,
    now: Seq<(Seq<char>, Seq<char>)>,
    shown_prints: Seq<u64>,
    now_prints: Seq<u64>,
    k: int,
) -> Seq<char>
    decreases k,
{
    if k <= 0 {
        seq![]
    } else {
        since_parts(shown, now, shown_prints, now_prints, k - 1) + since_part(
            shown,
            shown_prints,
            now[k - 1].0,
            now[k - 1].1,
            now_prints[k - 1],
        )
    }
}

/// Whether a file of this name is in the list.
pub open spec fn has_named(files: Seq<(Seq<char>, Seq<char>)>, name: Seq<char>) -> bool {
    exists|j: int| 0 <= j < files.len() && #[trigger] files[j].0 == name
}

/// What is said of the first `k` files shown that are gone.
pub open spec fn gone_parts(shown: Seq<(Seq<char>, Seq<char>)>, now: Seq<(Seq<char>, Seq<char>)>, k: int) -> Seq<
    char,
>
    decreases k,
{
    if k <= 0 {
        seq![]
    } else {
        gone_parts(shown, now, k - 1) + if has_named(now, shown[k - 1].0) {
            seq![]
        } else {
            "`"@ + shown[k - 1].0 + "` is gone.\n\n"@
        }
    }
}

/// What has changed in a project since the model was shown it, given each
/// file's fingerprint as shown and as it is now: nothing, when nothing has.
pub open spec fn since_with(
    shown: Seq<(Seq<char>, Seq<char>)>,
    now: Seq<(Seq<char>, Seq<char>)>,
    shown_prints: Seq<u64>,
    now_prints: Seq<u64>,
) -> Option<Seq<char>> {
    let out = since_parts(shown, now, shown_prints, now_prints, now.len() as int) + gone_parts(
        shown,
        now,
        shown.len() as int,
    );
    if out.len() == 0 {
        None
    } else {
        Some(MOVED@ + trim_end(out))
    }
}

/// Each file's fingerprint.
pub open spec fn prints_of(files: Seq<(Seq<char>, Seq<char>)>) -> Seq<u64> {
    files.map_values(|f: (Seq<char>, Seq<char>)| fingerprint_of(f.1))
}

/// What has changed in a project since the model was shown it.
pub open spec fn since_of(shown: Seq<(Seq<char>, Seq<char>)>, now: Seq<(Seq<char>, Seq<char>)>) -> Option<
    Seq<char>,
> {
    since_with(shown, now, prints_of(shown), prints_of(now))
}

/// Texts whose lines can be counted and compared without running out of
/// numbers.
pub open spec fn countable(files: Seq<(Seq<char>, Seq<char>)>) -> bool {
    forall|i: int| 0 <= i < files.len() ==> rows_of(#[trigger] files[i].1).len() <= usize::MAX / 2 - 8
}

/// Where the file called `name` is in a list of named texts.
fn position_of(files: &[(String, String)], name: &String) -> (r: Option<usize>)
    ensures
        r matches Some(i) ==> find_named(named_texts(files@), name@) == Some(i as int) && i < files@.len(),
        r is None ==> find_named(named_texts(files@), name@) is None,
{
    let ghost fs = named_texts(files@);
    let mut i: usize = 0;
    assert(fs.skip(0) =~= fs);
    while i < files.len()
        invariant
            i <= files@.len(),
            fs == named_texts(files@),
            forall|j: int| 0 <= j < i ==> fs[j].0 != name@,
            find_named(fs, name@) == match find_named(fs.skip(i as int), name@) {
                Some(k) => Some(k + i),
                None => None,
            },
        decreases files.len() - i,
    {
        assert(fs[i as int] == (files@[i as int].0@, files@[i as int].1@));
        assert(fs.skip(i as int)[0] == fs[i as int]);
        if files[i].0 == *name {
            return Some(i);
        }
        assert(fs.skip(i as int).drop_first() =~= fs.skip(i + 1));
        i = i + 1;
    }
    None
}

/// What has changed in a project since the model was shown it, given each
/// file's fingerprint as it was shown and as it is now.
pub fn since_given(
    shown: &[(String, String)],
    now: &[(String, String)],
    shown_prints: &[u64],
    now_prints: &[u64],
) -> (r: Option<String>)
    requires
        shown_prints@.len() == shown@.len(),
        now_prints@.len() == now@.len(),
        countable(named_texts(shown@)),
        countable(named_texts(now@)),
    ensures
        r matches Some(t) ==> since_with(named_texts(shown@), named_texts(now@), shown_prints@, now_prints@) == Some(t@),
        r is None ==> since_with(named_texts(shown@), named_texts(now@), shown_prints@, now_prints@) is None,
{
    let ghost sv = named_texts(shown@);
    let ghost nv = named_texts(now@);
    let mut out: Vec<char> = Vec::new();
    let mut k: usize = 0;
    while k < now.len()
        invariant
            k <= now@.len(),
            sv == named_texts(shown@),
            nv == named_texts(now@),
            shown_prints@.len() == shown@.len(),
            now_prints@.len() == now@.len(),
            countable(sv),
            countable(nv),
            out@ == since_parts(sv, nv, shown_prints@, now_prints@, k as int),
        decreases now.len() - k,
    {
        assert(nv[k as int] == (now@[k as int].0@, now@[k as int].1@));
        let ghost before = out@;
        let name = &now[k].0;
        let text = chars_of(now[k].1.as_str());
        match position_of(shown, name) {
            Some(i) => {
                assert(sv[i as int] == (shown@[i as int].0@, shown@[i as int].1@));
                if shown_prints[i] != now_prints[k] {
                    push_str(&mut out, "In `");
                    push_str(&mut out, name.as_str());
                    push_str(&mut out, "`, ");
                    let b = chars_of(shown[i].1.as_str());
                    assert(rows_of(sv[i as int].1).len() <= usize::MAX / 2 - 8);
                    assert(rows_of(nv[k as int].1).len() <= usize::MAX / 2 - 8);
                    let r = replaced(&b, &text);
                    push_all(&mut out, &r);
                    push_str(&mut out, "\n\n");
                }
            },
            None => {
                push_str(&mut out, "`");
                push_str(&mut out, name.as_str());
                push_str(&mut out, "` now contains, in full:\n\n");
                let num = numbered_chars(&text);
                push_all(&mut out, &num);
                push_str(&mut out, "\n\n");
            },
        }
        assert(out@ =~= before + since_part(sv, shown_prints@, nv[k as int].0, nv[k as int].1, now_prints@[k as int]));
        k = k + 1;
    }
    let mut j: usize = 0;
    let ghost mid = out@;
    while j < shown.len()
        invariant
            j <= shown@.len(),
            sv == named_texts(shown@),
            nv == named_texts(now@),
            out@ == mid + gone_parts(sv, nv, j as int),
        decreases shown.len() - j,
    {
        assert(sv[j as int] == (shown@[j as int].0@, shown@[j as int].1@));
        let ghost before = out@;
        let present = position_of(now, &shown[j].0).is_some();
        proof {
            lemma_find_named(nv, sv[j as int].0);
        }
        if !present {
            push_str(&mut out, "`");
            push_str(&mut out, shown[j].0.as_str());
            push_str(&mut out, "` is gone.\n\n");
        }
        assert(out@ =~= before + (if has_named(nv, sv[j as int].0) {
            seq![]
        } else {
            "`"@ + sv[j as int].0 + "` is gone.\n\n"@
        }));
        j = j + 1;
    }
    if out.len() == 0 {
        None
    } else {
        let mut r = chars_of(MOVED);
        let t = trimmed_end(&out);
        push_all(&mut r, &t);
        Some(string_of(&r))
    }
}

proof fn lemma_find_named(files: Seq<(Seq<char>, Seq<char>)>, name: Seq<char>)
    ensures
        find_named(files, name) is Some <==> has_named(files, name),
    decreases files.len(),
{
    if files.len() > 0 {
        lemma_find_named(files.drop_first(), name);
        if has_named(files, name) && files[0].0 != name {
            let j = choose|j: int| 0 <= j < files.len() && #[trigger] files[j].0 == name;
            assert(files.drop_first()[j - 1].0 == name);
        }
        if has_named(files.drop_first(), name) {
            let j = choose|j: int| 0 <= j < files.drop_first().len() && #[trigger] files.drop_first()[j].0 == name;
            assert(files[j + 1].0 == name);
        }
    }
}

/// What has changed in a project since the model was shown it.
///
/// Nothing, when nothing has. Otherwise a note saying which files moved and
/// what their lines say now, meant to go at the end of a question rather than
/// at the front with the rest of the project: a file that weighs the same as
/// it did, by its fingerprint, is passed over; one that moved is given as the
/// lines that changed; one that is new is given whole; one that went is
/// named.
pub fn since(shown: &[(String, String)], now: &[(String, String)]) -> (r: Option<String>)
    requires
        countable(named_texts(shown@)),
        countable(named_texts(now@)),
    ensures
        r matches Some(t) ==> since_of(named_texts(shown@), named_texts(now@)) == Some(t@),
        r is None ==> since_of(named_texts(shown@), named_texts(now@)) is None,
{
    let sp = prints(shown);
    let np = prints(now);
    since_given(shown, now, &sp, &np)
}

/// Each file's fingerprint.
fn prints(files: &[(String, String)]) -> (r: Vec<u64>)
    ensures
        r@ == prints_of(named_texts(files@)),
{
    let mut out: Vec<u64> = Vec::new();
    let mut i: usize = 0;
    while i < files.len()
        invariant
            i <= files@.len(),
            out@ == prints_of(named_texts(files@)).take(i as int),
        decreases files.len() - i,
    {
        out.push(fingerprint(files[i].1.as_str()));
        assert(out@ =~= prints_of(named_texts(files@)).take(i + 1));
        i = i + 1;
    }
    assert(prints_of(named_texts(files@)).take(files@.len() as int) =~= prints_of(named_texts(files@)));
    out
}


// ------------------------------------------------------- the list again

/// The name a line of the list of notes is known by: what stands after its
/// first backtick, up to the next.
pub open spec fn list_key(line: Seq<char>) -> Option<Seq<char>> {
    second_piece(line, "`"@)
}

/// The first line from `i` on that is known by `k`.
pub open spec fn keyed_from(ls: Seq<Seq<char>>, k: Seq<char>, i: int) -> Option<Seq<char>>
    decreases ls.len() - i,
{
    if i < 0 || i >= ls.len() {
        None
    } else if list_key(ls[i]) == Some(k) {
        Some(ls[i])
    } else {
        keyed_from(ls, k, i + 1)
    }
}

/// Whether a line of the new list is what the old list said under its name.
pub open spec fn unmoved(line: Seq<char>, before: Seq<Seq<char>>) -> bool {
    match list_key(line) {
        Some(k) => keyed_from(before, k, 0) == Some(line),
        None => false,
    }
}

/// The lines among the first `n` of the new list that the old list did not
/// have, each with its line break.
pub open spec fn moved_lines(after: Seq<Seq<char>>, before: Seq<Seq<char>>, n: int) -> Seq<char>
    decreases n,
{
    if n <= 0 {
        seq![]
    } else {
        moved_lines(after, before, n - 1) + if unmoved(after[n - 1], before) {
            seq![]
        } else {
            after[n - 1] + seq!['\n']
        }
    }
}

/// Whether some line of the list is known by `k`.
pub open spec fn keyed_in(ls: Seq<Seq<char>>, k: Seq<char>) -> bool {
    exists|j: int| 0 <= j < ls.len() && list_key(#[trigger] ls[j]) == Some(k)
}

/// The names of the first `n` lines of the old list that no line of the new
/// list is known by.
pub open spec fn gone_names(before: Seq<Seq<char>>, after: Seq<Seq<char>>, n: int) -> Seq<Seq<char>>
    decreases n,
{
    if n <= 0 {
        seq![]
    } else {
        gone_names(before, after, n - 1) + match list_key(before[n - 1]) {
            Some(k) => if keyed_in(after, k) {
                seq![]
            } else {
                seq![k]
            },
            None => seq![],
        }
    }
}

/// A name in backticks.
pub open spec fn backticked(k: Seq<char>) -> Seq<char> {
    "`"@ + k + "`"@
}

/// Each name in backticks.
pub open spec fn all_backticked(ks: Seq<Seq<char>>) -> Seq<Seq<char>> {
    ks.map_values(|k: Seq<char>| backticked(k))
}

/// How a correction to the list of notes begins.
pub const STALE: &'static str = "The list of notes at the top is out of date.";

/// What has changed about the list of notes: nothing, when nothing has; the
/// whole list again, when naming what moved would take as much room; and
/// otherwise the lines that differ and the notes that went.
pub open spec fn relisted_of(before: Seq<char>, after: Seq<char>) -> Option<Seq<char>> {
    let bl = lines(before);
    let al = lines(after);
    let changed = moved_lines(al, bl, al.len() as int);
    let gone = gone_names(bl, al, bl.len() as int);
    if changed.len() == 0 && gone.len() == 0 {
        None
    } else if byte_len(changed) + gone.len() * 16 >= byte_len(after) {
        Some(STALE@ + " It is now:\n\n"@ + after)
    } else {
        Some(
            STALE@ + (if changed.len() > 0 {
                " These lines of it are different now:\n\n"@ + trim_end(changed)
            } else {
                seq![]
            }) + (if gone.len() > 0 {
                "\n\nThese notes are no longer in the vault: "@ + join(all_backticked(gone), ", "@)
            } else {
                seq![]
            }),
        )
    }
}

/// The name a line of the list is known by.
fn key_of(line: &[char]) -> (r: Option<Vec<char>>)
    ensures
        r matches Some(x) ==> list_key(line@) == Some(x@),
        r is None ==> list_key(line@) is None,
{
    second_str(line, "`")
}

/// Where the first line known by `k` is.
fn keyed(ls: &Vec<Vec<char>>, k: &Vec<char>) -> (r: Option<usize>)
    ensures
        r matches Some(i) ==> i < ls@.len() && keyed_from(views(ls@), k@, 0) == Some(ls@[i as int]@),
        r is None ==> keyed_from(views(ls@), k@, 0) is None,
        r is None <==> !keyed_in(views(ls@), k@),
{
    let ghost lv = views(ls@);
    let mut i: usize = 0;
    while i < ls.len()
        invariant
            i <= ls@.len(),
            lv == views(ls@),
            keyed_from(lv, k@, 0) == keyed_from(lv, k@, i as int),
            forall|j: int| 0 <= j < i ==> list_key(#[trigger] lv[j]) != Some(k@),
        decreases ls.len() - i,
    {
        assert(lv[i as int] == ls@[i as int]@);
        let hit = match key_of(&ls[i]) {
            Some(x) => same(&x, k),
            None => false,
        };
        if hit {
            return Some(i);
        }
        i = i + 1;
    }
    None
}

/// The lines of the new list that the old one did not have.
fn moved(al: &Vec<Vec<char>>, bl: &Vec<Vec<char>>) -> (r: Vec<char>)
    ensures
        r@ == moved_lines(views(al@), views(bl@), al@.len() as int),
{
    let ghost av = views(al@);
    let ghost bv = views(bl@);
    let mut out: Vec<char> = Vec::new();
    let mut i: usize = 0;
    while i < al.len()
        invariant
            i <= al@.len(),
            av == views(al@),
            bv == views(bl@),
            out@ == moved_lines(av, bv, i as int),
        decreases al.len() - i,
    {
        assert(av[i as int] == al@[i as int]@);
        let ghost before = out@;
        let kept = match key_of(&al[i]) {
            Some(k) => match keyed(bl, &k) {
                Some(j) => same(&bl[j], &al[i]),
                None => false,
            },
            None => false,
        };
        if !kept {
            push_all(&mut out, &al[i]);
            out.push('\n');
        }
        assert(out@ =~= before + if unmoved(av[i as int], bv) {
            seq![]
        } else {
            av[i as int] + seq!['\n']
        });
        i = i + 1;
    }
    out
}

/// The names of the old list that the new one has no line for.
fn gone_of(bl: &Vec<Vec<char>>, al: &Vec<Vec<char>>) -> (r: Vec<Vec<char>>)
    ensures
        views(r@) == gone_names(views(bl@), views(al@), bl@.len() as int),
{
    let ghost av = views(al@);
    let ghost bv = views(bl@);
    let mut out: Vec<Vec<char>> = Vec::new();
    let mut i: usize = 0;
    while i < bl.len()
        invariant
            i <= bl@.len(),
            av == views(al@),
            bv == views(bl@),
            views(out@) == gone_names(bv, av, i as int),
        decreases bl.len() - i,
    {
        assert(bv[i as int] == bl@[i as int]@);
        let ghost before = views(out@);
        match key_of(&bl[i]) {
            Some(k) => {
                if keyed(al, &k).is_none() {
                    out.push(k);
                }
            },
            None => {},
        }
        assert(views(out@) =~= before + match list_key(bv[i as int]) {
            Some(k) => if keyed_in(av, k) {
                seq![]
            } else {
                seq![k]
            },
            None => seq![],
        });
        i = i + 1;
    }
    out
}

/// Each name in backticks.
fn backticked_each(ks: &Vec<Vec<char>>) -> (r: Vec<Vec<char>>)
    ensures
        views(r@) == all_backticked(views(ks@)),
{
    let mut out: Vec<Vec<char>> = Vec::new();
    let mut i: usize = 0;
    while i < ks.len()
        invariant
            i <= ks@.len(),
            views(out@) == all_backticked(views(ks@)).take(i as int),
        decreases ks.len() - i,
    {
        let mut q = chars_of("`");
        push_all(&mut q, &ks[i]);
        push_str(&mut q, "`");
        let ghost before = views(out@);
        assert(views(ks@)[i as int] == ks@[i as int]@);
        assert(q@ == backticked(views(ks@)[i as int]));
        out.push(q);
        assert(views(out@) =~= before.push(backticked(views(ks@)[i as int])));
        assert(views(out@) =~= all_backticked(views(ks@)).take(i + 1));
        i = i + 1;
    }
    assert(all_backticked(views(ks@)).take(ks@.len() as int) =~= all_backticked(views(ks@)));
    out
}

/// What has changed about the list of notes, rather than the list again.
///
/// Nothing, when nothing has. A line of the list is known by the path in
/// backticks at its head; the lines that say something else than the old
/// list said under their name are given, and the names the new list no
/// longer has. Past the point where naming the differences would take as
/// much room as the list itself, the whole list is given again.
pub fn relisted(before: &str, after: &str) -> (r: Option<String>)
    ensures
        r matches Some(t) ==> relisted_of(before@, after@) == Some(t@),
        r is None ==> relisted_of(before@, after@) is None,
{
    let bc = chars_of(before);
    let ac = chars_of(after);
    let bl = lines_of(&bc);
    let al = lines_of(&ac);
    let ghost bv = lines(before@);
    let ghost av = lines(after@);
    assert(views(bl@) =~= bv);
    assert(views(al@) =~= av);
    let changed = moved(&al, &bl);
    let gone = gone_of(&bl, &al);
    if changed.len() == 0 && gone.len() == 0 {
        return None;
    }
    let cb = utf8_len(&changed);
    let ab = utf8_len(&ac);
    let gl = gone.len() as u128;
    if cb + gl * 16 >= ab {
        let mut out = chars_of(STALE);
        push_str(&mut out, " It is now:\n\n");
        push_all(&mut out, &ac);
        return Some(string_of(&out));
    }
    let mut out = chars_of(STALE);
    let ghost head = out@;
    if changed.len() > 0 {
        push_str(&mut out, " These lines of it are different now:\n\n");
        let t = trimmed_end(&changed);
        push_all(&mut out, &t);
    }
    let ghost mid = out@;
    if gone.len() > 0 {
        push_str(&mut out, "\n\nThese notes are no longer in the vault: ");
        let q = backticked_each(&gone);
        let sep = chars_of(", ");
        let j = joined(&q, &sep);
        push_all(&mut out, &j);
    }
    Some(string_of(&out))
}

// ------------------------------------------------- the passage in its note

/// How much of the surrounding note to send, in bytes: a window rather than
/// the whole thing once a note gets long.
pub const ROOM: usize = 8000;

/// Where the passage under discussion is marked in the note around it.
pub const OPEN: &'static str = "<selection>";

/// Where it ends.
pub const CLOSE: &'static str = "</selection>";

/// The character at which byte offset `b` falls, counting from character `i`
/// at byte `acc`: nothing, when `b` falls inside a character or past the end.
pub open spec fn char_at_from(s: Seq<char>, b: int, i: int, acc: int) -> Option<int>
    decreases s.len() - i,
{
    if acc == b {
        Some(i)
    } else if i < 0 || i >= s.len() || acc > b {
        None
    } else {
        char_at_from(s, b, i + 1, acc + char_bytes(s[i]))
    }
}

/// The character at which byte offset `b` falls, if it falls between two.
pub open spec fn char_at(s: Seq<char>, b: int) -> Option<int> {
    char_at_from(s, b, 0, 0)
}

/// Whether byte offset `b` falls between two characters of `s`.
pub open spec fn boundary(s: Seq<char>, b: int) -> bool {
    char_at(s, b) is Some
}

/// The last `room` bytes of a text, from a line boundary, said to be the end
/// of something longer.
pub open spec fn keep_last_of(text: Seq<char>, room: nat) -> Seq<char> {
    if byte_len(text) <= room {
        text
    } else {
        let ci = char_at(text, byte_len(text) - room)->Some_0;
        "[...earlier lines not shown...]\n"@ + match crate::strs::find_from(text, seq!['\n'], ci) {
            Some(j) => text.skip(j + 1),
            None => seq![],
        }
    }
}

/// The first `room` bytes of a text, to a line boundary, said to be the start
/// of something longer.
pub open spec fn keep_first_of(text: Seq<char>, room: nat) -> Seq<char> {
    if byte_len(text) <= room {
        text
    } else {
        let ri = char_at(text, room as int)->Some_0;
        let cut = match rfind(text.take(ri), seq!['\n']) {
            Some(k) => k,
            None => ri,
        };
        text.take(cut) + "\n[...later lines not shown...]"@
    }
}

/// The smaller of two numbers.
pub open spec fn smaller(a: int, b: int) -> int {
    if a <= b {
        a
    } else {
        b
    }
}

/// The note cut into what comes before the passage, the passage, and what
/// comes after, at byte offsets `before` and `after`.
pub open spec fn thirds(whole: Seq<char>, before: int, after: int) -> (Seq<char>, Seq<char>, Seq<char>) {
    let hi = char_at(whole, smaller(before, byte_len(whole) as int))->Some_0;
    let rest = whole.skip(hi);
    let m = smaller(if after >= before { after - before } else { 0 }, byte_len(rest) as int);
    let mi = char_at(rest, m)->Some_0;
    (whole.take(hi), rest.take(mi), rest.skip(mi))
}

/// Where the byte offsets fall between characters, and so does each place
/// the windows either side of the passage are cut.
pub open spec fn markable(whole: Seq<char>, before: int, after: int) -> bool {
    let hb = smaller(before, byte_len(whole) as int);
    &&& boundary(whole, hb)
    &&& {
        let hi = char_at(whole, hb)->Some_0;
        let rest = whole.skip(hi);
        let m = smaller(if after >= before { after - before } else { 0 }, byte_len(rest) as int);
        &&& boundary(rest, m)
        &&& {
            let t = thirds(whole, before, after);
            &&& (byte_len(t.0) > ROOM / 2 ==> boundary(t.0, byte_len(t.0) - ROOM / 2))
            &&& (byte_len(t.2) > ROOM / 2 ==> boundary(t.2, (ROOM / 2) as int))
        }
    }
}

/// The note with the passage marked in place, kept to a window either side:
/// nothing, when there is nothing around the passage worth sending.
pub open spec fn marked_of(whole: Seq<char>, before: int, after: int) -> Option<Seq<char>> {
    let t = thirds(whole, before, after);
    if trim(t.0).len() == 0 && trim(t.2).len() == 0 {
        None
    } else {
        Some(keep_last_of(t.0, (ROOM / 2) as nat) + OPEN@ + t.1 + CLOSE@ + keep_first_of(t.2, (ROOM / 2) as nat))
    }
}

/// How many bytes a character takes.
fn char_len(c: char) -> (r: u128)
    ensures
        r == char_bytes(c),
{
    let u = c as u32;
    if u < 0x80 {
        1
    } else if u < 0x800 {
        2
    } else if u < 0x10000 {
        3
    } else {
        4
    }
}

/// The character at which byte offset `b` falls, if it falls between two.
fn char_index(v: &[char], b: u128) -> (r: Option<usize>)
    ensures
        r matches Some(i) ==> char_at(v@, b as int) == Some(i as int) && i <= v@.len(),
        r is None ==> char_at(v@, b as int) is None,
{
    let mut i: usize = 0;
    let mut acc: u128 = 0;
    while acc < b && i < v.len()
        invariant
            i <= v@.len(),
            acc <= 4 * i,
            char_at(v@, b as int) == char_at_from(v@, b as int, i as int, acc as int),
        decreases v.len() - i,
    {
        acc = acc + char_len(v[i]);
        i = i + 1;
    }
    if acc == b {
        Some(i)
    } else {
        None
    }
}

/// The last `room` bytes of a text, from a line boundary.
fn keep_last(text: &[char], room: usize) -> (r: Vec<char>)
    requires
        byte_len(text@) > room ==> boundary(text@, byte_len(text@) - room),
    ensures
        r@ == keep_last_of(text@, room as nat),
{
    let n = utf8_len(text);
    if n <= room as u128 {
        return slice(text, 0, text.len());
    }
    let len = text.len();
    let cut: u128 = n - room as u128;
    let ci = match char_index(text, cut) {
        Some(c) => c,
        None => 0,
    };
    let nl = vec!['\n'];
    assert(nl@ =~= seq!['\n']);
    let mut out = chars_of("[...earlier lines not shown...]\n");
    match crate::strs::find_at(text, &nl, ci) {
        Some(j) => {
            proof {
                crate::strs::lemma_find_from(text@, nl@, ci as int);
            }
            let rest = slice(text, j + 1, len);
            assert(rest@ =~= text@.skip(j + 1));
            push_all(&mut out, &rest);
        },
        None => {},
    }
    out
}

/// The first `room` bytes of a text, to a line boundary.
fn keep_first(text: &[char], room: usize) -> (r: Vec<char>)
    requires
        byte_len(text@) > room ==> boundary(text@, room as int),
    ensures
        r@ == keep_first_of(text@, room as nat),
{
    let n = utf8_len(text);
    if n <= room as u128 {
        return slice(text, 0, text.len());
    }
    let ri = match char_index(text, room as u128) {
        Some(c) => c,
        None => 0,
    };
    let head = slice(text, 0, ri);
    let nl = vec!['\n'];
    assert(nl@ =~= seq!['\n']);
    let cut = match rfind_in(&head, &nl) {
        Some(k) => {
            proof {
                lemma_rfind(head@, nl@);
            }
            k
        },
        None => ri,
    };
    let mut out = slice(text, 0, cut);
    assert(out@ =~= text@.take(cut as int));
    push_str(&mut out, "\n[...later lines not shown...]");
    out
}

/// The note with the passage marked in place, given the passage's byte
/// range.
///
/// Nothing, when there is nothing around the passage worth sending - when
/// the selection is the note - because repeating it under a second heading
/// only invites the model to answer about the wrong copy. Otherwise the
/// passage between the markers, with at most half the window of the note on
/// either side, kept to whole lines.
pub fn marked(whole: &str, before: usize, after: usize) -> (r: Option<String>)
    requires
        markable(whole@, before as int, after as int),
    ensures
        r matches Some(t) ==> marked_of(whole@, before as int, after as int) == Some(t@),
        r is None ==> marked_of(whole@, before as int, after as int) is None,
{
    let w = chars_of(whole);
    let n = utf8_len(&w);
    let hb: u128 = if (before as u128) <= n {
        before as u128
    } else {
        n
    };
    let hi = match char_index(&w, hb) {
        Some(c) => c,
        None => 0,
    };
    let head = slice(&w, 0, hi);
    let rest = slice(&w, hi, w.len());
    assert(rest@ =~= w@.skip(hi as int));
    let rn = utf8_len(&rest);
    let span: usize = if after >= before {
        after - before
    } else {
        0
    };
    let m: u128 = if (span as u128) <= rn {
        span as u128
    } else {
        rn
    };
    let mi = match char_index(&rest, m) {
        Some(c) => c,
        None => 0,
    };
    let mid = slice(&rest, 0, mi);
    let tail = slice(&rest, mi, rest.len());
    assert(tail@ =~= rest@.skip(mi as int));
    assert(head@ =~= w@.take(hi as int));
    assert(mid@ =~= rest@.take(mi as int));
    if crate::strs::is_blank(&head) && crate::strs::is_blank(&tail) {
        return None;
    }
    let mut out = keep_last(&head, ROOM / 2);
    push_str(&mut out, OPEN);
    push_all(&mut out, &mid);
    push_str(&mut out, CLOSE);
    let t = keep_first(&tail, ROOM / 2);
    push_all(&mut out, &t);
    Some(string_of(&out))
}

/// The byte offset a place in the text stands at, reading from character
/// `k`, which is column `cl` of line `ln`: the place itself, or the end of
/// its line when the column is past it, or the end of the text.
pub open spec fn offset_walk(t: Seq<char>, line: int, col: int, k: int, ln: int, cl: int) -> int
    decreases t.len() - k,
{
    if k < 0 || k >= t.len() {
        byte_len(t) as int
    } else if ln == line && (cl == col || t[k] == '\n') {
        byte_len(t.take(k)) as int
    } else if t[k] == '\n' {
        offset_walk(t, line, col, k + 1, ln + 1, 0)
    } else {
        offset_walk(t, line, col, k + 1, ln, cl + 1)
    }
}

/// The byte offset a place in the text stands at: a column past the end of
/// its line is the end of the line, and a line past the end of the text is
/// the end of the text.
pub open spec fn offset_of_spec(text: Seq<char>, at: Cursor) -> int {
    offset_walk(text, at.line as int, at.col as int, 0, 0, 0)
}

/// The byte offset a place stands at in the whole text.
pub fn offset_of(text: &str, at: Cursor) -> (r: u128)
    ensures
        r == offset_of_spec(text@, at),
{
    let t = chars_of(text);
    let mut k: usize = 0;
    let mut ln: usize = 0;
    let mut cl: usize = 0;
    let mut acc: u128 = 0;
    while k < t.len()
        invariant
            k <= t@.len(),
            ln <= k,
            cl <= k,
            acc == byte_len(t@.take(k as int)),
            acc <= 4 * k,
            offset_of_spec(text@, at) == offset_walk(t@, at.line as int, at.col as int, k as int, ln as int, cl as int),
            t@ == text@,
        decreases t.len() - k,
    {
        if ln == at.line && (cl == at.col || t[k] == '\n') {
            return acc;
        }
        assert(t@.take(k + 1).drop_last() =~= t@.take(k as int));
        let u = t[k] as u32;
        let b: u128 = if u < 0x80 {
            1
        } else if u < 0x800 {
            2
        } else if u < 0x10000 {
            3
        } else {
            4
        };
        acc = acc + b;
        if t[k] == '\n' {
            ln = ln + 1;
            cl = 0;
        } else {
            cl = cl + 1;
        }
        k = k + 1;
    }
    assert(t@.take(t@.len() as int) =~= t@);
    acc
}

/// The text around a passage, with the passage marked in place, given where
/// the passage starts and ends; nothing, when the passage is the note.
pub fn around(whole: &str, from: Cursor, to: Cursor) -> (r: Option<String>)
    requires
        offset_of_spec(whole@, from) <= usize::MAX,
        offset_of_spec(whole@, to) <= usize::MAX,
        markable(whole@, offset_of_spec(whole@, from), offset_of_spec(whole@, to)),
    ensures
        r matches Some(t) ==> marked_of(whole@, offset_of_spec(whole@, from), offset_of_spec(whole@, to)) == Some(t@),
        r is None ==> marked_of(whole@, offset_of_spec(whole@, from), offset_of_spec(whole@, to)) is None,
{
    let before = offset_of(whole, from) as usize;
    let after = offset_of(whole, to) as usize;
    marked(whole, before, after)
}

// ------------------------------------------------------------- the laws

/// No two files of the list share a name.
pub open spec fn distinct_names(files: Seq<(Seq<char>, Seq<char>)>) -> bool {
    forall|i: int, j: int| 0 <= i < j < files.len() ==> (#[trigger] files[i]).0 != (#[trigger] files[j]).0
}

proof fn lemma_find_first(files: Seq<(Seq<char>, Seq<char>)>, i: int)
    requires
        0 <= i < files.len(),
        forall|j: int| 0 <= j < i ==> (#[trigger] files[j]).0 != files[i].0,
    ensures
        find_named(files, files[i].0) == Some(i),
    decreases i,
{
    if i > 0 {
        let rest = files.drop_first();
        assert(files[0].0 != files[i].0);
        assert(rest[i - 1] == files[i]);
        assert forall|j: int| 0 <= j < i - 1 implies (#[trigger] rest[j]).0 != rest[i - 1].0 by {
            assert(rest[j] == files[j + 1]);
        }
        lemma_find_first(rest, i - 1);
    }
}

/// Nothing moved is nothing to say: a project compared with itself, no two
/// of its files sharing a name, has changed in no file and lost none.
pub proof fn law_nothing_moved_is_nothing_to_say(files: Seq<(Seq<char>, Seq<char>)>)
    requires
        distinct_names(files),
    ensures
        since_of(files, files) is None,
{
    let prints = prints_of(files);
    assert forall|k: int| 0 <= k <= files.len() implies #[trigger] since_parts(files, files, prints, prints, k).len()
        == 0 by {
        lemma_since_parts_empty(files, prints, k);
    }
    assert forall|k: int| 0 <= k <= files.len() implies #[trigger] gone_parts(files, files, k).len() == 0 by {
        lemma_gone_parts_empty(files, k);
    }
    assert(since_parts(files, files, prints, prints, files.len() as int).len() == 0);
    assert(gone_parts(files, files, files.len() as int).len() == 0);
}

proof fn lemma_since_parts_empty(files: Seq<(Seq<char>, Seq<char>)>, prints: Seq<u64>, k: int)
    requires
        distinct_names(files),
        prints.len() == files.len(),
        0 <= k <= files.len(),
    ensures
        since_parts(files, files, prints, prints, k).len() == 0,
    decreases k,
{
    if k > 0 {
        lemma_since_parts_empty(files, prints, k - 1);
        assert forall|j: int| 0 <= j < k - 1 implies (#[trigger] files[j]).0 != files[k - 1].0 by {}
        lemma_find_first(files, k - 1);
    }
}

proof fn lemma_gone_parts_empty(files: Seq<(Seq<char>, Seq<char>)>, k: int)
    requires
        0 <= k <= files.len(),
    ensures
        gone_parts(files, files, k).len() == 0,
    decreases k,
{
    if k > 0 {
        lemma_gone_parts_empty(files, k - 1);
        assert(files[k - 1].0 == files[k - 1].0);
        assert(has_named(files, files[k - 1].0));
    }
}

/// Every line of a list of notes is known by a name, and no two by the same.
pub open spec fn keyed_list(list: Seq<char>) -> bool {
    let ls = lines(list);
    &&& forall|i: int| 0 <= i < ls.len() ==> (#[trigger] list_key(ls[i])) is Some
    &&& forall|i: int, j: int| 0 <= i < j < ls.len() ==> #[trigger] list_key(ls[i]) != #[trigger] list_key(ls[j])
}

proof fn lemma_keyed_from(ls: Seq<Seq<char>>, m: int, i: int)
    requires
        0 <= i <= m < ls.len(),
        list_key(ls[m]) is Some,
        forall|j: int| i <= j < m ==> #[trigger] list_key(ls[j]) != list_key(ls[m]),
    ensures
        keyed_from(ls, list_key(ls[m])->Some_0, i) == Some(ls[m]),
    decreases m - i,
{
    if i < m {
        lemma_keyed_from(ls, m, i + 1);
    }
}

/// A list of notes compared with itself is not relisted, when each of its
/// lines is known by a name of its own.
pub proof fn law_same_list_is_not_relisted(list: Seq<char>)
    requires
        keyed_list(list),
    ensures
        relisted_of(list, list) is None,
{
    let ls = lines(list);
    assert forall|n: int| 0 <= n <= ls.len() implies #[trigger] moved_lines(ls, ls, n).len() == 0 by {
        lemma_moved_empty(ls, n);
    }
    assert forall|n: int| 0 <= n <= ls.len() implies #[trigger] gone_names(ls, ls, n).len() == 0 by {
        lemma_gone_empty(ls, n);
    }
    assert(moved_lines(ls, ls, ls.len() as int).len() == 0);
    assert(gone_names(ls, ls, ls.len() as int).len() == 0);
}

proof fn lemma_moved_empty(ls: Seq<Seq<char>>, n: int)
    requires
        0 <= n <= ls.len(),
        forall|i: int| 0 <= i < ls.len() ==> (#[trigger] list_key(ls[i])) is Some,
        forall|i: int, j: int| 0 <= i < j < ls.len() ==> #[trigger] list_key(ls[i]) != #[trigger] list_key(ls[j]),
    ensures
        moved_lines(ls, ls, n).len() == 0,
    decreases n,
{
    if n > 0 {
        lemma_moved_empty(ls, n - 1);
        let m = n - 1;
        assert(list_key(ls[m]) is Some);
        assert forall|j: int| 0 <= j < m implies #[trigger] list_key(ls[j]) != list_key(ls[m]) by {}
        lemma_keyed_from(ls, m, 0);
        assert(unmoved(ls[m], ls));
    }
}

proof fn lemma_gone_empty(ls: Seq<Seq<char>>, n: int)
    requires
        0 <= n <= ls.len(),
        forall|i: int| 0 <= i < ls.len() ==> (#[trigger] list_key(ls[i])) is Some,
    ensures
        gone_names(ls, ls, n).len() == 0,
    decreases n,
{
    if n > 0 {
        lemma_gone_empty(ls, n - 1);
        let m = n - 1;
        assert(list_key(ls[m]) is Some);
        let k = list_key(ls[m])->Some_0;
        assert(list_key(ls[m]) == Some(k));
        assert(keyed_in(ls, k));
    }
}


proof fn lemma_find_named_at(files: Seq<(Seq<char>, Seq<char>)>, name: Seq<char>)
    ensures
        find_named(files, name) matches Some(i) ==> 0 <= i < files.len() && files[i].0 == name,
    decreases files.len(),
{
    if files.len() > 0 && files[0].0 != name {
        lemma_find_named_at(files.drop_first(), name);
    }
}

/// A file as the model last saw it: the first of that name among those it
/// was shown weighs the same as the file does now.
pub open spec fn as_shown(shown: Seq<(Seq<char>, Seq<char>)>, name: Seq<char>, text: Seq<char>) -> bool {
    match find_named(shown, name) {
        Some(i) => fingerprint_of(shown[i].1) == fingerprint_of(text),
        None => false,
    }
}

proof fn lemma_since_parts_quiet(
    shown: Seq<(Seq<char>, Seq<char>)>,
    now: Seq<(Seq<char>, Seq<char>)>,
    k: int,
)
    requires
        0 <= k <= now.len(),
    ensures
        since_parts(shown, now, prints_of(shown), prints_of(now), k).len() == 0 <==> forall|m: int|
            0 <= m < k ==> as_shown(shown, #[trigger] now[m].0, now[m].1),
    decreases k,
{
    reveal_strlit("In `");
    reveal_strlit("`");
    if k > 0 {
        lemma_since_parts_quiet(shown, now, k - 1);
        lemma_find_named_at(shown, now[k - 1].0);
        let part = since_part(shown, prints_of(shown), now[k - 1].0, now[k - 1].1, prints_of(now)[k - 1]);
        assert(part.len() == 0 <==> as_shown(shown, now[k - 1].0, now[k - 1].1));
        if !(forall|m: int| 0 <= m < k - 1 ==> as_shown(shown, #[trigger] now[m].0, now[m].1)) {
            let m = choose|m: int| 0 <= m < k - 1 && !as_shown(shown, #[trigger] now[m].0, now[m].1);
            assert(0 <= m < k && !as_shown(shown, now[m].0, now[m].1));
        }
    }
}

proof fn lemma_gone_parts_quiet(shown: Seq<(Seq<char>, Seq<char>)>, now: Seq<(Seq<char>, Seq<char>)>, k: int)
    requires
        0 <= k <= shown.len(),
    ensures
        gone_parts(shown, now, k).len() == 0 <==> forall|m: int| 0 <= m < k ==> has_named(now, #[trigger] shown[m].0),
    decreases k,
{
    reveal_strlit("`");
    if k > 0 {
        lemma_gone_parts_quiet(shown, now, k - 1);
        if !(forall|m: int| 0 <= m < k - 1 ==> has_named(now, #[trigger] shown[m].0)) {
            let m = choose|m: int| 0 <= m < k - 1 && !has_named(now, #[trigger] shown[m].0);
            assert(0 <= m < k && !has_named(now, shown[m].0));
        }
    }
}

/// There is nothing to say of a project exactly when nothing has moved:
/// every file in it now weighs what the first of its name weighed when the
/// model was shown it, and every file it was shown is still there by name.
/// Anything else is said, after the warning that files have changed.
pub proof fn law_nothing_to_say_exactly_when_nothing_moved(
    shown: Seq<(Seq<char>, Seq<char>)>,
    now: Seq<(Seq<char>, Seq<char>)>,
)
    ensures
        since_of(shown, now) is None <==> (forall|k: int| 0 <= k < now.len() ==> as_shown(shown, #[trigger] now[k].0, now[k].1))
            && (forall|j: int| 0 <= j < shown.len() ==> has_named(now, #[trigger] shown[j].0)),
        since_of(shown, now) matches Some(s) ==> s.take(MOVED@.len() as int) == MOVED@,
{
    lemma_since_parts_quiet(shown, now, now.len() as int);
    lemma_gone_parts_quiet(shown, now, shown.len() as int);
    if let Some(s) = since_of(shown, now) {
        let out = since_parts(shown, now, prints_of(shown), prints_of(now), now.len() as int) + gone_parts(
            shown,
            now,
            shown.len() as int,
        );
        assert(s == MOVED@ + trim_end(out));
        assert(s.take(MOVED@.len() as int) =~= MOVED@);
    }
}

proof fn lemma_moved_quiet(after: Seq<Seq<char>>, before: Seq<Seq<char>>, n: int)
    requires
        0 <= n <= after.len(),
    ensures
        moved_lines(after, before, n).len() == 0 <==> forall|i: int| 0 <= i < n ==> unmoved(#[trigger] after[i], before),
    decreases n,
{
    if n > 0 {
        lemma_moved_quiet(after, before, n - 1);
        if !(forall|i: int| 0 <= i < n - 1 ==> unmoved(#[trigger] after[i], before)) {
            let i = choose|i: int| 0 <= i < n - 1 && !unmoved(#[trigger] after[i], before);
            assert(0 <= i < n && !unmoved(after[i], before));
        }
    }
}

proof fn lemma_gone_quiet(before: Seq<Seq<char>>, after: Seq<Seq<char>>, n: int)
    requires
        0 <= n <= before.len(),
    ensures
        gone_names(before, after, n).len() == 0 <==> forall|j: int|
            0 <= j < n ==> (list_key(#[trigger] before[j]) matches Some(k) ==> keyed_in(after, k)),
    decreases n,
{
    if n > 0 {
        lemma_gone_quiet(before, after, n - 1);
        if !(forall|j: int| 0 <= j < n - 1 ==> (list_key(#[trigger] before[j]) matches Some(k) ==> keyed_in(after, k))) {
            let j = choose|j: int|
                0 <= j < n - 1 && !(list_key(#[trigger] before[j]) matches Some(k) ==> keyed_in(after, k));
            assert(0 <= j < n);
        }
    }
}

/// A list of notes is owed again exactly when it moved: when some line of
/// the new list has no name, or a name the old list did not have, or says
/// something other than the old list's line of that name; or when a named
/// line of the old list has no line of its name in the new one.
pub proof fn law_a_list_is_owed_again_exactly_when_it_moved(before: Seq<char>, after: Seq<char>)
    ensures
        relisted_of(before, after) is None <==> (forall|i: int|
            0 <= i < lines(after).len() ==> unmoved(#[trigger] lines(after)[i], lines(before))) && (forall|j: int|
            0 <= j < lines(before).len() ==> (list_key(#[trigger] lines(before)[j]) matches Some(k) ==> keyed_in(
                lines(after),
                k,
            ))),
{
    lemma_moved_quiet(lines(after), lines(before), lines(after).len() as int);
    lemma_gone_quiet(lines(before), lines(after), lines(before).len() as int);
}
/// A character other than whitespace is kept when the end is trimmed, and
/// so is all before it.
proof fn lemma_trim_end_keeps(s: Seq<char>, i: int)
    requires
        0 <= i < s.len(),
        !crate::strs::is_ws(s[i]),
    ensures
        trim_end(s).len() > i,
    decreases s.len(),
{
    if s.len() > 0 && crate::strs::is_ws(s.last()) {
        assert(i < s.len() - 1);
        assert(s.drop_last()[i] == s[i]);
        lemma_trim_end_keeps(s.drop_last(), i);
    }
}

/// Where what is said of a file gone stands among the first `k` files shown.
proof fn lemma_gone_is_said(shown: Seq<(Seq<char>, Seq<char>)>, now: Seq<(Seq<char>, Seq<char>)>, k: int, j: int) -> (p: int)
    requires
        0 <= j < k <= shown.len(),
        !has_named(now, shown[j].0),
    ensures
        crate::strs::occurs_at(gone_parts(shown, now, k), "`"@ + shown[j].0 + "` is gone.\n\n"@, p),
    decreases k,
{
    let phrase = "`"@ + shown[j].0 + "` is gone.\n\n"@;
    if j == k - 1 {
        let before = gone_parts(shown, now, k - 1);
        assert(gone_parts(shown, now, k) == before + phrase);
        assert((before + phrase).subrange(before.len() as int, (before.len() + phrase.len()) as int) =~= phrase);
        before.len() as int
    } else {
        let p = lemma_gone_is_said(shown, now, k - 1, j);
        let before = gone_parts(shown, now, k - 1);
        let all = gone_parts(shown, now, k);
        assert(all.subrange(p, p + phrase.len()) =~= before.subrange(p, p + phrase.len()));
        p
    }
}

/// Words found in what is put together, ending in a character other than
/// whitespace, are found in what is said of it.
proof fn lemma_said_keeps(shown: Seq<(Seq<char>, Seq<char>)>, now: Seq<(Seq<char>, Seq<char>)>, short: Seq<char>, q: int)
    requires
        short.len() > 0,
        !crate::strs::is_ws(short.last()),
        crate::strs::occurs_at(
            since_parts(shown, now, prints_of(shown), prints_of(now), now.len() as int) + gone_parts(
                shown,
                now,
                shown.len() as int,
            ),
            short,
            q,
        ),
    ensures
        since_of(shown, now) matches Some(s) && exists|p: int|
            #[trigger] crate::strs::occurs_at(s, short, p),
{
    let out = since_parts(shown, now, prints_of(shown), prints_of(now), now.len() as int) + gone_parts(
        shown,
        now,
        shown.len() as int,
    );
    assert(out[q + short.len() - 1] == out.subrange(q, q + short.len())[short.len() - 1]);
    lemma_trim_end_keeps(out, q + short.len() - 1);
    crate::strs::lemma_trim_end_prefix(out);
    let t = trim_end(out);
    assert(t.subrange(q, q + short.len()) =~= short);
    let s = MOVED@ + t;
    assert(since_of(shown, now) == Some(s));
    assert(s.subrange(MOVED@.len() + q, MOVED@.len() + q + short.len()) =~= short);
    assert(crate::strs::occurs_at(s, short, MOVED@.len() + q));
    assert(exists|p: int| #[trigger] crate::strs::occurs_at(s, short, p));
    assert(since_of(shown, now) is Some);
    assert(since_of(shown, now)->0 == s);
}

/// A file that was shown and is no longer there is named in what is said
/// of what moved, as gone.
pub proof fn law_a_file_gone_is_said_gone(
    shown: Seq<(Seq<char>, Seq<char>)>,
    now: Seq<(Seq<char>, Seq<char>)>,
    j: int,
)
    requires
        0 <= j < shown.len(),
        !has_named(now, shown[j].0),
    ensures
        since_of(shown, now) matches Some(s) && exists|p: int|
            #[trigger] crate::strs::occurs_at(s, "`"@ + shown[j].0 + "` is gone."@, p),
{
    reveal_strlit("` is gone.\n\n");
    reveal_strlit("` is gone.");
    let name = shown[j].0;
    let short = "`"@ + name + "` is gone."@;
    let phrase = "`"@ + name + "` is gone.\n\n"@;
    assert(phrase =~= short + seq!['\n', '\n']);
    let g = lemma_gone_is_said(shown, now, shown.len() as int, j);
    let sp = since_parts(shown, now, prints_of(shown), prints_of(now), now.len() as int);
    let gp = gone_parts(shown, now, shown.len() as int);
    let out = sp + gp;
    let q = sp.len() + g;
    assert(out.subrange(q, q + phrase.len()) =~= gp.subrange(g, g + phrase.len()));
    assert(out.subrange(q, q + short.len()) =~= short);
    assert(short.last() == '.');
    lemma_said_keeps(shown, now, short, q);
}

/// Where what is said of a new file stands among the first `k` files now.
proof fn lemma_new_is_said(shown: Seq<(Seq<char>, Seq<char>)>, now: Seq<(Seq<char>, Seq<char>)>, k: int, j: int) -> (p: int)
    requires
        0 <= j < k <= now.len(),
        !has_named(shown, now[j].0),
    ensures
        crate::strs::occurs_at(
            since_parts(shown, now, prints_of(shown), prints_of(now), k),
            "`"@ + now[j].0 + "` now contains, in full:"@,
            p,
        ),
    decreases k,
{
    let short = "`"@ + now[j].0 + "` now contains, in full:"@;
    let before = since_parts(shown, now, prints_of(shown), prints_of(now), k - 1);
    let all = since_parts(shown, now, prints_of(shown), prints_of(now), k);
    if j == k - 1 {
        lemma_find_named(shown, now[j].0);
        reveal_strlit("` now contains, in full:\n\n");
        reveal_strlit("` now contains, in full:");
        let part = since_part(shown, prints_of(shown), now[j].0, now[j].1, prints_of(now)[j]);
        assert(part == "`"@ + now[j].0 + "` now contains, in full:\n\n"@ + numbered_of(now[j].1) + "\n\n"@);
        assert(all == before + part);
        assert(part.subrange(0, short.len() as int) =~= short);
        assert(all.subrange(before.len() as int, (before.len() + short.len()) as int) =~= short);
        before.len() as int
    } else {
        let p = lemma_new_is_said(shown, now, k - 1, j);
        assert(all.subrange(p, p + short.len()) =~= before.subrange(p, p + short.len()));
        p
    }
}

/// A file there now that was not shown is named in what is said of what
/// moved, with its text given in full.
pub proof fn law_a_new_file_is_given_in_full(
    shown: Seq<(Seq<char>, Seq<char>)>,
    now: Seq<(Seq<char>, Seq<char>)>,
    j: int,
)
    requires
        0 <= j < now.len(),
        !has_named(shown, now[j].0),
    ensures
        since_of(shown, now) matches Some(s) && exists|p: int|
            #[trigger] crate::strs::occurs_at(s, "`"@ + now[j].0 + "` now contains, in full:"@, p),
{
    reveal_strlit("` now contains, in full:");
    let short = "`"@ + now[j].0 + "` now contains, in full:"@;
    let g = lemma_new_is_said(shown, now, now.len() as int, j);
    let sp = since_parts(shown, now, prints_of(shown), prints_of(now), now.len() as int);
    let out = sp + gone_parts(shown, now, shown.len() as int);
    assert(out.subrange(g, g + short.len()) =~= sp.subrange(g, g + short.len()));
    assert(short.last() == ':');
    lemma_said_keeps(shown, now, short, g);
}

/// What is said of a file that changed ends by giving its length as it is
/// now: the number of lines of its new text, whatever it was before.
pub proof fn law_a_changed_file_is_measured_as_it_is_now(before: Seq<char>, after: Seq<char>)
    ensures
        crate::strs::ends_with(
            replaced_of(before, after),
            "The file is "@ + decimal(rows_of(after).len()) + " lines long."@,
        ),
{
    let ends = "The file is "@ + decimal(rows_of(after).len()) + " lines long."@;
    let r = replaced_of(before, after);
    let front = r.take(r.len() - ends.len());
    assert(r.len() >= ends.len());
    assert(r.subrange(r.len() - ends.len(), r.len() as int) =~= ends);
}

/// Where what is said of a changed file stands among the first `k` files now.
proof fn lemma_changed_is_said(shown: Seq<(Seq<char>, Seq<char>)>, now: Seq<(Seq<char>, Seq<char>)>, k: int, j: int, i: int) -> (p: int)
    requires
        0 <= j < k <= now.len(),
        find_named(shown, now[j].0) == Some(i),
        0 <= i < shown.len(),
        fingerprint_of(shown[i].1) != fingerprint_of(now[j].1),
    ensures
        crate::strs::occurs_at(
            since_parts(shown, now, prints_of(shown), prints_of(now), k),
            "In `"@ + now[j].0 + "`, "@ + replaced_of(shown[i].1, now[j].1),
            p,
        ),
    decreases k,
{
    let short = "In `"@ + now[j].0 + "`, "@ + replaced_of(shown[i].1, now[j].1);
    let before = since_parts(shown, now, prints_of(shown), prints_of(now), k - 1);
    let all = since_parts(shown, now, prints_of(shown), prints_of(now), k);
    if j == k - 1 {
        let part = since_part(shown, prints_of(shown), now[j].0, now[j].1, prints_of(now)[j]);
        assert(prints_of(shown)[i] == fingerprint_of(shown[i].1));
        assert(prints_of(now)[j] == fingerprint_of(now[j].1));
        assert(part == short + "\n\n"@);
        assert(all == before + part);
        assert(all.subrange(before.len() as int, (before.len() + short.len()) as int) =~= short);
        before.len() as int
    } else {
        let p = lemma_changed_is_said(shown, now, k - 1, j, i);
        assert(all.subrange(p, p + short.len()) =~= before.subrange(p, p + short.len()));
        p
    }
}

/// A file that was shown and has changed since is named in what is said of
/// what moved, with what replaced what in it - and, by
/// `law_a_changed_file_is_measured_as_it_is_now`, its length as it is now.
pub proof fn law_a_changed_file_is_said_as_changed(
    shown: Seq<(Seq<char>, Seq<char>)>,
    now: Seq<(Seq<char>, Seq<char>)>,
    j: int,
    i: int,
)
    requires
        0 <= j < now.len(),
        find_named(shown, now[j].0) == Some(i),
        fingerprint_of(shown[i].1) != fingerprint_of(now[j].1),
    ensures
        since_of(shown, now) matches Some(s) && exists|p: int|
            #[trigger] crate::strs::occurs_at(s, "In `"@ + now[j].0 + "`, "@ + replaced_of(shown[i].1, now[j].1), p),
{
    lemma_find_named_at(shown, now[j].0);
    let short = "In `"@ + now[j].0 + "`, "@ + replaced_of(shown[i].1, now[j].1);
    let g = lemma_changed_is_said(shown, now, now.len() as int, j, i);
    let sp = since_parts(shown, now, prints_of(shown), prints_of(now), now.len() as int);
    let out = sp + gone_parts(shown, now, shown.len() as int);
    assert(out.subrange(g, g + short.len()) =~= sp.subrange(g, g + short.len()));
    law_a_changed_file_is_measured_as_it_is_now(shown[i].1, now[j].1);
    let r = replaced_of(shown[i].1, now[j].1);
    reveal_strlit(" lines long.");
    let ends = "The file is "@ + decimal(rows_of(now[j].1).len()) + " lines long."@;
    assert(ends.last() == '.');
    assert(r.subrange(r.len() - ends.len(), r.len() as int) == ends);
    assert(r.last() == r.subrange(r.len() - ends.len(), r.len() as int)[ends.len() - 1]);
    assert(short.last() == r.last());
    lemma_said_keeps(shown, now, short, g);
}

} // verus!
