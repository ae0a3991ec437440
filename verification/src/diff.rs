//! Word-level differences between two pieces of prose.
//!
//! Line diffs are the wrong tool here: a rewritten paragraph is one line in the
//! source, so a line diff would say "all of it changed" and leave you reading
//! two paragraphs to find the three words that moved. Words are the unit the
//! suggestion is actually made in.

use vstd::prelude::*;

use crate::strs::{chars_of, copied, push_all, same, slice, string_of};

verus! {

/// What happened to a run of words.
#[derive(Clone, Copy, PartialEq, Eq, Debug, Structural)]
pub enum Change {
    Same,
    Removed,
    Added,
}

/// A run of words that all changed the same way.
#[derive(Clone, Debug)]
pub struct Piece {
    pub text: String,
    pub change: Change,
}

impl Piece {
    /// What the piece is: how it changed, and its text.
    pub open spec fn view(&self) -> (Change, Seq<char>) {
        (self.change, self.text@)
    }
}

/// Beyond this many words on either side, the quadratic table is not worth
/// filling in: a suggestion that long is a rewrite, and reads better as one.
pub const LIMIT: usize = 1200;

/// Whitespace as `u8::is_ascii_whitespace` has it.
pub open spec fn is_ascii_ws(c: char) -> bool {
    c == ' ' || c == '\t' || c == '\n' || c == '\u{0C}' || c == '\r'
}

/// How many characters a run starts with before any ASCII whitespace.
pub open spec fn word_len(s: Seq<char>) -> nat
    decreases s.len(),
{
    if s.len() > 0 && !is_ascii_ws(s[0]) {
        1 + word_len(s.drop_first())
    } else {
        0
    }
}

/// The words of a text, with each line break a word of its own.
pub open spec fn tokens(s: Seq<char>) -> Seq<Seq<char>>
    decreases s.len(),
{
    if s.len() == 0 {
        seq![]
    } else if s[0] == '\n' {
        seq![seq!['\n']] + tokens(s.drop_first())
    } else if is_ascii_ws(s[0]) {
        tokens(s.drop_first())
    } else {
        let n = word_len(s);
        if 0 < n <= s.len() {
            seq![s.take(n as int)] + tokens(s.skip(n as int))
        } else {
            seq![]
        }
    }
}

proof fn lemma_word_len(s: Seq<char>)
    ensures
        word_len(s) <= s.len(),
        s.len() > 0 && !is_ascii_ws(s[0]) ==> word_len(s) > 0,
        forall|i: int| 0 <= i < word_len(s) ==> !is_ascii_ws(#[trigger] s[i]),
        word_len(s) < s.len() ==> is_ascii_ws(s[word_len(s) as int]),
    decreases s.len(),
{
    if s.len() > 0 && !is_ascii_ws(s[0]) {
        lemma_word_len(s.drop_first());
        assert forall|i: int| 0 <= i < word_len(s) implies !is_ascii_ws(#[trigger] s[i]) by {
            if i > 0 {
                assert(s[i] == s.drop_first()[i - 1]);
            }
        }
    }
}

fn ascii_ws(c: char) -> (r: bool)
    ensures
        r == is_ascii_ws(c),
{
    c == ' ' || c == '\t' || c == '\n' || c == '\u{0C}' || c == '\r'
}

/// Split into words, with line breaks kept as words of their own so that a
/// multi-line selection still diffs line by line.
pub fn split_words(text: &[char]) -> (r: Vec<Vec<char>>)
    ensures
        r@.len() == tokens(text@).len(),
        forall|i: int| 0 <= i < r@.len() ==> #[trigger] r@[i]@ == tokens(text@)[i],
{
    let mut out: Vec<Vec<char>> = Vec::new();
    let mut i: usize = 0;
    assert(text@.skip(0) =~= text@);
    while i < text.len()
        invariant
            i <= text@.len(),
            forall|j: int| 0 <= j < out@.len() ==> #[trigger] out@[j]@ == tokens(text@)[j],
            out@.len() + tokens(text@.skip(i as int)).len() == tokens(text@).len(),
            forall|j: int|
                0 <= j < tokens(text@.skip(i as int)).len() ==> tokens(text@)[out@.len() + j]
                    == #[trigger] tokens(text@.skip(i as int))[j],
        decreases text@.len() - i,
    {
        let ghost s2 = text@.skip(i as int);
        let ghost old_out = out@;
        let c = text[i];
        assert(s2[0] == c);
        if c == '\n' {
            out.push(vec!['\n']);
            assert(s2.drop_first() =~= text@.skip(i + 1));
            assert(tokens(s2) == seq![seq!['\n']] + tokens(text@.skip(i + 1)));
            proof {
                assert forall|k: int| 0 <= k < tokens(text@.skip(i + 1)).len() implies tokens(text@)[out@.len() + k] == #[trigger] tokens(text@.skip(i + 1))[k] by {
                    assert(tokens(s2)[k + 1] == tokens(text@.skip(i + 1))[k]);
                    assert(tokens(text@)[old_out.len() + (k + 1)] == tokens(s2)[k + 1]);
                }
                assert(tokens(text@)[old_out.len() as int] == tokens(s2)[0]);
                assert forall|k: int| 0 <= k < out@.len() implies #[trigger] out@[k]@ == tokens(text@)[k] by {
                    if k < old_out.len() {
                        assert(out@[k] == old_out[k]);
                    } else {
                        assert(out@[k]@ =~= seq!['\n']);
                    }
                }
            }
            i = i + 1;
        } else if ascii_ws(c) {
            assert(s2.drop_first() =~= text@.skip(i + 1));
            i = i + 1;
        } else {
            let mut j = i;
            while j < text.len() && !ascii_ws(text[j])
                invariant
                    i <= j <= text@.len(),
                    word_len(s2) == (j - i) + word_len(text@.skip(j as int)),
                decreases text@.len() - j,
            {
                assert(text@.skip(j as int).drop_first() =~= text@.skip(j + 1));
                j = j + 1;
            }
            proof {
                lemma_word_len(s2);
                assert(word_len(text@.skip(j as int)) == 0);
            }
            let piece = slice(text, i, j);
            assert(piece@ =~= s2.take((j - i) as int));
            assert(s2.skip((j - i) as int) =~= text@.skip(j as int));
            assert(tokens(s2) == seq![piece@] + tokens(text@.skip(j as int)));
            out.push(piece);
            proof {
                assert forall|k: int| 0 <= k < tokens(text@.skip(j as int)).len() implies tokens(text@)[out@.len() + k] == #[trigger] tokens(text@.skip(j as int))[k] by {
                    assert(tokens(s2)[k + 1] == tokens(text@.skip(j as int))[k]);
                    assert(tokens(text@)[old_out.len() + (k + 1)] == tokens(s2)[k + 1]);
                }
                assert(tokens(text@)[old_out.len() as int] == tokens(s2)[0]);
                assert forall|k: int| 0 <= k < out@.len() implies #[trigger] out@[k]@ == tokens(text@)[k] by {
                    if k < old_out.len() {
                        assert(out@[k] == old_out[k]);
                    }
                }
            }
            i = j;
        }
    }
    assert(text@.skip(i as int) =~= seq![]);
    out
}

// ------------------------------------------------------------ the table

/// The length of the longest common subsequence of `a` from `i` and `b` from
/// `j`.
pub open spec fn lcs(a: Seq<Seq<char>>, b: Seq<Seq<char>>, i: int, j: int) -> nat
    decreases a.len() - i + b.len() - j,
{
    if i < 0 || j < 0 || i >= a.len() || j >= b.len() {
        0
    } else if a[i] == b[j] {
        1 + lcs(a, b, i + 1, j + 1)
    } else {
        let x = lcs(a, b, i + 1, j);
        let y = lcs(a, b, i, j + 1);
        if x >= y {
            x
        } else {
            y
        }
    }
}

proof fn lemma_lcs_bound(a: Seq<Seq<char>>, b: Seq<Seq<char>>, i: int, j: int)
    requires
        0 <= i <= a.len(),
        0 <= j <= b.len(),
    ensures
        lcs(a, b, i, j) <= a.len() - i,
        lcs(a, b, i, j) <= b.len() - j,
    decreases a.len() - i + b.len() - j,
{
    if i < a.len() && j < b.len() {
        if a[i] == b[j] {
            lemma_lcs_bound(a, b, i + 1, j + 1);
        } else {
            lemma_lcs_bound(a, b, i + 1, j);
            lemma_lcs_bound(a, b, i, j + 1);
        }
    }
}

/// One word of the walk: how it changed, and the word.
pub open spec fn step(change: Change, w: Seq<char>) -> (Change, Seq<char>) {
    (change, w)
}

/// What is left of one side, all of it changed one way.
pub open spec fn all_as(ws: Seq<Seq<char>>, change: Change) -> Seq<(Change, Seq<char>)> {
    ws.map_values(|w: Seq<char>| step(change, w))
}

/// The two sides walked together from the table, from `i` and `j`: a word
/// both share is kept, and otherwise the side the table says loses less goes
/// first.
pub open spec fn walk(a: Seq<Seq<char>>, b: Seq<Seq<char>>, i: int, j: int) -> Seq<(Change, Seq<char>)>
    decreases a.len() - i + b.len() - j,
{
    if i < 0 || j < 0 || i > a.len() || j > b.len() {
        seq![]
    } else if i < a.len() && j < b.len() {
        if a[i] == b[j] {
            seq![step(Change::Same, a[i])] + walk(a, b, i + 1, j + 1)
        } else if lcs(a, b, i + 1, j) >= lcs(a, b, i, j + 1) {
            seq![step(Change::Removed, a[i])] + walk(a, b, i + 1, j)
        } else {
            seq![step(Change::Added, b[j])] + walk(a, b, i, j + 1)
        }
    } else {
        all_as(a.skip(i), Change::Removed) + all_as(b.skip(j), Change::Added)
    }
}

/// Neighbouring words that changed the same way gathered into one piece,
/// except that a line break is always a piece of its own.
pub open spec fn merged(ws: Seq<(Change, Seq<char>)>) -> Seq<(Change, Seq<char>)>
    decreases ws.len(),
{
    if ws.len() == 0 {
        seq![]
    } else {
        let m = merged(ws.drop_last());
        let (change, w) = ws.last();
        if m.len() > 0 && m.last().0 == change && w != seq!['\n'] && m.last().1 != seq!['\n'] {
            m.update(m.len() - 1, (change, m.last().1 + seq![' '] + w))
        } else {
            m.push((change, w))
        }
    }
}

/// The difference between two texts, as runs of words.
pub open spec fn words_of(before: Seq<char>, after: Seq<char>) -> Seq<(Change, Seq<char>)> {
    let a = tokens(before);
    let b = tokens(after);
    if a.len() > LIMIT || b.len() > LIMIT {
        merged(all_as(a, Change::Removed) + all_as(b, Change::Added))
    } else {
        merged(walk(a, b, 0, 0))
    }
}

/// What a list of words with their changes is, word by word.
pub open spec fn steps_view(v: Seq<(Change, Vec<char>)>) -> Seq<(Change, Seq<char>)> {
    v.map_values(|s: (Change, Vec<char>)| (s.0, s.1@))
}

/// What a list of rows of words is.
pub open spec fn words_view(v: Seq<Vec<char>>) -> Seq<Seq<char>> {
    v.map_values(|w: Vec<char>| w@)
}

/// Sides small enough to walk: the table's counts fit, and so do its rows.
pub open spec fn walkable(a_len: nat, b_len: nat) -> bool {
    (a_len <= 4_000_000 || b_len <= 4_000_000) && a_len < usize::MAX && b_len < usize::MAX
}

/// One row of the table: `row[j]` is `lcs(a, b, i, j)`, given the row below.
fn table_row(a: &Vec<Vec<char>>, b: &Vec<Vec<char>>, i: usize, below: &Vec<u32>) -> (r: Vec<u32>)
    requires
        i < a@.len(),
        walkable(a@.len(), b@.len()),
        below@.len() == b@.len() + 1,
        forall|j: int|
            0 <= j <= b@.len() ==> #[trigger] below@[j] == lcs(words_view(a@), words_view(b@), i + 1, j),
    ensures
        r@.len() == b@.len() + 1,
        forall|j: int| 0 <= j <= b@.len() ==> #[trigger] r@[j] == lcs(words_view(a@), words_view(b@), i as int, j),
{
    let ghost wa = words_view(a@);
    let ghost wb = words_view(b@);
    let m = b.len();
    let mut r: Vec<u32> = vec![0u32; m + 1];
    let mut j = m;
    while j > 0
        invariant
            j <= m,
            m == b@.len(),
            i < a@.len(),
            walkable(a@.len(), b@.len()),
            wa == words_view(a@),
            wb == words_view(b@),
            below@.len() == m + 1,
            forall|k: int| 0 <= k <= m ==> #[trigger] below@[k] == lcs(wa, wb, i + 1, k),
            r@.len() == m + 1,
            forall|k: int| j <= k <= m ==> #[trigger] r@[k] == lcs(wa, wb, i as int, k),
        decreases j,
    {
        let jj = j - 1;
        proof {
            lemma_lcs_bound(wa, wb, i + 1, jj + 1);
            assert(below@[jj + 1] == lcs(wa, wb, i + 1, jj + 1));
            assert(wa[i as int] == a@[i as int]@);
            assert(wb[jj as int] == b@[jj as int]@);
        }
        let v = if same(&a[i], &b[jj]) {
            below[jj + 1] + 1
        } else {
            let x = below[jj];
            let y = r[jj + 1];
            if x >= y {
                x
            } else {
                y
            }
        };
        r.set(jj, v);
        j = jj;
    }
    proof {
        assert(r@[m as int] == lcs(wa, wb, i as int, m as int));
    }
    r
}

/// The whole table, row `t` holding `lcs` from word `n - t` of `a`.
fn table(a: &Vec<Vec<char>>, b: &Vec<Vec<char>>) -> (t: Vec<Vec<u32>>)
    requires
        walkable(a@.len(), b@.len()),
    ensures
        t@.len() == a@.len() + 1,
        forall|k: int, j: int|
            0 <= k <= a@.len() && 0 <= j <= b@.len() ==> #[trigger] t@[k]@[j] == lcs(
                words_view(a@),
                words_view(b@),
                a@.len() - k,
                j,
            ),
        forall|k: int| 0 <= k <= a@.len() ==> #[trigger] t@[k]@.len() == b@.len() + 1,
{
    let ghost wa = words_view(a@);
    let ghost wb = words_view(b@);
    let n = a.len();
    let m = b.len();
    let mut rows: Vec<Vec<u32>> = Vec::new();
    rows.push(vec![0u32; m + 1]);
    let mut i = n;
    while i > 0
        invariant
            i <= n,
            n == a@.len(),
            m == b@.len(),
            walkable(a@.len(), b@.len()),
            wa == words_view(a@),
            wb == words_view(b@),
            rows@.len() == n - i + 1,
            forall|k: int, j: int|
                0 <= k < rows@.len() && 0 <= j <= m ==> #[trigger] rows@[k]@[j] == lcs(wa, wb, n - k, j),
            forall|k: int| 0 <= k < rows@.len() ==> #[trigger] rows@[k]@.len() == m + 1,
        decreases i,
    {
        let below = &rows[rows.len() - 1];
        assert(forall|j: int| 0 <= j <= m ==> #[trigger] below@[j] == lcs(wa, wb, i as int, j));
        let r = table_row(a, b, i - 1, below);
        rows.push(r);
        i = i - 1;
    }
    rows
}

/// The two sides walked together into keeps, removals and additions.
pub fn walked(a: &Vec<Vec<char>>, b: &Vec<Vec<char>>) -> (r: Vec<(Change, Vec<char>)>)
    requires
        walkable(a@.len(), b@.len()),
    ensures
        steps_view(r@) == walk(words_view(a@), words_view(b@), 0, 0),
{
    let ghost wa = words_view(a@);
    let ghost wb = words_view(b@);
    let t = table(a, b);
    let n = a.len();
    let m = b.len();
    let mut out: Vec<(Change, Vec<char>)> = Vec::new();
    let mut i: usize = 0;
    let mut j: usize = 0;
    while i < n && j < m
        invariant
            i <= n,
            j <= m,
            n == a@.len(),
            m == b@.len(),
            walkable(a@.len(), b@.len()),
            wa == words_view(a@),
            wb == words_view(b@),
            t@.len() == n + 1,
            forall|k: int, l: int|
                0 <= k <= n && 0 <= l <= m ==> #[trigger] t@[k]@[l] == lcs(wa, wb, n - k, l),
            forall|k: int| 0 <= k <= n ==> #[trigger] t@[k]@.len() == m + 1,
            steps_view(out@) + walk(wa, wb, i as int, j as int) == walk(wa, wb, 0, 0),
        decreases n - i + m - j,
    {
        let ghost before = out@;
        assert(wa[i as int] == a@[i as int]@);
        assert(wb[j as int] == b@[j as int]@);
        if same(&a[i], &b[j]) {
            out.push((Change::Same, copied(&a[i])));
            assert(steps_view(out@) =~= steps_view(before) + seq![step(Change::Same, wa[i as int])]);
            i = i + 1;
            j = j + 1;
        } else {
            let down = t[n - (i + 1)][j];
            let across = t[n - i][j + 1];
            assert(down == lcs(wa, wb, i + 1, j as int));
            assert(across == lcs(wa, wb, i as int, j + 1));
            if down >= across {
                out.push((Change::Removed, copied(&a[i])));
                assert(steps_view(out@) =~= steps_view(before) + seq![step(Change::Removed, wa[i as int])]);
                i = i + 1;
            } else {
                out.push((Change::Added, copied(&b[j])));
                assert(steps_view(out@) =~= steps_view(before) + seq![step(Change::Added, wb[j as int])]);
                j = j + 1;
            }
        }
    }
    let ghost mid = out@;
    let mut k = i;
    while k < n
        invariant
            i <= k <= n,
            n == a@.len(),
            wa == words_view(a@),
            steps_view(out@) == steps_view(mid) + all_as(wa.subrange(i as int, k as int), Change::Removed),
        decreases n - k,
    {
        let ghost before = out@;
        out.push((Change::Removed, copied(&a[k])));
        assert(wa[k as int] == a@[k as int]@);
        assert(steps_view(out@) =~= steps_view(before).push(step(Change::Removed, wa[k as int])));
        assert(all_as(wa.subrange(i as int, k + 1), Change::Removed) =~= all_as(wa.subrange(i as int, k as int), Change::Removed).push(step(Change::Removed, wa[k as int])));
        assert(steps_view(out@) =~= steps_view(mid) + all_as(wa.subrange(i as int, k + 1), Change::Removed));
        k = k + 1;
    }
    let ghost mid2 = out@;
    let mut l = j;
    while l < m
        invariant
            j <= l <= m,
            m == b@.len(),
            wb == words_view(b@),
            steps_view(out@) == steps_view(mid2) + all_as(wb.subrange(j as int, l as int), Change::Added),
        decreases m - l,
    {
        let ghost before = out@;
        out.push((Change::Added, copied(&b[l])));
        assert(wb[l as int] == b@[l as int]@);
        assert(steps_view(out@) =~= steps_view(before).push(step(Change::Added, wb[l as int])));
        assert(all_as(wb.subrange(j as int, l + 1), Change::Added) =~= all_as(wb.subrange(j as int, l as int), Change::Added).push(step(Change::Added, wb[l as int])));
        assert(steps_view(out@) =~= steps_view(mid2) + all_as(wb.subrange(j as int, l + 1), Change::Added));
        l = l + 1;
    }
    assert(wa.subrange(i as int, n as int) =~= wa.skip(i as int));
    assert(wb.subrange(j as int, m as int) =~= wb.skip(j as int));
    assert(walk(wa, wb, i as int, j as int) == all_as(wa.skip(i as int), Change::Removed) + all_as(wb.skip(j as int), Change::Added));
    assert(steps_view(out@) =~= walk(wa, wb, 0, 0));
    out
}

/// Gather neighbouring words that changed the same way into one piece, so the
/// renderer paints one band per run rather than one per word.
fn merge(steps: Vec<(Change, Vec<char>)>) -> (r: Vec<(Change, Vec<char>)>)
    ensures
        steps_view(r@) == merged(steps_view(steps@)),
{
    let ghost all = steps_view(steps@);
    let mut out: Vec<(Change, Vec<char>)> = Vec::new();
    let nl = vec!['\n'];
    let mut k: usize = 0;
    while k < steps.len()
        invariant
            k <= steps@.len(),
            all == steps_view(steps@),
            nl@ == seq!['\n'],
            steps_view(out@) == merged(all.take(k as int)),
        decreases steps.len() - k,
    {
        let change = steps[k].0;
        let word = copied(&steps[k].1);
        let ghost m = steps_view(out@);
        assert(all.take(k + 1).drop_last() =~= all.take(k as int));
        assert(all.take(k + 1).last() == (change, word@));
        let n = out.len();
        let joins = n > 0 && out[n - 1].0 == change && !same(&word, &nl) && !same(&out[n - 1].1, &nl);
        if joins {
            assert(m.last() == (out@[n - 1].0, out@[n - 1].1@));
            let ghost ov = out@;
            let (c, mut text) = out.pop().unwrap();
            assert(out@ == ov.drop_last());
            assert(text@ == m.last().1);
            let ghost t0 = text@;
            text.push(' ');
            push_all(&mut text, &word);
            assert(text@ == t0.push(' ') + word@);
            assert(t0.push(' ') + word@ =~= m.last().1 + seq![' '] + word@);
            let ghost joined = (c, text@);
            out.push((c, text));
            assert(out@ =~= ov.drop_last().push((c, text)));
            assert(steps_view(ov) == m);
            assert(steps_view(ov.drop_last()) =~= m.drop_last());
            assert(steps_view(out@) =~= steps_view(ov.drop_last()).push(joined));
            assert(c == change);
            assert(m.update(m.len() - 1, (change, m.last().1 + seq![' '] + word@)) =~= m.drop_last().push(joined));
        } else {
            out.push((change, word));
            assert(steps_view(out@) =~= m.push((change, word@)));
        }
        k = k + 1;
    }
    assert(all.take(steps@.len() as int) =~= all);
    out
}

/// The pieces as pieces.
pub open spec fn pieces_view(v: Seq<Piece>) -> Seq<(Change, Seq<char>)> {
    v.map_values(|p: Piece| p@)
}

/// The difference between `before` and `after`, as runs of words.
pub fn words(before: &str, after: &str) -> (r: Vec<Piece>)
    ensures
        pieces_view(r@) == words_of(before@, after@),
{
    let a = split_words(&chars_of(before));
    let b = split_words(&chars_of(after));
    assert(words_view(a@) =~= tokens(before@));
    assert(words_view(b@) =~= tokens(after@));
    let steps = if a.len() > LIMIT || b.len() > LIMIT {
        let mut all: Vec<(Change, Vec<char>)> = Vec::new();
        let mut i: usize = 0;
        while i < a.len()
            invariant
                i <= a@.len(),
                steps_view(all@) == all_as(words_view(a@).take(i as int), Change::Removed),
            decreases a.len() - i,
        {
            let ghost before_ = all@;
            all.push((Change::Removed, copied(&a[i])));
            assert(steps_view(all@) =~= steps_view(before_).push(step(Change::Removed, a@[i as int]@)));
            assert(words_view(a@).take(i + 1) =~= words_view(a@).take(i as int).push(a@[i as int]@));
            assert(all_as(words_view(a@).take(i + 1), Change::Removed) =~= all_as(words_view(a@).take(i as int), Change::Removed).push(step(Change::Removed, a@[i as int]@)));
            i = i + 1;
        }
        let ghost mid = all@;
        let mut j: usize = 0;
        while j < b.len()
            invariant
                j <= b@.len(),
                steps_view(all@) == steps_view(mid) + all_as(words_view(b@).take(j as int), Change::Added),
            decreases b.len() - j,
        {
            let ghost before_ = all@;
            all.push((Change::Added, copied(&b[j])));
            assert(steps_view(all@) =~= steps_view(before_).push(step(Change::Added, b@[j as int]@)));
            assert(words_view(b@).take(j + 1) =~= words_view(b@).take(j as int).push(b@[j as int]@));
            assert(all_as(words_view(b@).take(j + 1), Change::Added) =~= all_as(words_view(b@).take(j as int), Change::Added).push(step(Change::Added, b@[j as int]@)));
            j = j + 1;
        }
        assert(words_view(a@).take(a@.len() as int) =~= words_view(a@));
        assert(words_view(b@).take(b@.len() as int) =~= words_view(b@));
        all
    } else {
        walked(&a, &b)
    };
    let merged_steps = merge(steps);
    let mut out: Vec<Piece> = Vec::new();
    let mut k: usize = 0;
    while k < merged_steps.len()
        invariant
            k <= merged_steps@.len(),
            pieces_view(out@) == steps_view(merged_steps@).take(k as int),
        decreases merged_steps.len() - k,
    {
        let ghost before_ = out@;
        let piece = Piece { text: string_of(&merged_steps[k].1), change: merged_steps[k].0 };
        assert(piece@ == steps_view(merged_steps@)[k as int]);
        out.push(piece);
        assert(pieces_view(out@) =~= pieces_view(before_).push(piece@));
        assert(pieces_view(out@) =~= steps_view(merged_steps@).take(k + 1));
        k = k + 1;
    }
    assert(steps_view(merged_steps@).take(merged_steps@.len() as int) =~= steps_view(merged_steps@));
    out
}

/// Whether anything actually changed.
pub fn is_empty(pieces: &[Piece]) -> (r: bool)
    ensures
        r == (forall|i: int| 0 <= i < pieces@.len() ==> #[trigger] pieces@[i].change == Change::Same),
{
    let mut i: usize = 0;
    while i < pieces.len()
        invariant
            i <= pieces@.len(),
            forall|k: int| 0 <= k < i ==> #[trigger] pieces@[k].change == Change::Same,
        decreases pieces.len() - i,
    {
        if pieces[i].change != Change::Same {
            return false;
        }
        i = i + 1;
    }
    true
}

// ------------------------------------------------------------------- laws

/// The words of a walk that are not of one change, in order.
pub open spec fn side(ws: Seq<(Change, Seq<char>)>, left_out: Change) -> Seq<Seq<char>>
    decreases ws.len(),
{
    if ws.len() == 0 {
        seq![]
    } else if ws[0].0 == left_out {
        side(ws.drop_first(), left_out)
    } else {
        seq![ws[0].1] + side(ws.drop_first(), left_out)
    }
}

/// How many words of a walk were kept.
pub open spec fn kept(ws: Seq<(Change, Seq<char>)>) -> nat
    decreases ws.len(),
{
    if ws.len() == 0 {
        0
    } else {
        (if ws[0].0 == Change::Same { 1nat } else { 0nat }) + kept(ws.drop_first())
    }
}

proof fn lemma_side_append(x: Seq<(Change, Seq<char>)>, y: Seq<(Change, Seq<char>)>, c: Change)
    ensures
        side(x + y, c) == side(x, c) + side(y, c),
        kept(x + y) == kept(x) + kept(y),
    decreases x.len(),
{
    if x.len() == 0 {
        assert(x + y =~= y);
    } else {
        assert((x + y).drop_first() =~= x.drop_first() + y);
        lemma_side_append(x.drop_first(), y, c);
    }
}

proof fn lemma_side_all_as(ws: Seq<Seq<char>>, c: Change, left_out: Change)
    ensures
        side(all_as(ws, c), left_out) == if c == left_out { seq![] } else { ws },
        kept(all_as(ws, c)) == if c == Change::Same { ws.len() } else { 0 },
    decreases ws.len(),
{
    if ws.len() > 0 {
        assert(all_as(ws, c).drop_first() =~= all_as(ws.drop_first(), c));
        lemma_side_all_as(ws.drop_first(), c, left_out);
        if c != left_out {
            assert(seq![ws[0]] + ws.drop_first() =~= ws);
        }
    } else {
        assert(all_as(ws, c) =~= seq![]);
    }
}

/// The walk from `i` and `j` spells both sides from there, and keeps as many
/// words as they have in common.
proof fn lemma_walk(a: Seq<Seq<char>>, b: Seq<Seq<char>>, i: int, j: int)
    requires
        0 <= i <= a.len(),
        0 <= j <= b.len(),
    ensures
        side(walk(a, b, i, j), Change::Added) == a.skip(i),
        side(walk(a, b, i, j), Change::Removed) == b.skip(j),
        kept(walk(a, b, i, j)) == lcs(a, b, i, j),
    decreases a.len() - i + b.len() - j,
{
    if i < a.len() && j < b.len() {
        let rest = if a[i] == b[j] {
            walk(a, b, i + 1, j + 1)
        } else if lcs(a, b, i + 1, j) >= lcs(a, b, i, j + 1) {
            walk(a, b, i + 1, j)
        } else {
            walk(a, b, i, j + 1)
        };
        if a[i] == b[j] {
            lemma_walk(a, b, i + 1, j + 1);
        } else if lcs(a, b, i + 1, j) >= lcs(a, b, i, j + 1) {
            lemma_walk(a, b, i + 1, j);
        } else {
            lemma_walk(a, b, i, j + 1);
        }
        let w = walk(a, b, i, j);
        assert(w.drop_first() == rest);
        assert(a.skip(i) =~= seq![a[i]] + a.skip(i + 1));
        assert(b.skip(j) =~= seq![b[j]] + b.skip(j + 1));
    } else {
        lemma_side_append(all_as(a.skip(i), Change::Removed), all_as(b.skip(j), Change::Added), Change::Added);
        lemma_side_append(all_as(a.skip(i), Change::Removed), all_as(b.skip(j), Change::Added), Change::Removed);
        lemma_side_all_as(a.skip(i), Change::Removed, Change::Added);
        lemma_side_all_as(b.skip(j), Change::Added, Change::Added);
        lemma_side_all_as(a.skip(i), Change::Removed, Change::Removed);
        lemma_side_all_as(b.skip(j), Change::Added, Change::Removed);
        assert(a.skip(i) =~= seq![] || b.skip(j) =~= seq![]);
        assert(seq![] + b.skip(j) =~= b.skip(j));
        assert(a.skip(i) + seq![] =~= a.skip(i));
    }
}

/// A word diff reads both ways: its words that were not added are the words
/// of the text before, in order, and its words that were not removed are the
/// words of the text after - and it keeps as many words as the two have in
/// common, which is as many as can be kept.
pub proof fn law_walk_spells_both_sides(before: Seq<char>, after: Seq<char>)
    ensures
        side(walk(tokens(before), tokens(after), 0, 0), Change::Added) == tokens(before),
        side(walk(tokens(before), tokens(after), 0, 0), Change::Removed) == tokens(after),
        kept(walk(tokens(before), tokens(after), 0, 0)) == lcs(tokens(before), tokens(after), 0, 0),
{
    lemma_walk(tokens(before), tokens(after), 0, 0);
    assert(tokens(before).skip(0) =~= tokens(before));
    assert(tokens(after).skip(0) =~= tokens(after));
}

proof fn lemma_walk_same(a: Seq<Seq<char>>, i: int)
    requires
        0 <= i <= a.len(),
    ensures
        forall|k: int| 0 <= k < walk(a, a, i, i).len() ==> #[trigger] walk(a, a, i, i)[k].0 == Change::Same,
    decreases a.len() - i,
{
    if i < a.len() {
        lemma_walk_same(a, i + 1);
        let w = walk(a, a, i, i);
        assert forall|k: int| 0 <= k < w.len() implies #[trigger] w[k].0 == Change::Same by {
            if k > 0 {
                assert(w[k] == walk(a, a, i + 1, i + 1)[k - 1]);
            }
        }
    } else {
        assert(all_as(a.skip(i), Change::Removed) =~= seq![]);
        assert(all_as(a.skip(i), Change::Added) =~= seq![]);
    }
}

proof fn lemma_merged_keeps_changes(ws: Seq<(Change, Seq<char>)>, c: Change)
    requires
        forall|k: int| 0 <= k < ws.len() ==> #[trigger] ws[k].0 == c,
    ensures
        forall|k: int| 0 <= k < merged(ws).len() ==> #[trigger] merged(ws)[k].0 == c,
    decreases ws.len(),
{
    if ws.len() > 0 {
        assert forall|k: int| 0 <= k < ws.drop_last().len() implies #[trigger] ws.drop_last()[k].0 == c by {
            assert(ws.drop_last()[k] == ws[k]);
        }
        lemma_merged_keeps_changes(ws.drop_last(), c);
        assert(ws.last().0 == c);
    }
}

/// A text of no more than [`LIMIT`] words, compared with itself, has nothing
/// changed in it.
pub proof fn law_unchanged_text_is_all_same(text: Seq<char>)
    requires
        tokens(text).len() <= LIMIT,
    ensures
        forall|k: int| 0 <= k < words_of(text, text).len() ==> #[trigger] words_of(text, text)[k].0 == Change::Same,
{
    lemma_walk_same(tokens(text), 0);
    lemma_merged_keeps_changes(walk(tokens(text), tokens(text), 0, 0), Change::Same);
}


proof fn lemma_merged_has_each(ws: Seq<(Change, Seq<char>)>, k: int)
    requires
        0 <= k < ws.len(),
    ensures
        exists|m: int| 0 <= m < merged(ws).len() && #[trigger] merged(ws)[m].0 == ws[k].0,
    decreases ws.len(),
{
    let m0 = merged(ws.drop_last());
    let (change, w) = ws.last();
    let joins = m0.len() > 0 && m0.last().0 == change && w != seq!['\n'] && m0.last().1 != seq!['\n'];
    if k == ws.len() - 1 {
        if joins {
            assert(merged(ws)[m0.len() - 1].0 == ws[k].0);
        } else {
            assert(merged(ws)[m0.len() as int].0 == ws[k].0);
        }
    } else {
        assert(ws.drop_last()[k] == ws[k]);
        lemma_merged_has_each(ws.drop_last(), k);
        let m = choose|m: int| 0 <= m < m0.len() && #[trigger] m0[m].0 == ws[k].0;
        if joins {
            if m == m0.len() - 1 {
                assert(merged(ws)[m].0 == change);
            } else {
                assert(merged(ws)[m] == m0[m]);
            }
        } else {
            assert(merged(ws)[m] == m0[m]);
        }
    }
}

proof fn lemma_same_sides(ws: Seq<(Change, Seq<char>)>)
    requires
        forall|k: int| 0 <= k < ws.len() ==> #[trigger] ws[k].0 == Change::Same,
    ensures
        side(ws, Change::Added) == side(ws, Change::Removed),
    decreases ws.len(),
{
    if ws.len() > 0 {
        assert forall|k: int| 0 <= k < ws.drop_first().len() implies #[trigger] ws.drop_first()[k].0 == Change::Same by {
            assert(ws.drop_first()[k] == ws[k + 1]);
        }
        lemma_same_sides(ws.drop_first());
        assert(ws[0].0 == Change::Same);
    }
}

/// Between two texts of no more than [`LIMIT`] words each, the diff says
/// nothing changed exactly when they hold the same words and line breaks,
/// however they are spaced.
pub proof fn law_nothing_changed_exactly_when_the_words_agree(before: Seq<char>, after: Seq<char>)
    requires
        tokens(before).len() <= LIMIT,
        tokens(after).len() <= LIMIT,
    ensures
        (forall|k: int| 0 <= k < words_of(before, after).len() ==> #[trigger] words_of(before, after)[k].0
            == Change::Same) <==> tokens(before) == tokens(after),
{
    let a = tokens(before);
    let b = tokens(after);
    let w = walk(a, b, 0, 0);
    if a == b {
        lemma_walk_same(a, 0);
        lemma_merged_keeps_changes(w, Change::Same);
    }
    if forall|k: int| 0 <= k < words_of(before, after).len() ==> #[trigger] words_of(before, after)[k].0
        == Change::Same {
        assert forall|k: int| 0 <= k < w.len() implies #[trigger] w[k].0 == Change::Same by {
            lemma_merged_has_each(w, k);
            let m = choose|m: int| 0 <= m < merged(w).len() && #[trigger] merged(w)[m].0 == w[k].0;
            assert(words_of(before, after)[m].0 == Change::Same);
        }
        lemma_same_sides(w);
        lemma_walk(a, b, 0, 0);
        assert(a.skip(0) =~= a);
        assert(b.skip(0) =~= b);
    }
}

// ------------------------------------------------------- over the pieces

/// A word with no space in it and something in it.
pub open spec fn solid(w: Seq<char>) -> bool {
    w.len() > 0 && forall|i: int| 0 <= i < w.len() ==> w[i] != ' '
}

/// The words of the pieces that are not of one change, in order: each
/// piece's text cut at its spaces.
pub open spec fn piece_side(ps: Seq<(Change, Seq<char>)>, left_out: Change) -> Seq<Seq<char>>
    decreases ps.len(),
{
    if ps.len() == 0 {
        seq![]
    } else {
        piece_side(ps.drop_last(), left_out) + if ps.last().0 == left_out {
            seq![]
        } else {
            crate::strs::split_on(ps.last().1, " "@)
        }
    }
}

proof fn lemma_tokens_solid(s: Seq<char>)
    ensures
        forall|i: int| 0 <= i < tokens(s).len() ==> solid(#[trigger] tokens(s)[i]),
    decreases s.len(),
{
    if s.len() > 0 {
        if s[0] == '\n' || is_ascii_ws(s[0]) {
            lemma_tokens_solid(s.drop_first());
            let t = tokens(s);
            assert forall|i: int| 0 <= i < t.len() implies solid(#[trigger] t[i]) by {
                if s[0] == '\n' && i > 0 {
                    assert(t[i] == tokens(s.drop_first())[i - 1]);
                }
            }
        } else {
            lemma_word_len(s);
            let n = word_len(s);
            lemma_tokens_solid(s.skip(n as int));
            let t = tokens(s);
            assert forall|i: int| 0 <= i < t.len() implies solid(#[trigger] t[i]) by {
                if i > 0 {
                    assert(t[i] == tokens(s.skip(n as int))[i - 1]);
                } else {
                    assert forall|j: int| 0 <= j < t[0].len() implies t[0][j] != ' ' by {
                        assert(t[0][j] == s[j]);
                    }
                }
            }
        }
    }
}

proof fn lemma_split_solid(w: Seq<char>)
    requires
        solid(w),
    ensures
        crate::strs::split_on(w, " "@) == seq![w],
{
    reveal_strlit(" ");
    crate::strs::lemma_find_from(w, " "@, 0);
    if crate::strs::find(w, " "@) is Some {
        let k = crate::strs::find(w, " "@)->Some_0;
        assert(w.subrange(k, k + 1)[0] == w[k]);
    }
}

proof fn lemma_split_joined(x: Seq<char>, w: Seq<char>)
    requires
        solid(w),
    ensures
        crate::strs::split_on(x + seq![' '] + w, " "@) == crate::strs::split_on(x, " "@) + seq![w],
    decreases x.len(),
{
    reveal_strlit(" ");
    let sp = " "@;
    let s = x + seq![' '] + w;
    crate::strs::lemma_find_from(s, sp, 0);
    crate::strs::lemma_find_from(x, sp, 0);
    assert(s.subrange(x.len() as int, x.len() as int + 1) =~= sp);
    match crate::strs::find(x, sp) {
        Some(k) => {
            assert(x.subrange(k, k + 1) =~= s.subrange(k, k + 1));
            assert forall|j: int| 0 <= j < k implies !crate::strs::occurs_at(s, sp, j) by {
                assert(!crate::strs::occurs_at(x, sp, j));
                assert(x.subrange(j, j + 1) =~= s.subrange(j, j + 1));
            }
            assert(crate::strs::occurs_at(s, sp, k));
            match crate::strs::find_from(s, sp, 0) {
                Some(k2) => {
                    if k2 < k {
                        assert(!crate::strs::occurs_at(s, sp, k2));
                    }
                    if k2 > k {
                        assert(!crate::strs::occurs_at(s, sp, k));
                    }
                },
                None => {
                    assert(!crate::strs::occurs_at(s, sp, k));
                },
            }
            assert(crate::strs::find(s, sp) == Some(k));
            let rest = x.skip(k + 1);
            assert(s.skip(k + 1) =~= rest + seq![' '] + w);
            assert(s.take(k) =~= x.take(k));
            lemma_split_joined(rest, w);
        },
        None => {
            assert forall|j: int| 0 <= j < x.len() implies !crate::strs::occurs_at(s, sp, j) by {
                assert(!crate::strs::occurs_at(x, sp, j));
                assert(x.subrange(j, j + 1) =~= s.subrange(j, j + 1));
            }
            assert(crate::strs::occurs_at(s, sp, x.len() as int));
            match crate::strs::find_from(s, sp, 0) {
                Some(k2) => {
                    if k2 < x.len() {
                        assert(!crate::strs::occurs_at(s, sp, k2));
                    }
                    if k2 > x.len() {
                        assert(!crate::strs::occurs_at(s, sp, x.len() as int));
                    }
                },
                None => {
                    assert(!crate::strs::occurs_at(s, sp, x.len() as int));
                },
            }
            assert(crate::strs::find(s, sp) == Some(x.len() as int));
            assert(s.take(x.len() as int) =~= x);
            assert(s.skip(x.len() as int + 1) =~= w);
            lemma_split_solid(w);
        },
    }
}

proof fn lemma_merged_sides(ws: Seq<(Change, Seq<char>)>, c: Change)
    requires
        forall|i: int| 0 <= i < ws.len() ==> solid(#[trigger] ws[i].1),
    ensures
        piece_side(merged(ws), c) == side(ws, c),
        merged(ws).len() > 0 ==> merged(ws).last().1.len() > 0,
    decreases ws.len(),
{
    if ws.len() > 0 {
        let init = ws.drop_last();
        assert forall|i: int| 0 <= i < init.len() implies solid(#[trigger] init[i].1) by {
            assert(init[i] == ws[i]);
        }
        lemma_merged_sides(init, c);
        let m = merged(init);
        let (change, w) = ws.last();
        assert(solid(ws[ws.len() - 1].1));
        lemma_side_append(init, seq![ws.last()], c);
        assert(init + seq![ws.last()] =~= ws);
        assert(seq![ws.last()].drop_first() =~= Seq::<(Change, Seq<char>)>::empty());
        let tail: Seq<Seq<char>> = if change == c {
            seq![]
        } else {
            seq![w]
        };
        let one = seq![ws.last()];
        assert(one[0] == ws.last());
        assert(one.drop_first() =~= Seq::<(Change, Seq<char>)>::empty());
        assert(side(one.drop_first(), c) =~= Seq::<Seq<char>>::empty());
        assert(side(one, c) =~= tail);
        assert(side(ws, c) =~= side(init, c) + tail);
        if m.len() > 0 && m.last().0 == change && w != seq!['\n'] && m.last().1 != seq!['\n'] {
            let m2 = m.update(m.len() - 1, (change, m.last().1 + seq![' '] + w));
            assert(m2.drop_last() =~= m.drop_last());
            lemma_split_joined(m.last().1, w);
            assert(piece_side(m, c) == piece_side(m.drop_last(), c) + if m.last().0 == c {
                seq![]
            } else {
                crate::strs::split_on(m.last().1, " "@)
            });
            assert(m2.last() == (change, m.last().1 + seq![' '] + w));
            assert(merged(ws) == m2);
            assert(piece_side(m2, c) =~= piece_side(m, c) + tail);
        } else {
            let m2 = m.push((change, w));
            assert(m2.drop_last() =~= m);
            lemma_split_solid(w);
            assert(merged(ws) == m2);
            assert(piece_side(m2, c) =~= piece_side(m, c) + tail);
        }
    }
}

/// The pieces a word diff returns read both ways, too: cut at their spaces,
/// the pieces that were not added are the words of the text before, in
/// order, and those that were not removed are the words of the text after.
pub proof fn law_pieces_spell_both_sides(before: Seq<char>, after: Seq<char>)
    ensures
        piece_side(words_of(before, after), Change::Added) == tokens(before),
        piece_side(words_of(before, after), Change::Removed) == tokens(after),
{
    let a = tokens(before);
    let b = tokens(after);
    lemma_tokens_solid(before);
    lemma_tokens_solid(after);
    let ws = if a.len() > LIMIT || b.len() > LIMIT {
        all_as(a, Change::Removed) + all_as(b, Change::Added)
    } else {
        walk(a, b, 0, 0)
    };
    if a.len() > LIMIT || b.len() > LIMIT {
        lemma_side_append(all_as(a, Change::Removed), all_as(b, Change::Added), Change::Added);
        lemma_side_append(all_as(a, Change::Removed), all_as(b, Change::Added), Change::Removed);
        lemma_side_all_as(a, Change::Removed, Change::Added);
        lemma_side_all_as(b, Change::Added, Change::Added);
        lemma_side_all_as(a, Change::Removed, Change::Removed);
        lemma_side_all_as(b, Change::Added, Change::Removed);
        assert(a + seq![] =~= a);
        assert(seq![] + b =~= b);
        assert forall|i: int| 0 <= i < ws.len() implies solid(#[trigger] ws[i].1) by {
            if i < a.len() {
                assert(ws[i].1 == a[i]);
            } else {
                assert(ws[i].1 == b[i - a.len()]);
            }
        }
    } else {
        law_walk_spells_both_sides(before, after);
        lemma_walk_words(a, b, 0, 0);
    }
    lemma_merged_sides(ws, Change::Added);
    lemma_merged_sides(ws, Change::Removed);
}

proof fn lemma_walk_words(a: Seq<Seq<char>>, b: Seq<Seq<char>>, i: int, j: int)
    requires
        0 <= i <= a.len(),
        0 <= j <= b.len(),
        forall|k: int| 0 <= k < a.len() ==> solid(#[trigger] a[k]),
        forall|k: int| 0 <= k < b.len() ==> solid(#[trigger] b[k]),
    ensures
        forall|k: int| 0 <= k < walk(a, b, i, j).len() ==> solid(#[trigger] walk(a, b, i, j)[k].1),
    decreases a.len() - i + b.len() - j,
{
    let w = walk(a, b, i, j);
    if i < a.len() && j < b.len() {
        if a[i] == b[j] {
            lemma_walk_words(a, b, i + 1, j + 1);
        } else if lcs(a, b, i + 1, j) >= lcs(a, b, i, j + 1) {
            lemma_walk_words(a, b, i + 1, j);
        } else {
            lemma_walk_words(a, b, i, j + 1);
        }
        let rest = if a[i] == b[j] {
            walk(a, b, i + 1, j + 1)
        } else if lcs(a, b, i + 1, j) >= lcs(a, b, i, j + 1) {
            walk(a, b, i + 1, j)
        } else {
            walk(a, b, i, j + 1)
        };
        assert forall|k: int| 0 <= k < w.len() implies solid(#[trigger] w[k].1) by {
            if k > 0 {
                assert(w[k] == rest[k - 1]);
            }
        }
    } else {
        let x = all_as(a.skip(i), Change::Removed);
        let y = all_as(b.skip(j), Change::Added);
        assert forall|k: int| 0 <= k < w.len() implies solid(#[trigger] w[k].1) by {
            if k < x.len() {
                assert(w[k] == x[k]);
                assert(x[k].1 == a[i + k]);
            } else {
                assert(w[k] == y[k - x.len()]);
                assert(y[k - x.len()].1 == b[j + k - x.len()]);
            }
        }
    }
}
/// The words of the pieces kept, each piece cut at its spaces.
pub open spec fn piece_kept(ps: Seq<(Change, Seq<char>)>) -> Seq<Seq<char>>
    decreases ps.len(),
{
    if ps.len() == 0 {
        seq![]
    } else {
        piece_kept(ps.drop_last()) + if ps.last().0 == Change::Same {
            crate::strs::split_on(ps.last().1, " "@)
        } else {
            seq![]
        }
    }
}

/// The words of a walk that were kept.
pub open spec fn kept_words(ws: Seq<(Change, Seq<char>)>) -> Seq<Seq<char>>
    decreases ws.len(),
{
    if ws.len() == 0 {
        seq![]
    } else if ws[0].0 == Change::Same {
        seq![ws[0].1] + kept_words(ws.drop_first())
    } else {
        kept_words(ws.drop_first())
    }
}

proof fn lemma_kept_append(x: Seq<(Change, Seq<char>)>, y: Seq<(Change, Seq<char>)>)
    ensures
        kept_words(x + y) == kept_words(x) + kept_words(y),
        kept_words(x).len() == kept(x),
    decreases x.len(),
{
    if x.len() == 0 {
        assert(x + y =~= y);
    } else {
        assert((x + y).drop_first() =~= x.drop_first() + y);
        lemma_kept_append(x.drop_first(), y);
    }
}

proof fn lemma_merged_kept(ws: Seq<(Change, Seq<char>)>)
    requires
        forall|i: int| 0 <= i < ws.len() ==> solid(#[trigger] ws[i].1),
    ensures
        piece_kept(merged(ws)) == kept_words(ws),
        merged(ws).len() > 0 ==> merged(ws).last().1.len() > 0,
    decreases ws.len(),
{
    if ws.len() > 0 {
        let init = ws.drop_last();
        assert forall|i: int| 0 <= i < init.len() implies solid(#[trigger] init[i].1) by {
            assert(init[i] == ws[i]);
        }
        lemma_merged_kept(init);
        lemma_merged_sides(init, Change::Same);
        let m = merged(init);
        let (change, w) = ws.last();
        assert(solid(ws[ws.len() - 1].1));
        lemma_kept_append(init, seq![ws.last()]);
        assert(init + seq![ws.last()] =~= ws);
        let tail: Seq<Seq<char>> = if change == Change::Same {
            seq![w]
        } else {
            seq![]
        };
        let one = seq![ws.last()];
        assert(one[0] == ws.last());
        assert(one.drop_first() =~= Seq::<(Change, Seq<char>)>::empty());
        assert(kept_words(one.drop_first()) =~= Seq::<Seq<char>>::empty());
        assert(kept_words(one) =~= tail);
        assert(kept_words(ws) =~= kept_words(init) + tail);
        if m.len() > 0 && m.last().0 == change && w != seq!['\n'] && m.last().1 != seq!['\n'] {
            let m2 = m.update(m.len() - 1, (change, m.last().1 + seq![' '] + w));
            assert(m2.drop_last() =~= m.drop_last());
            lemma_split_joined(m.last().1, w);
            assert(piece_kept(m) == piece_kept(m.drop_last()) + if m.last().0 == Change::Same {
                crate::strs::split_on(m.last().1, " "@)
            } else {
                seq![]
            });
            assert(m2.last() == (change, m.last().1 + seq![' '] + w));
            assert(merged(ws) == m2);
            assert(piece_kept(m2) =~= piece_kept(m) + tail);
        } else {
            let m2 = m.push((change, w));
            assert(m2.drop_last() =~= m);
            lemma_split_solid(w);
            assert(merged(ws) == m2);
            assert(piece_kept(m2) =~= piece_kept(m) + tail);
        }
    }
}

/// The pieces a word diff returns keep, cut at their spaces, as many words
/// as the two texts have in common, which is as many as can be kept: when
/// neither has more than [`LIMIT`] words.
pub proof fn law_pieces_keep_a_longest_common_run(before: Seq<char>, after: Seq<char>)
    requires
        tokens(before).len() <= LIMIT,
        tokens(after).len() <= LIMIT,
    ensures
        piece_kept(words_of(before, after)).len() == lcs(tokens(before), tokens(after), 0, 0),
{
    let a = tokens(before);
    let b = tokens(after);
    lemma_tokens_solid(before);
    lemma_tokens_solid(after);
    law_walk_spells_both_sides(before, after);
    lemma_walk_words(a, b, 0, 0);
    let ws = walk(a, b, 0, 0);
    lemma_merged_kept(ws);
    lemma_kept_append(ws, seq![]);
}

} // verus!
