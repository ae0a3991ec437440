//! What reading a filed conversation gives back of what filing it wrote.
use vstd::prelude::*;

use crate::chat::change::is_fence;
use crate::chat::conversation::{title_of, to_text_of, turns_text, ChatView};
use crate::chat::{
    fence_markers_of, fenced_lines, is_marker, mine_marker, parse_of, pushed, read_line, read_lines,
    theirs_marker, Reading,
};
use crate::strs::{
    find, find_from, is_ws, lemma_find_from, lines, occurs_at, strip_cr, trim, trim_end, trim_start,
};

verus! {

// ------------------------------------------------------------------ lines

/// Lines, each ended by a line break.
pub open spec fn unlines(ls: Seq<Seq<char>>) -> Seq<char>
    decreases ls.len(),
{
    if ls.len() == 0 {
        seq![]
    } else {
        ls[0] + seq!['\n'] + unlines(ls.drop_first())
    }
}

/// Text with no line break and no carriage return in it.
pub open spec fn unbroken(l: Seq<char>) -> bool {
    forall|i: int| 0 <= i < l.len() ==> l[i] != '\n' && l[i] != '\r'
}

proof fn lemma_unlines_append(a: Seq<Seq<char>>, b: Seq<Seq<char>>)
    ensures
        unlines(a + b) == unlines(a) + unlines(b),
    decreases a.len(),
{
    if a.len() == 0 {
        assert(a + b =~= b);
        assert(unlines(a) + unlines(b) =~= unlines(b));
    } else {
        assert((a + b).drop_first() =~= a.drop_first() + b);
        lemma_unlines_append(a.drop_first(), b);
        assert((a + b)[0] == a[0]);
        assert(unlines(a + b) =~= unlines(a) + unlines(b));
    }
}

proof fn lemma_unlines_push(a: Seq<Seq<char>>, x: Seq<char>)
    ensures
        unlines(a.push(x)) == unlines(a) + x + seq!['\n'],
{
    lemma_unlines_append(a, seq![x]);
    assert(a.push(x) =~= a + seq![x]);
    assert(seq![x].drop_first() =~= Seq::<Seq<char>>::empty());
    assert(unlines(seq![x].drop_first()) =~= Seq::<char>::empty());
    assert(unlines(seq![x]) =~= x + seq!['\n']);
    assert(unlines(a) + unlines(seq![x]) =~= unlines(a) + x + seq!['\n']);
}

/// The first line break of a line, a break, and more is the one after the
/// line.
proof fn lemma_first_break(x: Seq<char>, b: Seq<char>)
    requires
        unbroken(x),
    ensures
        find(x + seq!['\n'] + b, seq!['\n']) == Some(x.len() as int),
{
    let s = x + seq!['\n'] + b;
    let p = seq!['\n'];
    lemma_find_from(s, p, 0);
    assert(s.subrange(x.len() as int, x.len() as int + 1) =~= p);
    assert(occurs_at(s, p, x.len() as int));
    match find_from(s, p, 0) {
        Some(k) => {
            if k < x.len() {
                assert(s.subrange(k, k + 1)[0] == s[k]);
                assert(s[k] == x[k]);
            }
        },
        None => {},
    }
}

/// Lines written out one to a line are read back as they were.
proof fn lemma_lines_unlines(ls: Seq<Seq<char>>)
    requires
        forall|i: int| 0 <= i < ls.len() ==> unbroken(#[trigger] ls[i]),
    ensures
        lines(unlines(ls)) == ls,
    decreases ls.len(),
{
    if ls.len() > 0 {
        let x = ls[0];
        let rest = unlines(ls.drop_first());
        let s = unlines(ls);
        assert(unbroken(ls[0]));
        assert(s == x + seq!['\n'] + rest);
        lemma_first_break(x, rest);
        assert(s.take(x.len() as int) =~= x);
        assert(s.skip(x.len() as int + 1) =~= rest);
        assert(strip_cr(x) == x);
        assert forall|i: int| 0 <= i < ls.drop_first().len() implies unbroken(#[trigger] ls.drop_first()[i]) by {
            assert(ls.drop_first()[i] == ls[i + 1]);
        }
        lemma_lines_unlines(ls.drop_first());
        assert(lines(s) =~= ls);
    }
}

/// A text with no carriage return, not ending in a line break, is its lines
/// each followed by a break, and none of them holds a break.
proof fn lemma_unlines_lines(t: Seq<char>)
    requires
        t.len() > 0,
        forall|i: int| 0 <= i < t.len() ==> t[i] != '\r',
        t.last() != '\n',
    ensures
        unlines(lines(t)) == t + seq!['\n'],
        forall|i: int| 0 <= i < lines(t).len() ==> unbroken(#[trigger] lines(t)[i]),
    decreases t.len(),
{
    let p = seq!['\n'];
    lemma_find_from(t, p, 0);
    match find(t, p) {
        None => {
            assert forall|i: int| 0 <= i < t.len() implies t[i] != '\n' by {
                assert(!occurs_at(t, p, i));
                if t[i] == '\n' {
                    assert(t.subrange(i, i + 1) =~= p);
                }
            }
            assert(lines(t) == seq![t]);
            assert(seq![t].drop_first() =~= Seq::<Seq<char>>::empty());
            assert(unlines(seq![t].drop_first()) =~= Seq::<char>::empty());
            assert(unlines(seq![t]) =~= t + p);
            assert(lines(t)[0] == t);
        },
        Some(k) => {
            assert(t.subrange(k, k + 1)[0] == t[k]);
            assert(k < t.len() - 1);
            let head = t.take(k);
            let rest = t.skip(k + 1);
            assert forall|i: int| 0 <= i < k implies head[i] != '\n' by {
                assert(!occurs_at(t, p, i));
                if head[i] == '\n' {
                    assert(t.subrange(i, i + 1) =~= p);
                }
            }
            assert(strip_cr(head) == head);
            assert(lines(t) == seq![head] + lines(rest));
            assert(rest.last() == t.last());
            lemma_unlines_lines(rest);
            let ls = lines(t);
            assert(ls.drop_first() =~= lines(rest));
            assert(ls[0] == head);
            assert(unlines(ls) == head + p + unlines(lines(rest)));
            assert(head + p + rest =~= t);
            assert(unlines(ls) =~= t + p);
            assert forall|i: int| 0 <= i < ls.len() implies unbroken(#[trigger] ls[i]) by {
                if i > 0 {
                    assert(ls[i] == lines(rest)[i - 1]);
                }
            }
        },
    }
}

/// The last line of such a text is not empty, and ends as the text does.
proof fn lemma_last_line(t: Seq<char>)
    requires
        t.len() > 0,
        forall|i: int| 0 <= i < t.len() ==> t[i] != '\r',
        t.last() != '\n',
    ensures
        lines(t).len() > 0,
        lines(t).last().len() > 0,
        lines(t).last().last() == t.last(),
{
    lemma_unlines_lines(t);
    let p = seq!['\n'];
    let ls = lines(t);
    if ls.len() == 0 {
        assert(unlines(ls) =~= Seq::<char>::empty());
        assert((t + p).len() > 0);
    }
    lemma_unlines_push(ls.drop_last(), ls.last());
    assert(ls.drop_last().push(ls.last()) =~= ls);
    let u = unlines(ls.drop_last());
    assert((t + p).drop_last() =~= t);
    assert((u + ls.last() + p).drop_last() =~= u + ls.last());
    assert(t =~= u + ls.last());
    if ls.last().len() == 0 {
        assert(t =~= u);
        let front = ls.drop_last();
        if front.len() == 0 {
            assert(u =~= Seq::<char>::empty());
        } else {
            lemma_unlines_push(front.drop_last(), front.last());
            assert(front.drop_last().push(front.last()) =~= front);
            assert(u.last() == '\n');
        }
    }
}

// ------------------------------------------------------------- whitespace

/// Text that is all whitespace.
pub open spec fn all_ws(w: Seq<char>) -> bool {
    forall|i: int| 0 <= i < w.len() ==> is_ws(w[i])
}

proof fn lemma_trim_end_ws_suffix(u: Seq<char>, w: Seq<char>)
    requires
        all_ws(w),
    ensures
        trim_end(u + w) == trim_end(u),
    decreases w.len(),
{
    if w.len() == 0 {
        assert(u + w =~= u);
    } else {
        assert((u + w).last() == w.last());
        assert((u + w).drop_last() =~= u + w.drop_last());
        lemma_trim_end_ws_suffix(u, w.drop_last());
    }
}

proof fn lemma_trim_start_append(s: Seq<char>, w: Seq<char>, i: int)
    requires
        0 <= i < s.len(),
        !is_ws(s[i]),
    ensures
        trim_start(s + w) == trim_start(s) + w,
    decreases s.len(),
{
    if is_ws(s[0]) {
        assert((s + w)[0] == s[0]);
        assert((s + w).drop_first() =~= s.drop_first() + w);
        assert(s.drop_first()[i - 1] == s[i]);
        lemma_trim_start_append(s.drop_first(), w, i - 1);
    } else {
        assert((s + w)[0] == s[0]);
    }
}

/// Whitespace in front is not where a character that is not whitespace is.
proof fn lemma_trim_start_keeps(s: Seq<char>, i: int)
    requires
        0 <= i < s.len(),
        !is_ws(s[i]),
    ensures
        trim_start(s).len() >= s.len() - i,
    decreases s.len(),
{
    if is_ws(s[0]) {
        assert(s.drop_first()[i - 1] == s[i]);
        lemma_trim_start_keeps(s.drop_first(), i - 1);
    }
}

/// A text that ends in something other than whitespace is not blank once
/// trimmed.
proof fn lemma_trim_not_blank(s: Seq<char>)
    requires
        s.len() > 0,
        !is_ws(s.last()),
    ensures
        trim(s).len() > 0,
{
    crate::strs::lemma_trim_start_suffix(s);
    lemma_trim_start_keeps(s, s.len() - 1);
    let ts = trim_start(s);
    assert(ts.last() == s.last());
}

/// Trailing whitespace comes off after whatever is in front.
proof fn lemma_trim_end_lead(a: Seq<char>, l: Seq<char>)
    requires
        trim_end(l).len() > 0,
    ensures
        trim_end(a + l) == a + trim_end(l),
    decreases l.len(),
{
    if l.len() > 0 && is_ws(l.last()) {
        assert((a + l).last() == l.last());
        assert((a + l).drop_last() =~= a + l.drop_last());
        lemma_trim_end_lead(a, l.drop_last());
    } else {
        if l.len() > 0 {
            assert((a + l).last() == l.last());
        }
    }
}

/// What is left once trailing whitespace is off does not end in whitespace.
proof fn lemma_trim_end_ends(s: Seq<char>)
    ensures
        trim_end(s).len() > 0 ==> !is_ws(trim_end(s).last()),
    decreases s.len(),
{
    if s.len() > 0 && is_ws(s.last()) {
        lemma_trim_end_ends(s.drop_last());
    }
}

// ---------------------------------------------------------------- markers

/// A line that starts with something other than whitespace, a backtick or a
/// tilde is not a fence.
proof fn lemma_not_fence(s: Seq<char>)
    requires
        s.len() > 0,
        !is_ws(s[0]),
        s[0] != '`',
        s[0] != '~',
    ensures
        !is_fence(s),
{
    reveal_strlit("```");
    reveal_strlit("~~~");
    assert(trim_start(s) == s);
    if s.len() >= 3 {
        assert(s.subrange(0, 3)[0] == s[0]);
    }
}

/// The markers are single lines that are not fences, neither is the other,
/// and neither stays a marker with a space in front.
proof fn lemma_markers(m: Seq<char>)
    requires
        is_marker(m),
    ensures
        trim_end(m) == m,
        !is_fence(m),
        !is_fence(seq![' '] + m),
        !is_marker(seq![' '] + m),
        trim_end(m).len() > 0,
        unbroken(m),
        (m == mine_marker()) != (m == theirs_marker()),
{
    reveal_strlit("## you");
    reveal_strlit("## assistant");
    assert(m[0] == '#');
    assert(!is_ws(m.last()));
    lemma_not_fence(m);
    let sm = seq![' '] + m;
    assert(sm.drop_first() =~= m);
    assert(trim_start(sm) == trim_start(m));
    assert(trim_start(m) == m);
    reveal_strlit("```");
    reveal_strlit("~~~");
    assert(m.len() >= 3);
    assert(m.subrange(0, 3)[0] == '#');
    assert(sm.len() != mine_marker().len() && sm.len() != theirs_marker().len());
    assert(mine_marker().len() != theirs_marker().len());
}

// ---------------------------------------------------------------- reading

/// Reading these lines on from where reading has got to.
pub open spec fn read_all(r: Reading, ls: Seq<Seq<char>>) -> Reading
    decreases ls.len(),
{
    if ls.len() == 0 {
        r
    } else {
        read_line(read_all(r, ls.drop_last()), ls.last())
    }
}

/// Where reading starts.
pub open spec fn unread() -> Reading {
    Reading { turns: seq![], mine: true, body: seq![], started: false, in_code: false }
}

/// The turns read so far, with the one still open.
pub open spec fn pending(r: Reading) -> Seq<(bool, Seq<char>)> {
    if r.started {
        pushed(r.turns, r.mine, r.body)
    } else {
        r.turns
    }
}

proof fn lemma_read_lines_all(ls: Seq<Seq<char>>, n: int)
    requires
        0 <= n <= ls.len(),
    ensures
        read_lines(ls, n) == read_all(unread(), ls.take(n)),
    decreases n,
{
    if n > 0 {
        lemma_read_lines_all(ls, n - 1);
        assert(ls.take(n).drop_last() =~= ls.take(n - 1));
        assert(ls.take(n).last() == ls[n - 1]);
    } else {
        assert(ls.take(n) =~= Seq::<Seq<char>>::empty());
    }
}

proof fn lemma_read_all_append(r: Reading, a: Seq<Seq<char>>, b: Seq<Seq<char>>)
    ensures
        read_all(r, a + b) == read_all(read_all(r, a), b),
    decreases b.len(),
{
    if b.len() == 0 {
        assert(a + b =~= a);
    } else {
        assert((a + b).drop_last() =~= a + b.drop_last());
        assert((a + b).last() == b.last());
        lemma_read_all_append(r, a, b.drop_last());
    }
}

/// Each line of a turn's text as it is filed: with a space in front where
/// it would otherwise be read as a marker.
pub open spec fn fenced_x(ls: Seq<Seq<char>>, n: int) -> Seq<Seq<char>>
    decreases n,
{
    if n <= 0 {
        seq![]
    } else {
        let in_code = fenced_lines(ls, n - 1).1;
        let line = ls[n - 1];
        let t = trim_end(line);
        let code = if is_fence(t) {
            !in_code
        } else {
            in_code
        };
        fenced_x(ls, n - 1).push(
            if !code && is_marker(t) {
                seq![' '] + line
            } else {
                line
            },
        )
    }
}

proof fn lemma_fenced_x(ls: Seq<Seq<char>>, n: int)
    requires
        0 <= n <= ls.len(),
    ensures
        fenced_lines(ls, n).0 == unlines(fenced_x(ls, n)),
        fenced_x(ls, n).len() == n,
        forall|i: int|
            0 <= i < n ==> #[trigger] fenced_x(ls, n)[i] == ls[i] || fenced_x(ls, n)[i] == seq![' '] + ls[i],
    decreases n,
{
    if n > 0 {
        lemma_fenced_x(ls, n - 1);
        let prev = fenced_x(ls, n - 1);
        let x = fenced_x(ls, n).last();
        lemma_unlines_push(prev, x);
        let in_code = fenced_lines(ls, n - 1).1;
        let line = ls[n - 1];
        let t = trim_end(line);
        let code = if is_fence(t) {
            !in_code
        } else {
            in_code
        };
        if !code && is_marker(t) {
            assert(fenced_lines(ls, n).0 =~= fenced_lines(ls, n - 1).0 + x + seq!['\n']);
        } else {
            assert(fenced_lines(ls, n).0 =~= fenced_lines(ls, n - 1).0 + x + seq!['\n']);
        }
        assert forall|i: int| 0 <= i < n implies #[trigger] fenced_x(ls, n)[i] == ls[i] || fenced_x(ls, n)[i]
            == seq![' '] + ls[i] by {
            if i < n - 1 {
                assert(fenced_x(ls, n)[i] == prev[i]);
            }
        }
    }
}

/// Reading a turn's lines as they are filed, inside a turn and outside any
/// fence, adds them to the turn, and leaves a fence open as the lines do.
proof fn lemma_read_fenced(r: Reading, ls: Seq<Seq<char>>, n: int)
    requires
        r.started,
        !r.in_code,
        0 <= n <= ls.len(),
    ensures
        read_all(r, fenced_x(ls, n)) == (Reading {
            body: r.body + unlines(fenced_x(ls, n)),
            in_code: fenced_lines(ls, n).1,
            ..r
        }),
    decreases n,
{
    if n == 0 {
        assert(r.body + unlines(fenced_x(ls, n)) =~= r.body);
    } else {
        lemma_read_fenced(r, ls, n - 1);
        let prev = fenced_x(ls, n - 1);
        let xs = fenced_x(ls, n);
        assert(xs.drop_last() =~= prev);
        let x = xs.last();
        lemma_unlines_push(prev, x);
        let line = ls[n - 1];
        let t = trim_end(line);
        let c0 = fenced_lines(ls, n - 1).1;
        let code = if is_fence(t) {
            !c0
        } else {
            c0
        };
        if !code && is_marker(t) {
            lemma_markers(t);
            lemma_trim_end_lead(seq![' '], line);
            assert(x == seq![' '] + line);
            assert(trim_end(x) == seq![' '] + t);
        } else {
            assert(x == line);
        }
        let before = read_all(r, prev);
        assert(read_all(r, xs) == read_line(before, x));
        assert(r.body + unlines(prev) + x + seq!['\n'] =~= r.body + unlines(xs));
    }
}

// ------------------------------------------------------------ a whole file

/// A turn's text that is read back from its file as it was filed: not
/// blank, with no whitespace at either end, no carriage return, and every
/// code fence it opens closed again.
pub open spec fn keepable(t: Seq<char>) -> bool {
    &&& t.len() > 0
    &&& trim(t) == t
    &&& forall|i: int| 0 <= i < t.len() ==> t[i] != '\r'
    &&& !fenced_lines(lines(t), lines(t).len() as int).1
}

/// The line a turn opens with.
pub open spec fn marker_of(mine: bool) -> Seq<char> {
    if mine {
        mine_marker()
    } else {
        theirs_marker()
    }
}

/// The lines a turn is filed as: its marker, a blank line, its text, and a
/// blank line.
pub open spec fn block(t: (bool, Seq<char>)) -> Seq<Seq<char>> {
    let ls = lines(t.1);
    seq![marker_of(t.0), seq![]] + fenced_x(ls, ls.len() as int) + seq![seq![]]
}

/// The lines of a filed conversation with its first `n` turns: the title as
/// a heading, a blank line, and each turn.
pub open spec fn doc(title: Seq<char>, turns: Seq<(bool, Seq<char>)>, n: int) -> Seq<Seq<char>>
    decreases n,
{
    if n <= 0 {
        seq!["# "@ + title, seq![]]
    } else {
        doc(title, turns, n - 1) + block(turns[n - 1])
    }
}

proof fn lemma_trim_end_first(s: Seq<char>)
    requires
        s.len() > 0,
        !is_ws(s[0]),
    ensures
        trim_end(s).len() > 0,
        trim_end(s)[0] == s[0],
    decreases s.len(),
{
    if is_ws(s.last()) {
        assert(s.len() >= 2);
        assert(s.drop_last()[0] == s[0]);
        lemma_trim_end_first(s.drop_last());
    }
}

proof fn lemma_blank_line()
    ensures
        trim_end(Seq::<char>::empty()) == Seq::<char>::empty(),
        !is_fence(Seq::<char>::empty()),
        !is_marker(Seq::<char>::empty()),
        trim(seq!['\n']).len() == 0,
{
    reveal_strlit("```");
    reveal_strlit("~~~");
    reveal_strlit("## you");
    reveal_strlit("## assistant");
    assert(trim_start(Seq::<char>::empty()) == Seq::<char>::empty());
    assert(seq!['\n'].drop_first() =~= Seq::<char>::empty());
    assert(trim_start(seq!['\n']) == Seq::<char>::empty());
}

/// What a kept turn's text is filed as: lines that hold no break, written
/// out as its text with the markers in it fenced off, which ends in
/// something other than whitespace.
proof fn lemma_kept_text(t: Seq<char>)
    requires
        keepable(t),
    ensures
        unlines(fenced_x(lines(t), lines(t).len() as int)) == fence_markers_of(t) + seq!['\n'],
        forall|i: int|
            0 <= i < lines(t).len() ==> unbroken(#[trigger] fenced_x(lines(t), lines(t).len() as int)[i]),
        fence_markers_of(t).len() > 0,
        !is_ws(fence_markers_of(t).last()),
{
    lemma_trim_end_ends(trim_start(t));
    assert(!is_ws(t.last()));
    lemma_unlines_lines(t);
    lemma_last_line(t);
    let ls = lines(t);
    let n = ls.len() as int;
    lemma_fenced_x(ls, n);
    let xs = fenced_x(ls, n);
    let xl = xs.last();
    assert(xl == xs[n - 1]);
    assert(ls.last() == ls[n - 1]);
    if xl != ls[n - 1] {
        assert(xl == seq![' '] + ls[n - 1]);
        assert(xl.last() == ls[n - 1].last());
    }
    assert(xl.len() > 0 && xl.last() == t.last());
    let u = unlines(xs.drop_last());
    lemma_unlines_push(xs.drop_last(), xl);
    assert(xs.drop_last().push(xl) =~= xs);
    let out = unlines(xs);
    assert(out == u + xl + seq!['\n']);
    assert(out.drop_last() =~= u + xl);
    assert(trim_end(out) == trim_end(out.drop_last()));
    assert(trim_end(out.drop_last()) == out.drop_last());
    assert(fence_markers_of(t) == trim_end(out));
    assert(out.drop_last() + seq!['\n'] =~= out);
    assert forall|i: int| 0 <= i < n implies unbroken(#[trigger] xs[i]) by {
        assert(unbroken(ls[i]));
        if xs[i] != ls[i] {
            assert(xs[i] == seq![' '] + ls[i]);
            assert forall|j: int| 0 <= j < xs[i].len() implies xs[i][j] != '\n' && xs[i][j] != '\r' by {
                if j > 0 {
                    assert(xs[i][j] == ls[i][j - 1]);
                }
            }
        }
    }
}

/// Reading a kept turn as it is filed, from outside any fence, closes the
/// turn before it and holds this one open, with its text.
proof fn lemma_read_block(r: Reading, t: (bool, Seq<char>))
    requires
        !r.in_code,
        keepable(t.1),
    ensures
        !read_all(r, block(t)).in_code,
        pending(read_all(r, block(t))) == pending(r).push((t.0, trim(fence_markers_of(t.1)))),
        unlines(block(t)) == marker_of(t.0) + "\n\n"@ + fence_markers_of(t.1) + "\n\n"@,
        forall|i: int| 0 <= i < block(t).len() ==> unbroken(#[trigger] block(t)[i]),
{
    let m = marker_of(t.0);
    assert(is_marker(m));
    lemma_markers(m);
    lemma_blank_line();
    lemma_kept_text(t.1);
    let ls = lines(t.1);
    let xs = fenced_x(ls, ls.len() as int);
    let fm = fence_markers_of(t.1);
    let blank = Seq::<char>::empty();
    let head = seq![m, blank];
    let tail = seq![blank];
    assert(block(t) == head + xs + tail);
    lemma_read_all_append(r, head + xs, tail);
    lemma_read_all_append(r, head, xs);
    assert(head.drop_last() =~= seq![m]);
    assert(seq![m].drop_last() =~= Seq::<Seq<char>>::empty());
    let r1 = read_line(r, m);
    assert(read_all(r, Seq::<Seq<char>>::empty()) == r);
    assert(seq![m].last() == m);
    assert(read_all(r, seq![m]) == r1);
    assert(r1.mine == t.0);
    let r2 = read_line(r1, blank);
    assert(read_all(r, head) == r2);
    assert(r2.body =~= seq!['\n']);
    lemma_fenced_x(ls, ls.len() as int);
    lemma_read_fenced(r2, ls, ls.len() as int);
    let r3 = read_all(r2, xs);
    assert(tail.drop_last() =~= Seq::<Seq<char>>::empty());
    let r4 = read_line(r3, blank);
    assert(read_all(r3, Seq::<Seq<char>>::empty()) == r3);
    assert(tail.last() == blank);
    assert(read_all(r3, tail) == r4);
    assert(read_all(r, block(t)) == r4);
    let nn = seq!['\n', '\n'];
    assert(r4.body =~= seq!['\n'] + (fm + nn));
    assert(trim_start(r4.body) == trim_start(fm + nn)) by {
        assert(r4.body.drop_first() =~= fm + nn);
    }
    lemma_trim_start_append(fm, nn, fm.len() - 1);
    assert(all_ws(nn));
    lemma_trim_end_ws_suffix(trim_start(fm), nn);
    assert(trim(r4.body) == trim(fm));
    lemma_trim_not_blank(fm);
    assert(pending(r4) =~= pending(r).push((t.0, trim(fm))));
    reveal_strlit("\n\n");
    lemma_unlines_append(head + xs, tail);
    lemma_unlines_append(head, xs);
    assert(head.drop_first() =~= seq![blank]);
    assert(seq![blank].drop_first() =~= Seq::<Seq<char>>::empty());
    assert(tail.drop_first() =~= Seq::<Seq<char>>::empty());
    assert(unlines(tail.drop_first()) =~= Seq::<char>::empty());
    assert(unlines(tail) =~= seq!['\n']);
    assert(unlines(head) =~= m + seq!['\n'] + seq!['\n']);
    assert(unlines(block(t)) =~= m + "\n\n"@ + fm + "\n\n"@);
    assert forall|i: int| 0 <= i < block(t).len() implies unbroken(#[trigger] block(t)[i]) by {
        if 2 <= i < 2 + xs.len() {
            assert(block(t)[i] == xs[i - 2]);
        }
    }
}

/// The lines of a filed conversation are its text's lines, and reading them
/// gives its turns back, with no fence left open.
proof fn lemma_doc(title: Seq<char>, turns: Seq<(bool, Seq<char>)>, n: int)
    requires
        unbroken(title),
        0 <= n <= turns.len(),
        forall|i: int| 0 <= i < turns.len() ==> keepable(#[trigger] turns[i].1),
    ensures
        unlines(doc(title, turns, n)) == "# "@ + title + "\n\n"@ + turns_text(turns, n, false),
        forall|i: int| 0 <= i < doc(title, turns, n).len() ==> unbroken(#[trigger] doc(title, turns, n)[i]),
        !read_all(unread(), doc(title, turns, n)).in_code,
        pending(read_all(unread(), doc(title, turns, n))) == Seq::new(
            n as nat,
            |i: int| (turns[i].0, trim(fence_markers_of(turns[i].1))),
        ),
    decreases n,
{
    reveal_strlit("# ");
    reveal_strlit("\n\n");
    if n == 0 {
        let h = "# "@ + title;
        let blank = Seq::<char>::empty();
        let d = doc(title, turns, n);
        assert(d == seq![h, blank]);
        assert(d.drop_first() =~= seq![blank]);
        assert(seq![blank].drop_first() =~= Seq::<Seq<char>>::empty());
        assert(unlines(seq![blank].drop_first()) =~= Seq::<char>::empty());
        assert(unlines(seq![blank]) =~= seq!['\n']);
        assert(unlines(d) =~= h + seq!['\n'] + seq!['\n']);
        assert(turns_text(turns, n, false) =~= Seq::<char>::empty());
        assert(unlines(d) =~= h + "\n\n"@ + turns_text(turns, n, false));
        assert(unbroken(h)) by {
            assert forall|j: int| 0 <= j < h.len() implies h[j] != '\n' && h[j] != '\r' by {
                if j >= 2 {
                    assert(h[j] == title[j - 2]);
                }
            }
        }
        assert forall|i: int| 0 <= i < d.len() implies unbroken(#[trigger] d[i]) by {}
        assert(h[0] == '#');
        lemma_trim_end_first(h);
        lemma_not_fence(trim_end(h));
        lemma_blank_line();
        assert(d.drop_last() =~= seq![h]);
        assert(seq![h].drop_last() =~= Seq::<Seq<char>>::empty());
        let r1 = read_line(unread(), h);
        assert(read_all(unread(), Seq::<Seq<char>>::empty()) == unread());
        assert(seq![h].last() == h);
        assert(read_all(unread(), seq![h]) == r1);
        let r2 = read_line(r1, blank);
        assert(read_all(unread(), d) == r2);
        if r1.started {
            assert(r2.body =~= seq!['\n']);
        }
        assert(pending(r2) =~= Seq::new(n as nat, |i: int| (turns[i].0, trim(fence_markers_of(turns[i].1)))));
    } else {
        lemma_doc(title, turns, n - 1);
        let t = turns[n - 1];
        let prev = doc(title, turns, n - 1);
        let r = read_all(unread(), prev);
        lemma_read_block(r, t);
        lemma_read_all_append(unread(), prev, block(t));
        lemma_unlines_append(prev, block(t));
        assert(marker_of(t.0) == (if t.0 {
            mine_marker()
        } else {
            theirs_marker()
        }));
        assert(unlines(doc(title, turns, n)) =~= "# "@ + title + "\n\n"@ + turns_text(turns, n, false));
        let d = doc(title, turns, n);
        assert forall|i: int| 0 <= i < d.len() implies unbroken(#[trigger] d[i]) by {
            if i < prev.len() {
                assert(d[i] == prev[i]);
            } else {
                assert(d[i] == block(t)[i - prev.len()]);
            }
        }
        let f = |i: int| (turns[i].0, trim(fence_markers_of(turns[i].1)));
        assert(Seq::new(n as nat, f) =~= Seq::new((n - 1) as nat, f).push(f(n - 1)));
    }
}

/// A conversation filed and read back has the turns it had, in order, each
/// with its text as it was filed, trimmed: when the title is one line and
/// each turn's text is not blank, has no whitespace at either end and no
/// carriage return, and closes every code fence it opens.
pub proof fn law_filed_turns_are_read_back(c: ChatView)
    requires
        unbroken(title_of(c.name, c.turns)),
        forall|i: int| 0 <= i < c.turns.len() ==> keepable(#[trigger] c.turns[i].1),
    ensures
        parse_of(to_text_of(c)) == Seq::new(
            c.turns.len(),
            |i: int| (c.turns[i].0, trim(fence_markers_of(c.turns[i].1))),
        ),
{
    let title = title_of(c.name, c.turns);
    let n = c.turns.len() as int;
    lemma_doc(title, c.turns, n);
    let d = doc(title, c.turns, n);
    lemma_lines_unlines(d);
    assert(to_text_of(c) == unlines(d));
    lemma_read_lines_all(d, d.len() as int);
    assert(d.take(d.len() as int) =~= d);
}

} // verus!
