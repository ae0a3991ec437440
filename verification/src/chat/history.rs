//! The conversation as the model is shown it, which is not as it was said.
//!
//! What goes back is not the transcript. A block already accepted has its
//! body taken out unless it is the only copy of what a file says; a lookup
//! goes back as something the model was told rather than as a tag it could
//! copy; and whatever a turn of theirs cannot keep travels forward and is
//! said in the next turn of ours, which is somewhere the model does not
//! write.
use vstd::prelude::*;

use crate::chat::change::{
    block_end, block_end_of, blocks, blocks_of, body_of, head_of, in_order, kind_word, named,
    named_of, own_name_chars, own_name_of, quote, span, spans, state_attr, state_attr_of,
    trim_end_char, trimmed_end_char, trimmed_start_char, Kind,
};
use crate::llm::{turns_view, Turn};
use crate::strs::{
    chars_of, contains, find, find_at, find_from, find_in, has, join, joined, lemma_find_from,
    occurs_at, push_all, push_str, same, slice, split_at_each, split_on, string_of, trim, trimmed,
    views, texts,
};

verus! {

// ---------------------------------------------------------------- lookups

/// How the record of a lookup closes.
pub open spec fn used_shut() -> Seq<char> {
    seq!['<', '/', 'u', 's', 'e', 'd', '>']
}

/// `s` with every trailing `p` taken off.
pub open spec fn trim_end_pat(s: Seq<char>, p: Seq<char>) -> Seq<char>
    decreases s.len(),
{
    if p.len() > 0 && p.len() <= s.len() && s.skip(s.len() - p.len()) == p {
        trim_end_pat(s.take(s.len() - p.len()), p)
    } else {
        s
    }
}

/// What a lookup comes to, said as something the model was told: the tool
/// and its argument are the first and second quoted values in the tag, and
/// what came back is everything after the tag.
pub open spec fn lookup_note_of(span: Seq<char>) -> Seq<char> {
    let pieces = split_on(span, quote());
    let tool = if pieces.len() > 1 {
        pieces[1]
    } else {
        "something"@
    };
    let arg = if pieces.len() > 3 {
        pieces[3]
    } else {
        seq![]
    };
    let body = match find(span, seq!['>']) {
        Some(k) => trim(trim_end_pat(span.skip(k + 1), used_shut())),
        None => seq![],
    };
    if tool == "read"@ {
        "You read `"@ + arg + "` at that point."@
    } else {
        "The "@ + tool + " tool was asked about "@ + arg + ", and answered: "@ + body
    }
}

/// The text from `at` on with every lookup lifted out of it, and what each
/// lookup comes to, in order. An opened lookup that nothing closes stays.
pub open spec fn without_lookups_from(text: Seq<char>, at: int) -> (Seq<char>, Seq<Seq<char>>)
    decreases text.len() - at,
{
    if at < 0 || at > text.len() {
        (seq![], seq![])
    } else {
        match find_from(text, "<used tool="@, at) {
            None => (text.skip(at), seq![]),
            Some(from) => match find_from(text, used_shut(), from) {
                None => (text.skip(at), seq![]),
                Some(j) => {
                    proof {
                        lemma_find_from(text, "<used tool="@, at);
                        lemma_find_from(text, used_shut(), from);
                    }
                    let (rest, notes) = without_lookups_from(text, j + 7);
                    (
                        text.subrange(at, from) + rest,
                        seq![lookup_note_of(text.subrange(from, j + 7))] + notes,
                    )
                },
            },
        }
    }
}

/// `v` with every trailing copy of `p` taken off.
fn trimmed_end_pat(v: &[char], p: &Vec<char>) -> (r: Vec<char>)
    ensures
        r@ == trim_end_pat(v@, p@),
{
    let mut n = v.len();
    assert(v@.take(n as int) =~= v@);
    while p.len() > 0 && p.len() <= n && crate::strs::at(v, p, n - p.len())
        invariant
            n <= v@.len(),
            trim_end_pat(v@.take(n as int), p@) == trim_end_pat(v@, p@),
        decreases n,
    {
        let ghost s = v@.take(n as int);
        assert(s.skip(s.len() - p@.len()) =~= v@.subrange(n - p@.len(), n as int));
        assert(s.take(s.len() - p@.len()) =~= v@.take(n - p@.len()));
        n = n - p.len();
    }
    let ghost s = v@.take(n as int);
    if p.len() > 0 && p.len() <= n {
        assert(s.skip(s.len() - p@.len()) =~= v@.subrange(n - p@.len(), n as int));
    }
    slice(v, 0, n)
}

/// What a lookup comes to, said as something the model was told.
fn lookup_note(span: &[char]) -> (r: Vec<char>)
    ensures
        r@ == lookup_note_of(span@),
{
    let len = span.len();
    let qv = vec!['"'];
    assert(qv@ == quote());
    let pieces = split_at_each(span, &qv);
    let tool = if pieces.len() > 1 {
        copied(&pieces[1])
    } else {
        chars_of("something")
    };
    let arg = if pieces.len() > 3 {
        copied(&pieces[3])
    } else {
        Vec::new()
    };
    let gt = vec!['>'];
    assert(gt@ == seq!['>']);
    let shut = vec!['<', '/', 'u', 's', 'e', 'd', '>'];
    assert(shut@ == used_shut());
    let body = match find_in(span, &gt) {
        Some(k) => {
            proof {
                lemma_find_from(span@, gt@, 0);
            }
            let after = slice(span, k + 1, span.len());
            assert(after@ =~= span@.skip(k + 1));
            trimmed(&trimmed_end_pat(&after, &shut))
        },
        None => Vec::new(),
    };
    if same(&tool, &chars_of("read")) {
        let mut out = chars_of("You read `");
        push_all(&mut out, &arg);
        push_str(&mut out, "` at that point.");
        out
    } else {
        let mut out = chars_of("The ");
        push_all(&mut out, &tool);
        push_str(&mut out, " tool was asked about ");
        push_all(&mut out, &arg);
        push_str(&mut out, ", and answered: ");
        push_all(&mut out, &body);
        out
    }
}

/// The same characters, in a run of their own.
fn copied(v: &Vec<char>) -> (r: Vec<char>)
    ensures
        r@ == v@,
{
    slice(v.as_slice(), 0, v.len())
}

/// A text with every lookup lifted out, and what each one comes to.
pub fn without_lookups(text: &[char]) -> (r: (Vec<char>, Vec<Vec<char>>))
    ensures
        (r.0@, views(r.1@)) == without_lookups_from(text@, 0),
{
    let len = text.len();
    let open = chars_of("<used tool=");
    let shut = vec!['<', '/', 'u', 's', 'e', 'd', '>'];
    assert(shut@ == used_shut());
    let mut out: Vec<char> = Vec::new();
    let mut notes: Vec<Vec<char>> = Vec::new();
    let mut at: usize = 0;
    loop
        invariant
            at <= len,
            len == text@.len(),
            open@ == "<used tool="@,
            shut@ == used_shut(),
            without_lookups_from(text@, 0) == (
                out@ + without_lookups_from(text@, at as int).0,
                views(notes@) + without_lookups_from(text@, at as int).1,
            ),
        decreases len - at,
    {
        let from = match find_at(text, &open, at) {
            None => {
                let rest = slice(text, at, len);
                push_all(&mut out, &rest);
                assert(rest@ =~= text@.skip(at as int));
                assert(views(notes@) + seq![] =~= views(notes@));
                return (out, notes);
            },
            Some(f) => f,
        };
        let j = match find_at(text, &shut, from) {
            None => {
                let rest = slice(text, at, len);
                push_all(&mut out, &rest);
                assert(rest@ =~= text@.skip(at as int));
                assert(views(notes@) + seq![] =~= views(notes@));
                return (out, notes);
            },
            Some(j) => j,
        };
        proof {
            lemma_find_from(text@, open@, at as int);
            lemma_find_from(text@, shut@, from as int);
        }
        let end = j + 7;
        let ghost before_out = out@;
        let ghost before_notes = views(notes@);
        let part = slice(text, at, from);
        push_all(&mut out, &part);
        let span = slice(text, from, end);
        let note = lookup_note(&span);
        notes.push(note);
        assert(views(notes@) =~= before_notes.push(note@));
        let ghost rest = without_lookups_from(text@, end as int);
        assert(out@ + rest.0 =~= before_out + (text@.subrange(at as int, from as int) + rest.0));
        assert(views(notes@) + rest.1 =~= before_notes + (seq![lookup_note_of(text@.subrange(from as int, end as int))] + rest.1));
        at = end;
    }
}

// ----------------------------------------------------------------- labels

/// How a decision is said in a label.
pub open spec fn done_word(state: Option<bool>, moved_on: bool) -> Seq<char> {
    match state {
        Some(true) => if moved_on {
            "accepted, but the file has changed since and no longer says that"@
        } else {
            "accepted"@
        },
        Some(false) => "turned down, and the file is as it was"@,
        None => "not answered either way yet"@,
    }
}

/// The label a block is replaced with: what it proposed for which file, and
/// how that went.
pub open spec fn block_note(text: Seq<char>, b: (Kind, int, int, int), moved_on: bool) -> Seq<char> {
    let head = head_of(text, b);
    let named = match named_of(head) {
        Some(n) => n,
        None => "the note"@,
    };
    "Your "@ + kind_word(b.0) + " to `"@ + named + "` was "@ + done_word(
        state_attr_of(head),
        moved_on,
    ) + "."@
}

/// The first `n` blocks each replaced by nothing and a label, save those
/// named by position in `keep`, which stay whole: the text so far, the
/// labels, and where the text goes on.
pub open spec fn labelled(
    text: Seq<char>,
    bs: Seq<(Kind, int, int, int)>,
    keep: Seq<usize>,
    moved_on: Seq<usize>,
    n: int,
) -> (Seq<char>, Seq<Seq<char>>, int)
    decreases n,
{
    if n <= 0 {
        (seq![], seq![], 0)
    } else {
        let (out, notes, at) = labelled(text, bs, keep, moved_on, n - 1);
        let b = bs[n - 1];
        let end = block_end_of(text, b.0, b.3);
        if keep.contains((n - 1) as usize) {
            (out + text.subrange(at, b.1) + text.subrange(b.1, end), notes, end)
        } else {
            (
                out + text.subrange(at, b.1),
                notes.push(block_note(text, b, moved_on.contains((n - 1) as usize))),
                end,
            )
        }
    }
}

/// Every block replaced by a label, save the ones named by position; then
/// every lookup lifted out. What is left, trimmed, and the labels and
/// lookups, in that order.
pub open spec fn bodies_but_of(text: Seq<char>, keep: Seq<usize>, moved_on: Seq<usize>) -> (
    Seq<char>,
    Seq<Seq<char>>,
) {
    let bs = blocks_of(text);
    let (out, notes, at) = labelled(text, bs, keep, moved_on, bs.len() as int);
    let (said, looked) = without_lookups_from(out + text.skip(at), 0);
    (trim(said), notes + looked)
}

/// Whether a list of positions holds this one.
fn holds_position(list: &[usize], n: usize) -> (r: bool)
    ensures
        r == list@.contains(n),
{
    let mut i: usize = 0;
    while i < list.len()
        invariant
            i <= list@.len(),
            forall|j: int| 0 <= j < i ==> list@[j] != n,
        decreases list.len() - i,
    {
        if list[i] == n {
            assert(list@[i as int] == n);
            return true;
        }
        i = i + 1;
    }
    false
}

/// The label a block is replaced with.
fn label(text: &[char], b: (Kind, usize, usize, usize), moved_on: bool) -> (r: Vec<char>)
    requires
        b.1 <= b.2 <= text@.len(),
    ensures
        r@ == block_note(text@, span(b), moved_on),
{
    let head = slice(text, b.1, b.2);
    let name = match named(&head) {
        Some(n) => n,
        None => chars_of("the note"),
    };
    let mut out = chars_of("Your ");
    push_str(&mut out, b.0.word());
    push_str(&mut out, " to `");
    push_all(&mut out, &name);
    push_str(&mut out, "` was ");
    match state_attr(&head) {
        Some(true) => if moved_on {
            push_str(&mut out, "accepted, but the file has changed since and no longer says that");
        } else {
            push_str(&mut out, "accepted");
        },
        Some(false) => push_str(&mut out, "turned down, and the file is as it was"),
        None => push_str(&mut out, "not answered either way yet"),
    }
    push_str(&mut out, ".");
    out
}

/// Every block replaced by a label, save the ones named by position.
pub fn bodies_but(text: &[char], keep: &[usize], moved_on: &[usize]) -> (r: (Vec<char>, Vec<Vec<char>>))
    ensures
        (r.0@, views(r.1@)) == bodies_but_of(text@, keep@, moved_on@),
{
    let bs = blocks(text);
    let ghost all = spans(bs@);
    let mut out: Vec<char> = Vec::new();
    let mut notes: Vec<Vec<char>> = Vec::new();
    let mut at: usize = 0;
    let mut k: usize = 0;
    while k < bs.len()
        invariant
            k <= bs@.len(),
            all == spans(bs@),
            all == blocks_of(text@),
            in_order(text@, all),
            at <= text@.len(),
            k < bs@.len() ==> at <= all[k as int].1,
            labelled(text@, all, keep@, moved_on@, k as int) == (out@, views(notes@), at as int),
        decreases bs.len() - k,
    {
        let b = bs[k];
        let ghost sb = all[k as int];
        assert(sb == span(b));
        let end = block_end(text, b.0, b.3);
        let part = slice(text, at, b.1);
        push_all(&mut out, &part);
        if holds_position(keep, k) {
            let whole = slice(text, b.1, end);
            push_all(&mut out, &whole);
        } else {
            let ghost before = views(notes@);
            let l = label(text, b, holds_position(moved_on, k));
            notes.push(l);
            assert(views(notes@) =~= before.push(l@));
        }
        at = end;
        k = k + 1;
        if k < bs.len() {
            assert(all[k - 1] == sb);
        }
    }
    let tail = slice(text, at, text.len());
    push_all(&mut out, &tail);
    assert(tail@ =~= text@.skip(at as int));
    let (said, looked) = without_lookups(&out);
    let ghost before = views(notes@);
    let mut i: usize = 0;
    while i < looked.len()
        invariant
            i <= looked@.len(),
            views(notes@) == before + views(looked@).take(i as int),
        decreases looked.len() - i,
    {
        let ghost b2 = views(notes@);
        let x = copied(&looked[i]);
        notes.push(x);
        assert(views(notes@) =~= b2.push(x@));
        assert(views(looked@).take(i + 1) =~= views(looked@).take(i as int).push(looked@[i as int]@));
        i = i + 1;
    }
    assert(views(looked@).take(looked@.len() as int) =~= views(looked@));
    (trimmed(&said), notes)
}

/// A past turn as the model should see it, with the bodies of changes taken
/// out of it, and with what it looked up said at the end.
pub open spec fn without_bodies_of(text: Seq<char>) -> Seq<char> {
    let (said, notes) = bodies_but_of(text, seq![], seq![]);
    if notes.len() == 0 {
        said
    } else {
        trim(said + "\n\n"@ + join(notes, "\n"@))
    }
}

/// A past turn as the model should see it, with the bodies of changes taken
/// out of it.
///
/// A change block is a copy of a file, and a copy of a file goes stale; what
/// it proposed is still there, but the text of it is not. On its own this is
/// one turn with nowhere to carry to, so what would have gone into the next
/// question is put on the end of this one.
pub fn without_bodies(text: &str) -> (r: String)
    ensures
        r@ == without_bodies_of(text@),
{
    let t = chars_of(text);
    let none: Vec<usize> = Vec::new();
    let (said, notes) = bodies_but(&t, none.as_slice(), none.as_slice());
    assert(none@ =~= seq![]);
    if notes.len() == 0 {
        return string_of(&said);
    }
    let mut all = said;
    push_str(&mut all, "\n\n");
    let nl = chars_of("\n");
    let list = joined(&notes, &nl);
    push_all(&mut all, &list);
    string_of(&trimmed(&all))
}

// ------------------------------------------------------------ as it is sent

/// Whether a file still says what an accepted block said of it: a write,
/// create or merge holds while the file is its text (an empty merge always
/// does); an edit or insert while the file has its text in it somewhere.
pub open spec fn holds_of(kind: Kind, body: Seq<char>, now_text: Seq<char>) -> bool {
    match kind {
        Kind::Write | Kind::Create | Kind::Merge => trim_end_char(now_text, '\n') == trim_end_char(
            body,
            '\n',
        ) || (trim(body).len() == 0 && kind == Kind::Merge),
        _ => trim(body).len() == 0 || contains(now_text, trim(body)),
    }
}

/// What the project says now for the file with this own name.
pub open spec fn find_now(now: Seq<(Seq<char>, Seq<char>)>, named: Seq<char>) -> Option<Seq<char>>
    decreases now.len(),
{
    if now.len() == 0 {
        None
    } else if own_name_of(now[0].0) == own_name_of(named) {
        Some(now[0].1)
    } else {
        find_now(now.drop_first(), named)
    }
}

/// The newest accepted blocks, less the one for this name.
pub open spec fn without_name(newest: Seq<(Seq<char>, int, int)>, named: Seq<char>) -> Seq<
    (Seq<char>, int, int),
>
    decreases newest.len(),
{
    if newest.len() == 0 {
        seq![]
    } else {
        let r = without_name(newest.drop_last(), named);
        if newest.last().0 == named {
            r
        } else {
            r.push(newest.last())
        }
    }
}

/// What is known after the first `n` blocks of turn `t`: for each file, the
/// newest accepted block that the file still agrees with; and the accepted
/// blocks the file has moved on from.
pub open spec fn scan_blocks(
    text: Seq<char>,
    t: int,
    now: Seq<(Seq<char>, Seq<char>)>,
    acc: (Seq<(Seq<char>, int, int)>, Seq<(int, int)>),
    n: int,
) -> (Seq<(Seq<char>, int, int)>, Seq<(int, int)>)
    decreases n,
{
    if n <= 0 {
        acc
    } else {
        let (newest, stale) = scan_blocks(text, t, now, acc, n - 1);
        let b = blocks_of(text)[n - 1];
        let head = head_of(text, b);
        if b.0 == Kind::Delete {
            (newest, stale)
        } else {
            match (named_of(head), state_attr_of(head)) {
                (Some(name), Some(true)) => match find_now(now, name) {
                    Some(nt) => if !holds_of(b.0, body_of(text, b), nt) {
                        (newest, stale.push((t, n - 1)))
                    } else {
                        (without_name(newest, name).push((name, t, n - 1)), stale)
                    },
                    None => (without_name(newest, name).push((name, t, n - 1)), stale),
                },
                _ => (newest, stale),
            }
        }
    }
}

/// The same, over the first `k` turns: only the model's turns hold blocks.
pub open spec fn scan_turns(
    turns: Seq<(bool, Seq<char>)>,
    now: Seq<(Seq<char>, Seq<char>)>,
    k: int,
) -> (Seq<(Seq<char>, int, int)>, Seq<(int, int)>)
    decreases k,
{
    if k <= 0 {
        (seq![], seq![])
    } else {
        let acc = scan_turns(turns, now, k - 1);
        if turns[k - 1].0 {
            acc
        } else {
            scan_blocks(turns[k - 1].1, k - 1, now, acc, blocks_of(turns[k - 1].1).len() as int)
        }
    }
}

/// The blocks of turn `t` that keep their bodies, by position.
pub open spec fn keeps(newest: Seq<(Seq<char>, int, int)>, t: int) -> Seq<usize>
    decreases newest.len(),
{
    if newest.len() == 0 {
        seq![]
    } else {
        let r = keeps(newest.drop_last(), t);
        if newest.last().1 == t {
            r.push(newest.last().2 as usize)
        } else {
            r
        }
    }
}

/// The blocks of turn `t` whose file has moved on, by position.
pub open spec fn moves(stale: Seq<(int, int)>, t: int) -> Seq<usize>
    decreases stale.len(),
{
    if stale.len() == 0 {
        seq![]
    } else {
        let r = moves(stale.drop_last(), t);
        if stale.last().0 == t {
            r.push(stale.last().1 as usize)
        } else {
            r
        }
    }
}

/// The first `k` turns as sent, and what is still to be carried forward: a
/// turn of theirs loses its labels and lookups to the next turn of ours,
/// which says them first.
pub open spec fn sent_turns(
    turns: Seq<(bool, Seq<char>)>,
    newest: Seq<(Seq<char>, int, int)>,
    stale: Seq<(int, int)>,
    k: int,
) -> (Seq<Seq<char>>, Seq<Seq<char>>)
    decreases k,
{
    if k <= 0 {
        (seq![], seq![])
    } else {
        let (out, carry) = sent_turns(turns, newest, stale, k - 1);
        let turn = turns[k - 1];
        if turn.0 {
            let text = if carry.len() > 0 {
                join(carry, "\n"@) + "\n\n"@ + turn.1
            } else {
                turn.1
            };
            (out.push(text), seq![])
        } else {
            let (said, notes) = bodies_but_of(turn.1, keeps(newest, k - 1), moves(stale, k - 1));
            (out.push(said), carry + notes)
        }
    }
}

/// The conversation as the model should be shown it: every change block a
/// label, except the newest accepted one for each file while the file still
/// says what it says; and what a turn of theirs cannot keep said in the next
/// turn of ours, or at the end of the last one when there is none.
pub open spec fn as_sent_of(turns: Seq<(bool, Seq<char>)>, now: Seq<(Seq<char>, Seq<char>)>) -> Seq<
    Seq<char>,
> {
    let (newest, stale) = scan_turns(turns, now, turns.len() as int);
    let (out, carry) = sent_turns(turns, newest, stale, turns.len() as int);
    if out.len() > 0 && carry.len() > 0 {
        out.update(out.len() - 1, out.last() + "\n\n"@ + join(carry, "\n"@))
    } else {
        out
    }
}

/// The project now, as values.
pub open spec fn now_view(now: Seq<(String, String)>) -> Seq<(Seq<char>, Seq<char>)> {
    now.map_values(|e: (String, String)| (e.0@, e.1@))
}

/// The newest accepted blocks, as values.
pub open spec fn newest_view(v: Seq<(Vec<char>, usize, usize)>) -> Seq<(Seq<char>, int, int)> {
    v.map_values(|e: (Vec<char>, usize, usize)| (e.0@, e.1 as int, e.2 as int))
}

/// The stale blocks, as values.
pub open spec fn stale_view(v: Seq<(usize, usize)>) -> Seq<(int, int)> {
    v.map_values(|e: (usize, usize)| (e.0 as int, e.1 as int))
}

/// What the project says now for the file with this own name.
fn now_for(now: &[(String, String)], name: &[char]) -> (r: Option<Vec<char>>)
    ensures
        r matches Some(t) ==> find_now(now_view(now@), name@) == Some(t@),
        r is None ==> find_now(now_view(now@), name@) is None,
{
    let want = own_name_chars(name);
    let ghost nv = now_view(now@);
    let mut i: usize = 0;
    assert(nv.skip(0) =~= nv);
    while i < now.len()
        invariant
            i <= now@.len(),
            nv == now_view(now@),
            want@ == own_name_of(name@),
            find_now(nv.skip(i as int), name@) == find_now(nv, name@),
        decreases now.len() - i,
    {
        assert(nv.skip(i as int)[0] == nv[i as int]);
        let n = own_name_chars(&chars_of(now[i].0.as_str()));
        if same(&n, &want) {
            return Some(chars_of(now[i].1.as_str()));
        }
        assert(nv.skip(i as int).drop_first() =~= nv.skip(i + 1));
        i = i + 1;
    }
    None
}

/// Whether a file still says what an accepted block said of it.
fn holds(kind: Kind, body: &[char], now_text: &[char]) -> (r: bool)
    ensures
        r == holds_of(kind, body@, now_text@),
{
    let tb = trimmed(body);
    match kind {
        Kind::Write | Kind::Create | Kind::Merge => {
            let a = trimmed_end_char(now_text, '\n');
            let b = trimmed_end_char(body, '\n');
            same(&a, &b) || (tb.len() == 0 && kind == Kind::Merge)
        },
        _ => {
            if tb.len() == 0 {
                return true;
            }
            find_in(now_text, &tb).is_some()
        },
    }
}

/// The newest accepted blocks, less the one for this name.
fn drop_name(newest: &mut Vec<(Vec<char>, usize, usize)>, name: &[char])
    ensures
        newest_view(final(newest)@) == without_name(newest_view(old(newest)@), name@),
{
    let ghost nv = newest_view(newest@);
    let mut kept: Vec<(Vec<char>, usize, usize)> = Vec::new();
    let mut i: usize = 0;
    while i < newest.len()
        invariant
            i <= newest@.len(),
            nv == newest_view(newest@),
            newest_view(kept@) == without_name(nv.take(i as int), name@),
        decreases newest.len() - i,
    {
        assert(nv.take(i + 1).drop_last() =~= nv.take(i as int));
        assert(nv.take(i + 1).last() == nv[i as int]);
        if !same(&newest[i].0, name) {
            let ghost before = newest_view(kept@);
            let e = (copied(&newest[i].0), newest[i].1, newest[i].2);
            kept.push(e);
            assert(newest_view(kept@) =~= before.push(nv[i as int]));
        }
        i = i + 1;
    }
    assert(nv.take(newest@.len() as int) =~= nv);
    *newest = kept;
}

/// Look at the blocks of one turn of theirs.
fn scan_turn(
    text: &[char],
    t: usize,
    now: &[(String, String)],
    newest: &mut Vec<(Vec<char>, usize, usize)>,
    stale: &mut Vec<(usize, usize)>,
)
    ensures
        (newest_view(final(newest)@), stale_view(final(stale)@)) == scan_blocks(
            text@,
            t as int,
            now_view(now@),
            (newest_view(old(newest)@), stale_view(old(stale)@)),
            blocks_of(text@).len() as int,
        ),
{
    let ghost acc = (newest_view(newest@), stale_view(stale@));
    let bs = blocks(text);
    let ghost all = spans(bs@);
    let mut k: usize = 0;
    while k < bs.len()
        invariant
            k <= bs@.len(),
            all == spans(bs@),
            all == blocks_of(text@),
            in_order(text@, all),
            (newest_view(newest@), stale_view(stale@)) == scan_blocks(
                text@,
                t as int,
                now_view(now@),
                acc,
                k as int,
            ),
        decreases bs.len() - k,
    {
        let b = bs[k];
        assert(all[k as int] == span(b));
        if b.0 != Kind::Delete {
            let head = slice(text, b.1, b.2);
            match (named(&head), state_attr(&head)) {
                (Some(name), Some(true)) => {
                    let inner = slice(text, b.2, b.3);
                    let body = trimmed_end_char(&trimmed_start_char(&inner, '\n'), '\n');
                    let agrees = match now_for(now, &name) {
                        Some(nt) => holds(b.0, &body, &nt),
                        None => true,
                    };
                    if !agrees {
                        let ghost before = stale_view(stale@);
                        stale.push((t, k));
                        assert(stale_view(stale@) =~= before.push((t as int, k as int)));
                    } else {
                        drop_name(newest, &name);
                        let ghost before = newest_view(newest@);
                        let e = (name, t, k);
                        newest.push(e);
                        assert(newest_view(newest@) =~= before.push((e.0@, t as int, k as int)));
                    }
                },
                _ => {},
            }
        }
        k = k + 1;
    }
}

/// The blocks of turn `t` that keep their bodies, by position.
fn keeps_of(newest: &Vec<(Vec<char>, usize, usize)>, t: usize) -> (r: Vec<usize>)
    ensures
        r@ == keeps(newest_view(newest@), t as int),
{
    let ghost nv = newest_view(newest@);
    let mut out: Vec<usize> = Vec::new();
    let mut i: usize = 0;
    while i < newest.len()
        invariant
            i <= newest@.len(),
            nv == newest_view(newest@),
            out@ == keeps(nv.take(i as int), t as int),
        decreases newest.len() - i,
    {
        assert(nv.take(i + 1).drop_last() =~= nv.take(i as int));
        assert(nv.take(i + 1).last() == nv[i as int]);
        if newest[i].1 == t {
            out.push(newest[i].2);
        }
        i = i + 1;
    }
    assert(nv.take(newest@.len() as int) =~= nv);
    out
}

/// The blocks of turn `t` whose file has moved on, by position.
fn moves_of(stale: &Vec<(usize, usize)>, t: usize) -> (r: Vec<usize>)
    ensures
        r@ == moves(stale_view(stale@), t as int),
{
    let ghost sv = stale_view(stale@);
    let mut out: Vec<usize> = Vec::new();
    let mut i: usize = 0;
    while i < stale.len()
        invariant
            i <= stale@.len(),
            sv == stale_view(stale@),
            out@ == moves(sv.take(i as int), t as int),
        decreases stale.len() - i,
    {
        assert(sv.take(i + 1).drop_last() =~= sv.take(i as int));
        assert(sv.take(i + 1).last() == sv[i as int]);
        if stale[i].0 == t {
            out.push(stale[i].1);
        }
        i = i + 1;
    }
    assert(sv.take(stale@.len() as int) =~= sv);
    out
}

/// Lines laid end to end with a line break between each two.
fn joined_notes(notes: &Vec<Vec<char>>) -> (r: Vec<char>)
    ensures
        r@ == join(views(notes@), "\n"@),
{
    let nl = chars_of("\n");
    joined(notes, &nl)
}

/// The conversation as the model should be shown it.
///
/// Every change block becomes a label, except the newest accepted one for
/// each file, which keeps what it said - it is the only copy of what the file
/// holds - for as long as the file still says it. Whatever a turn of theirs
/// cannot keep travels forward and is said in the next turn of ours, which
/// is somewhere the model does not write.
pub fn as_sent(turns: &[Turn], now: &[(String, String)]) -> (r: Vec<String>)
    ensures
        texts(r@) == as_sent_of(turns_view(turns@), now_view(now@)),
{
    let ghost tv = turns_view(turns@);
    let mut newest: Vec<(Vec<char>, usize, usize)> = Vec::new();
    let mut stale: Vec<(usize, usize)> = Vec::new();
    let mut t: usize = 0;
    while t < turns.len()
        invariant
            t <= turns@.len(),
            tv == turns_view(turns@),
            (newest_view(newest@), stale_view(stale@)) == scan_turns(tv, now_view(now@), t as int),
        decreases turns.len() - t,
    {
        assert(tv[t as int] == turns@[t as int]@);
        if !turns[t].mine {
            let text = chars_of(turns[t].text.as_str());
            scan_turn(&text, t, now, &mut newest, &mut stale);
        }
        t = t + 1;
    }
    let ghost nv = newest_view(newest@);
    let ghost sv = stale_view(stale@);
    let mut out: Vec<Vec<char>> = Vec::new();
    let mut carry: Vec<Vec<char>> = Vec::new();
    let mut t: usize = 0;
    while t < turns.len()
        invariant
            t <= turns@.len(),
            tv == turns_view(turns@),
            nv == newest_view(newest@),
            sv == stale_view(stale@),
            (views(out@), views(carry@)) == sent_turns(tv, nv, sv, t as int),
        decreases turns.len() - t,
    {
        assert(tv[t as int] == turns@[t as int]@);
        let text = chars_of(turns[t].text.as_str());
        let ghost before_out = views(out@);
        let ghost before_carry = views(carry@);
        if turns[t].mine {
            let mut said: Vec<char> = Vec::new();
            if carry.len() > 0 {
                said = joined_notes(&carry);
                push_str(&mut said, "\n\n");
                carry = Vec::new();
            }
            push_all(&mut said, &text);
            out.push(said);
            assert(views(out@) =~= before_out.push(said@));
            assert(views(carry@) =~= seq![]);
        } else {
            let keep = keeps_of(&newest, t);
            let moved = moves_of(&stale, t);
            let (said, notes) = bodies_but(&text, keep.as_slice(), moved.as_slice());
            out.push(said);
            assert(views(out@) =~= before_out.push(said@));
            let mut i: usize = 0;
            while i < notes.len()
                invariant
                    i <= notes@.len(),
                    views(carry@) == before_carry + views(notes@).take(i as int),
                decreases notes.len() - i,
            {
                let ghost b2 = views(carry@);
                let x = copied(&notes[i]);
                carry.push(x);
                assert(views(carry@) =~= b2.push(x@));
                assert(views(notes@).take(i + 1) =~= views(notes@).take(i as int).push(notes@[i as int]@));
                i = i + 1;
            }
            assert(views(notes@).take(notes@.len() as int) =~= views(notes@));
        }
        t = t + 1;
    }
    if out.len() > 0 && carry.len() > 0 {
        let ghost before = views(out@);
        let n = out.len();
        let mut last = copied(&out[n - 1]);
        push_str(&mut last, "\n\n");
        let list = joined_notes(&carry);
        push_all(&mut last, &list);
        out.set(n - 1, last);
        assert(views(out@) =~= before.update(n - 1, before.last() + "\n\n"@ + join(views(carry@), "\n"@)));
    }
    crate::strs::strings_of(&out)
}

proof fn lemma_sent_mine(
    turns: Seq<(bool, Seq<char>)>,
    newest: Seq<(Seq<char>, int, int)>,
    stale: Seq<(int, int)>,
    k: int,
)
    requires
        0 <= k <= turns.len(),
    ensures
        ({
            let (out, carry) = sent_turns(turns, newest, stale, k);
            &&& out.len() == k
            &&& k > 0 && turns[k - 1].0 ==> carry.len() == 0
            &&& forall|i: int|
                0 <= i < k && turns[i].0 ==> crate::strs::ends_with(#[trigger] out[i], turns[i].1)
            &&& forall|i: int|
                0 <= i < k && turns[i].0 && (i == 0 || turns[i - 1].0) ==> #[trigger] out[i]
                    == turns[i].1
        }),
    decreases k,
{
    if k > 0 {
        lemma_sent_mine(turns, newest, stale, k - 1);
        let (out0, carry0) = sent_turns(turns, newest, stale, k - 1);
        let (out, carry) = sent_turns(turns, newest, stale, k);
        assert forall|i: int| 0 <= i < k && turns[i].0 implies crate::strs::ends_with(#[trigger] out[i], turns[i].1) by {
            if i == k - 1 {
                let t = out[i];
                let p = turns[i].1;
                assert(t.subrange(t.len() - p.len(), t.len() as int) =~= p);
            } else {
                assert(out[i] == out0[i]);
            }
        }
        assert forall|i: int|
            0 <= i < k && turns[i].0 && (i == 0 || turns[i - 1].0) implies #[trigger] out[i] == turns[i].1 by {
            if i < k - 1 {
                assert(out[i] == out0[i]);
            }
        }
    }
}

/// A turn of mine goes to the model as it was written, only ever with what
/// the turns of theirs just before it could not keep said in front of it:
/// so as it was, exactly, when it opens the conversation or follows one of
/// mine. There is one turn sent for each turn.
pub proof fn law_my_turns_only_gain_in_front(turns: Seq<(bool, Seq<char>)>, now: Seq<(Seq<char>, Seq<char>)>)
    ensures
        as_sent_of(turns, now).len() == turns.len(),
        forall|i: int|
            0 <= i < turns.len() && turns[i].0 ==> crate::strs::ends_with(#[trigger] as_sent_of(turns, now)[i], turns[i].1),
        forall|i: int|
            0 <= i < turns.len() && turns[i].0 && (i == 0 || turns[i - 1].0) ==> #[trigger] as_sent_of(turns, now)[i]
                == turns[i].1,
{
    let (newest, stale) = scan_turns(turns, now, turns.len() as int);
    lemma_sent_mine(turns, newest, stale, turns.len() as int);
    let (out, carry) = sent_turns(turns, newest, stale, turns.len() as int);
    let r = as_sent_of(turns, now);
    assert forall|i: int| 0 <= i < turns.len() && turns[i].0 implies r[i] == out[i] by {
        if out.len() > 0 && carry.len() > 0 {
            assert(i != out.len() - 1);
        }
    }
}

} // verus!
