//! What the editor types for you when you open a line or press Tab.
//!
//! This is markdown's grammar and a code block's convention: a list carries
//! on because a list is a thing markdown has, and an indent grows after a
//! colon because that is what Python means by one. The rules are pure
//! functions over the lines.
use vstd::prelude::*;

use crate::chat::change::{fence_count, fence_line, is_fence};
use crate::markdown::{item_marker, item_marker_of, Marker};
use crate::strs::{
    chars_of, decimal, has_ch, has_char, lead, lead_len, push_all, push_str, slice, string_of,
    trim, trim_end, trim_start, trimmed, trimmed_end, trimmed_start, write_usize,
};

verus! {

/// Spaces per level of nesting in prose: what the list parser reads a level
/// as.
pub const LIST_STEP: usize = 2;

/// Spaces per level of nesting in code.
pub const CODE_STEP: usize = 4;

/// What pressing Enter should do with the line it is splitting.
#[derive(Debug, PartialEq, Eq)]
pub enum Opened {
    /// Nothing to carry down: an ordinary new line.
    Plain,
    /// Begin the new line with this text.
    With(String),
    /// The marker was all the line held. Empty it instead of carrying the
    /// marker down - that is how a list is ended.
    Ending,
}

/// What pressing Enter does, as text.
pub enum OpenedView {
    Plain,
    With(Seq<char>),
    Ending,
}

impl View for Opened {
    type V = OpenedView;

    open spec fn view(&self) -> OpenedView {
        match self {
            Opened::Plain => OpenedView::Plain,
            Opened::With(s) => OpenedView::With(s@),
            Opened::Ending => OpenedView::Ending,
        }
    }
}

/// The lines before line `at`, or all of them.
pub open spec fn above(lines: Seq<Seq<char>>, at: int) -> Seq<Seq<char>> {
    if at <= lines.len() {
        lines.take(at)
    } else {
        lines
    }
}

/// Whether line `at` is inside a fenced code block: an odd number of fences
/// stand above it.
pub open spec fn in_code_of(lines: Seq<Seq<char>>, at: int) -> bool {
    fence_count(above(lines, at)) % 2 == 1
}

/// Each line's characters.
pub open spec fn line_views(lines: Seq<String>) -> Seq<Seq<char>> {
    lines.map_values(|l: String| l@)
}

/// Whether the line at `at` is inside a fenced code block.
///
/// Counted from the top of the file rather than searched for nearby, because
/// "inside a fence" is a fact about everything above you.
pub fn in_code(lines: &[String], at: usize) -> (r: bool)
    ensures
        r == in_code_of(line_views(lines@), at as int),
{
    let ghost lv = line_views(lines@);
    let end = if at <= lines.len() {
        at
    } else {
        lines.len()
    };
    assert(above(lv, at as int) =~= lv.take(end as int));
    let mut odd = false;
    let mut i: usize = 0;
    while i < end
        invariant
            i <= end <= lines@.len(),
            lv == line_views(lines@),
            odd == (fence_count(lv.take(i as int)) % 2 == 1),
        decreases end - i,
    {
        assert(lv.take(i + 1).drop_last() =~= lv.take(i as int));
        assert(lv[i as int] == lines@[i as int]@);
        let l = chars_of(lines[i].as_str());
        if fence_line(&l) {
            odd = !odd;
        }
        i = i + 1;
    }
    odd
}

/// One level of indent where the caret is standing: four spaces in code, two
/// in prose.
pub fn step(lines: &[String], at: usize) -> (r: usize)
    ensures
        r == if in_code_of(line_views(lines@), at as int) {
            CODE_STEP
        } else {
            LIST_STEP
        },
{
    if in_code(lines, at) {
        CODE_STEP
    } else {
        LIST_STEP
    }
}

// ------------------------------------------------------------ in a fence

/// The leading whitespace of a line.
pub open spec fn leading(line: Seq<char>) -> Seq<char> {
    line.take(lead(line) as int)
}

/// Whether a line, its trailing whitespace off, ends by opening a block.
pub open spec fn opens_block(t: Seq<char>) -> bool {
    t.len() > 0 && (t.last() == ':' || t.last() == '{' || t.last() == '(' || t.last() == '[')
}

/// Inside a fence: keep the indent, and take one more level after a line that
/// opens a block; nothing, when the caret stands inside the indent.
pub open spec fn code_opened(line: Seq<char>, col: int) -> OpenedView {
    let indent = leading(line);
    if col < indent.len() {
        OpenedView::Plain
    } else {
        let out = indent + if opens_block(trim_end(line)) {
            "    "@
        } else {
            seq![]
        };
        if out.len() == 0 {
            OpenedView::Plain
        } else {
            OpenedView::With(out)
        }
    }
}

/// The leading whitespace of a line.
fn leading_chars(line: &[char]) -> (r: Vec<char>)
    ensures
        r@ == leading(line@),
{
    let n = lead_len(line);
    slice(line, 0, n)
}

fn in_code_block(line: &[char], col: usize) -> (r: Opened)
    ensures
        r@ == code_opened(line@, col as int),
{
    let mut out = leading_chars(line);
    if col < out.len() {
        return Opened::Plain;
    }
    let t = trimmed_end(line);
    let n = t.len();
    if n > 0 && (t[n - 1] == ':' || t[n - 1] == '{' || t[n - 1] == '(' || t[n - 1] == '[') {
        push_str(&mut out, "    ");
    }
    if out.len() == 0 {
        Opened::Plain
    } else {
        Opened::With(string_of(&out))
    }
}

// ------------------------------------------------------------- in prose

/// How many quote markers and spaces a line begins with.
pub open spec fn bar_len(line: Seq<char>, i: int) -> nat
    decreases line.len() - i,
{
    if 0 <= i < line.len() && (line[i] == '>' || line[i] == ' ') {
        1 + bar_len(line, i + 1)
    } else {
        0
    }
}

/// The leading run of quote markers, if the line is quoted at all.
pub open spec fn quote_bar_of(line: Seq<char>) -> Seq<char> {
    let bar = line.take(bar_len(line, 0) as int);
    if has_char(bar, '>') {
        bar
    } else {
        seq![]
    }
}

/// The first `.` or `)` of a list item's body, or `.` when it has none.
pub open spec fn dot_of(body: Seq<char>, i: int) -> char
    decreases body.len() - i,
{
    if i < 0 || i >= body.len() {
        '.'
    } else if body[i] == '.' || body[i] == ')' {
        body[i]
    } else {
        dot_of(body, i + 1)
    }
}

/// A line of prose that is not quoted: a list item carries its marker down,
/// an emptied item ends the list, and any other line keeps its indent.
pub open spec fn body_opened(line: Seq<char>, col: int) -> OpenedView {
    let indent = leading(line);
    match item_marker_of(line) {
        None => if indent.len() == 0 || col < indent.len() {
            OpenedView::Plain
        } else {
            OpenedView::With(indent)
        },
        Some(m) => if col < m.1 {
            OpenedView::Plain
        } else if trim(line.skip(m.1)).len() == 0 {
            OpenedView::Ending
        } else {
            let body = trim_start(line);
            let bullet = if body.len() > 0 {
                body[0]
            } else {
                '-'
            };
            OpenedView::With(
                indent + match m.0 {
                    Marker::Bullet => seq![bullet, ' '],
                    Marker::Task(_) => seq![bullet] + " [ ] "@,
                    Marker::Number(n) => decimal((n + 1) as nat) + seq![dot_of(body, 0), ' '],
                },
            )
        },
    }
}

/// A line of prose: a quote carries its markers down, and what is inside it
/// continues on its own terms.
pub open spec fn prose_opened(line: Seq<char>, col: int) -> OpenedView {
    let bar = quote_bar_of(line);
    if bar.len() > 0 {
        let inner = body_opened(line.skip(bar.len() as int), if col >= bar.len() {
            col - bar.len()
        } else {
            0
        });
        match inner {
            OpenedView::With(p) => OpenedView::With(bar + p),
            _ => OpenedView::With(bar),
        }
    } else {
        body_opened(line, col)
    }
}

/// What a new line opened at `col` on line `at` should begin with.
pub open spec fn opened_of(lines: Seq<Seq<char>>, at: int, col: int) -> OpenedView {
    if at < 0 || at >= lines.len() {
        OpenedView::Plain
    } else if in_code_of(lines, at) {
        code_opened(lines[at], col)
    } else {
        prose_opened(lines[at], col)
    }
}

/// The leading run of quote markers.
fn quote_bar(line: &[char]) -> (r: Vec<char>)
    ensures
        r@ == quote_bar_of(line@),
        r@.len() <= line@.len(),
{
    let mut n: usize = 0;
    while n < line.len() && (line[n] == '>' || line[n] == ' ')
        invariant
            n <= line@.len(),
            bar_len(line@, 0) == n + bar_len(line@, n as int),
        decreases line.len() - n,
    {
        n = n + 1;
    }
    let bar = slice(line, 0, n);
    if has_ch(&bar, '>') {
        bar
    } else {
        Vec::new()
    }
}

/// The first `.` or `)` of a body.
fn dot_in(body: &[char]) -> (r: char)
    ensures
        r == dot_of(body@, 0),
{
    let mut i: usize = 0;
    while i < body.len()
        invariant
            i <= body@.len(),
            dot_of(body@, 0) == dot_of(body@, i as int),
        decreases body.len() - i,
    {
        if body[i] == '.' || body[i] == ')' {
            return body[i];
        }
        i = i + 1;
    }
    '.'
}

fn in_body(line: &[char], col: usize) -> (r: Opened)
    ensures
        r@ == body_opened(line@, col as int),
{
    let indent = leading_chars(line);
    match item_marker(line) {
        None => {
            if indent.len() == 0 || col < indent.len() {
                Opened::Plain
            } else {
                Opened::With(string_of(&indent))
            }
        },
        Some((marker, used)) => {
            if col < used {
                return Opened::Plain;
            }
            let rest = slice(line, used, line.len());
            if trimmed(&rest).len() == 0 {
                return Opened::Ending;
            }
            let body = trimmed_start(line);
            let bullet = if body.len() > 0 {
                body[0]
            } else {
                '-'
            };
            let mut out = indent;
            let ghost head = out@;
            match marker {
                Marker::Bullet => {
                    out.push(bullet);
                    out.push(' ');
                    assert(out@ =~= head + seq![bullet, ' ']);
                },
                Marker::Task(_) => {
                    out.push(bullet);
                    push_str(&mut out, " [ ] ");
                    assert(out@ =~= head + (seq![bullet] + " [ ] "@));
                },
                Marker::Number(n) => {
                    write_usize(&mut out, (n + 1) as usize);
                    let dot = dot_in(&body);
                    out.push(dot);
                    out.push(' ');
                    assert(out@ =~= head + (decimal((n + 1) as nat) + seq![dot_of(body@, 0), ' ']));
                },
            }
            Opened::With(string_of(&out))
        },
    }
}

fn in_prose(line: &[char], col: usize) -> (r: Opened)
    ensures
        r@ == prose_opened(line@, col as int),
{
    let bar = quote_bar(line);
    if bar.len() > 0 {
        let taken = bar.len();
        let rest = slice(line, taken, line.len());
        assert(rest@ =~= line@.skip(bar@.len() as int));
        let c = if col >= taken {
            col - taken
        } else {
            0
        };
        match in_body(&rest, c) {
            Opened::With(p) => {
                let mut out = bar;
                let pc = chars_of(p.as_str());
                push_all(&mut out, &pc);
                Opened::With(string_of(&out))
            },
            _ => Opened::With(string_of(&bar)),
        }
    } else {
        in_body(line, col)
    }
}

/// What a new line opened at `col` on line `at` should begin with.
///
/// Inside a fence the indent is kept, with one more level after a line that
/// opens a block. In prose a quote carries its markers down; a list item
/// carries its marker, a task an unticked box and a number the next number;
/// splitting inside the marker carries nothing; and an item that held nothing
/// but its marker is emptied rather than continued.
pub fn opened(lines: &[String], at: usize, col: usize) -> (r: Opened)
    ensures
        r@ == opened_of(line_views(lines@), at as int, col as int),
{
    if at >= lines.len() {
        return Opened::Plain;
    }
    let ghost lv = line_views(lines@);
    assert(lv[at as int] == lines@[at as int]@);
    let line = chars_of(lines[at].as_str());
    if in_code(lines, at) {
        return in_code_block(&line, col);
    }
    in_prose(&line, col)
}

// ------------------------------------------------------------- shifting

/// `n` spaces.
pub open spec fn spaces(n: nat) -> Seq<char> {
    Seq::new(n, |i: int| ' ')
}

/// How many spaces a line begins with.
pub open spec fn space_run(line: Seq<char>, i: int) -> nat
    decreases line.len() - i,
{
    if 0 <= i < line.len() && line[i] == ' ' {
        1 + space_run(line, i + 1)
    } else {
        0
    }
}

/// A line moved one level in or out, and how far its text moved: in by
/// `step` spaces; out by a leading tab, or by the spaces it begins with, up
/// to `step` of them.
pub open spec fn shifted_of(line: Seq<char>, out: bool, step: nat) -> (Seq<char>, int) {
    if !out {
        (spaces(step) + line, step as int)
    } else if line.len() > 0 && line[0] == '\t' {
        (line.skip(1), -1)
    } else {
        let n = if space_run(line, 0) <= step {
            space_run(line, 0)
        } else {
            step
        };
        (line.skip(n as int), -n)
    }
}

/// Move a line one level in or out, and say how far its text moved.
///
/// Outdenting takes back whatever indent is actually there, up to a level: a
/// line indented by three spaces comes back to the margin rather than keeping
/// one space nobody meant to type.
pub fn shifted(line: &str, out: bool, step: usize) -> (r: (String, i32))
    requires
        step <= i32::MAX,
    ensures
        (r.0@, r.1 as int) == shifted_of(line@, out, step as nat),
{
    let v = chars_of(line);
    if !out {
        let mut s: Vec<char> = Vec::new();
        let mut i: usize = 0;
        while i < step
            invariant
                i <= step,
                s@ == spaces(i as nat),
            decreases step - i,
        {
            s.push(' ');
            assert(s@ =~= spaces((i + 1) as nat));
            i = i + 1;
        }
        push_all(&mut s, &v);
        return (string_of(&s), step as i32);
    }
    if v.len() > 0 && v[0] == '\t' {
        let rest = slice(&v, 1, v.len());
        assert(rest@ =~= v@.skip(1));
        return (string_of(&rest), -1);
    }
    let mut n: usize = 0;
    while n < v.len() && v[n] == ' ' && n < step
        invariant
            n <= v@.len(),
            n <= step,
            space_run(v@, 0) >= n,
            space_run(v@, 0) == n + space_run(v@, n as int),
        decreases v.len() - n,
    {
        n = n + 1;
    }
    let rest = slice(&v, n, v.len());
    assert(rest@ =~= v@.skip(n as int));
    (string_of(&rest), -(n as i32))
}

proof fn lemma_space_run(s: Seq<char>, i: int, k: int)
    requires
        0 <= i <= k <= s.len(),
        forall|j: int| i <= j < k ==> s[j] == ' ',
    ensures
        space_run(s, i) >= k - i,
    decreases k - i,
{
    if i < k {
        lemma_space_run(s, i + 1, k);
    }
}

/// Moving a line in a level and then out a level gives the line back as it
/// was, and the two moves cancel.
pub proof fn law_shift_in_then_out(line: Seq<char>, step: nat)
    requires
        step > 0,
    ensures
        shifted_of(shifted_of(line, false, step).0, true, step) == (line, -(step as int)),
        shifted_of(line, false, step).1 == step,
{
    let moved = spaces(step) + line;
    assert(moved[0] == ' ');
    lemma_space_run(moved, 0, step as int);
    assert(moved.skip(step as int) =~= line);
}

/// Whether `p` is how `s` begins.
proof fn lemma_begins(p: Seq<char>, q: Seq<char>)
    ensures
        crate::strs::starts_with(p + q, p),
{
    assert((p + q).subrange(0, p.len() as int) =~= p);
}

/// A new line keeps the indent of the line it is opened from: whatever it
/// begins with begins with that line's leading whitespace - in a fence, and
/// in prose that is not quoted, a list item continued (bulleted, a task or
/// numbered) as much as any other line; a quoted line's new line begins with
/// its quote markers.
pub proof fn law_a_new_line_keeps_the_indent(lines: Seq<Seq<char>>, at: int, col: int)
    requires
        0 <= at < lines.len(),
    ensures
        opened_of(lines, at, col) matches OpenedView::With(s) ==> {
            &&& (in_code_of(lines, at) || quote_bar_of(lines[at]).len() == 0) ==> crate::strs::starts_with(
                s,
                leading(lines[at]),
            )
            &&& (!in_code_of(lines, at) && quote_bar_of(lines[at]).len() > 0) ==> crate::strs::starts_with(
                s,
                quote_bar_of(lines[at]),
            )
        },
{
    let line = lines[at];
    let indent = leading(line);
    if in_code_of(lines, at) {
        let tail = if opens_block(trim_end(line)) {
            "    "@
        } else {
            seq![]
        };
        lemma_begins(indent, tail);
    } else {
        let bar = quote_bar_of(line);
        if bar.len() > 0 {
            let inner = body_opened(line.skip(bar.len() as int), if col >= bar.len() {
                col - bar.len()
            } else {
                0
            });
            match inner {
                OpenedView::With(p) => lemma_begins(bar, p),
                _ => lemma_begins(bar, seq![]),
            }
            assert(bar + seq![] =~= bar);
        } else {
            lemma_begins(indent, seq![]);
            assert(indent + seq![] =~= indent);
            match item_marker_of(line) {
                Some(m) => {
                    let body = trim_start(line);
                    let bullet = if body.len() > 0 {
                        body[0]
                    } else {
                        '-'
                    };
                    lemma_begins(indent, seq![bullet, ' ']);
                    lemma_begins(indent, seq![bullet] + " [ ] "@);
                    match m.0 {
                        Marker::Number(n) => lemma_begins(
                            indent,
                            decimal((n + 1) as nat) + seq![dot_of(body, 0), ' '],
                        ),
                        _ => {},
                    }
                },
                None => {},
            }
        }
    }
}

/// A numbered item continued is numbered one more, after the same indent:
/// what follows the indent is figures that read as the next number, then
/// the item's own `.` or `)` and a space.
pub proof fn law_a_numbered_item_counts_on(line: Seq<char>, col: int)
    ensures
        item_marker_of(line) matches Some((Marker::Number(n), _)) ==> (body_opened(line, col) matches OpenedView::With(
            s,
        ) ==> exists|d: Seq<char>|
            {
                &&& s == leading(line) + d + seq![dot_of(trim_start(line), 0), ' ']
                &&& crate::strs::all_digits(d)
                &&& crate::strs::value(d) == n + 1
            }),
{
    if let Some((Marker::Number(n), _)) = item_marker_of(line) {
        if let OpenedView::With(s) = body_opened(line, col) {
            let d = decimal((n + 1) as nat);
            crate::strs::lemma_decimal_reads_back((n + 1) as nat);
            let body = trim_start(line);
            assert(s == leading(line) + (d + seq![dot_of(body, 0), ' ']));
            assert(s =~= leading(line) + d + seq![dot_of(body, 0), ' ']);
        }
    }
}

} // verus!
