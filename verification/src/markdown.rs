//! The pieces of markdown's grammar that the editor acts on as you type: the
//! marker that makes a line a list item.
use vstd::prelude::*;

use crate::strs::{is_digit, lead, lead_len, value};

verus! {

/// What kind of list item a line is.
#[derive(Clone, Copy, PartialEq, Eq, Debug)]
pub enum Marker {
    /// `-`, `*` or `+`.
    Bullet,
    /// A bullet with a box after it, ticked or not.
    Task(bool),
    /// A number and `.` or `)`.
    Number(u64),
}

/// Whether position `k` of `s` is its end or a space: what has to follow a
/// marker.
pub open spec fn gap_at(s: Seq<char>, k: int) -> bool {
    k == s.len() || (0 <= k < s.len() && s[k] == ' ')
}

/// How long that gap is: one space, or nothing at the end of the line.
pub open spec fn gap_len(s: Seq<char>, k: int) -> int {
    if k < s.len() {
        1
    } else {
        0
    }
}

/// How many decimal digits stand in a row from `i`.
pub open spec fn digit_run(s: Seq<char>, i: int) -> nat
    decreases s.len() - i,
{
    if 0 <= i < s.len() && is_digit(s[i]) {
        1 + digit_run(s, i + 1)
    } else {
        0
    }
}

/// A bullet character.
pub open spec fn is_bullet(c: char) -> bool {
    c == '-' || c == '*' || c == '+'
}

/// The list marker a line begins with, after its indent, and how many
/// characters of the line it takes up with the space after it.
///
/// A bullet, then a space or the end of the line; a bullet, a space and a box
/// `[ ]`, `[x]` or `[X]`, then a space or the end; or one to nine digits, `.`
/// or `)`, then a space or the end.
pub open spec fn item_marker_of(line: Seq<char>) -> Option<(Marker, int)> {
    let i = lead(line) as int;
    let s = line;
    if i < s.len() && is_bullet(s[i]) && gap_at(s, i + 1) {
        let j = i + 1 + gap_len(s, i + 1);
        if j > i + 1 && j + 3 <= s.len() && s[j] == '[' && (s[j + 1] == ' ' || s[j + 1] == 'x'
            || s[j + 1] == 'X') && s[j + 2] == ']' && gap_at(s, j + 3) {
            Some((Marker::Task(s[j + 1] != ' '), j + 3 + gap_len(s, j + 3)))
        } else {
            Some((Marker::Bullet, j))
        }
    } else {
        let d = digit_run(s, i) as int;
        if 1 <= d <= 9 && i + d < s.len() && (s[i + d] == '.' || s[i + d] == ')') && gap_at(
            s,
            i + d + 1,
        ) {
            Some(
                (
                    Marker::Number(value(s.subrange(i, i + d)) as u64),
                    i + d + 1 + gap_len(s, i + d + 1),
                ),
            )
        } else {
            None
        }
    }
}

proof fn lemma_digit_run(s: Seq<char>, i: int, j: int)
    requires
        0 <= i <= j <= s.len(),
        forall|k: int| i <= k < j ==> is_digit(#[trigger] s[k]),
    ensures
        digit_run(s, i) == (j - i) + digit_run(s, j),
    decreases j - i,
{
    if i < j {
        lemma_digit_run(s, i + 1, j);
    }
}

/// Whether position `k` is the end of the line or a space.
fn gap(s: &[char], k: usize) -> (r: bool)
    ensures
        r == gap_at(s@, k as int),
{
    k == s.len() || (k < s.len() && s[k] == ' ')
}

/// The list marker a line begins with, and how many characters it takes up.
pub fn item_marker(line: &[char]) -> (r: Option<(Marker, usize)>)
    ensures
        r matches Some(p) ==> item_marker_of(line@) == Some((p.0, p.1 as int)),
        r is None ==> item_marker_of(line@) is None,
        r matches Some(p) ==> p.1 <= line@.len(),
        r matches Some((Marker::Number(n), _)) ==> n < 1_000_000_000,
{
    let s = line;
    let n = s.len();
    let i = lead_len(s);
    if i < n && (s[i] == '-' || s[i] == '*' || s[i] == '+') && gap(s, i + 1) {
        let j = if i + 1 < n {
            i + 2
        } else {
            i + 1
        };
        if j > i + 1 && n - j >= 3 && s[j] == '[' && (s[j + 1] == ' ' || s[j + 1] == 'x' || s[j
            + 1] == 'X') && s[j + 2] == ']' && gap(s, j + 3) {
            let end = if j + 3 < n {
                j + 4
            } else {
                j + 3
            };
            return Some((Marker::Task(s[j + 1] != ' '), end));
        }
        return Some((Marker::Bullet, j));
    }
    let mut k = i;
    while k < n && '0' <= s[k] && s[k] <= '9'
        invariant
            i <= k <= n,
            n == s@.len(),
            i == lead(s@),
            forall|m: int| i <= m < k ==> is_digit(#[trigger] s@[m]),
        decreases n - k,
    {
        k = k + 1;
    }
    proof {
        lemma_digit_run(s@, i as int, k as int);
    }
    let d = k - i;
    if 1 <= d && d <= 9 && k < n && (s[k] == '.' || s[k] == ')') && gap(s, k + 1) {
        let mut v: u64 = 0;
        let mut m = i;
        while m < k
            invariant
                i <= m <= k,
                k - i <= 9,
                k < n,
                n == s@.len(),
                forall|q: int| i <= q < k ==> is_digit(#[trigger] s@[q]),
                v == value(s@.subrange(i as int, m as int)),
                v < pow10(m - i),
            decreases k - m,
        {
            proof {
                lemma_pow10_mono(m + 1 - i, 9);
                lemma_pow10_nine();
            }
            assert(s@.subrange(i as int, m + 1).drop_last() =~= s@.subrange(i as int, m as int));
            assert(is_digit(s@[m as int]));
            let dv: u64 = ((s[m] as u32) - 48) as u64;
            assert(v * 10 + dv < pow10(m + 1 - i)) by (nonlinear_arith)
                requires
                    v < pow10(m - i),
                    pow10(m + 1 - i) == pow10(m - i) * 10,
                    dv < 10,
            ;
            v = v * 10 + dv;
            m = m + 1;
        }
        proof {
            lemma_pow10_mono(k - i, 9);
            lemma_pow10_nine();
        }
        let end = if k + 1 < n {
            k + 2
        } else {
            k + 1
        };
        return Some((Marker::Number(v), end));
    }
    None
}

proof fn lemma_pow10_mono(a: int, b: int)
    requires
        a <= b,
    ensures
        pow10(a) <= pow10(b),
    decreases b - a,
{
    if a < b {
        lemma_pow10_mono(a, b - 1);
    }
}

proof fn lemma_pow10_nine()
    ensures
        pow10(9) == 1_000_000_000,
{
    reveal_with_fuel(pow10, 10);
}

/// Ten to the `e`.
pub open spec fn pow10(e: int) -> nat
    decreases e,
{
    if e <= 0 {
        1
    } else {
        10 * pow10(e - 1)
    }
}

} // verus!
