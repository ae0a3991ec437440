//! Jump to a note by typing a few of its letters.
//!
//! A box, every note that answers it, ranked. The matching is a subsequence
//! rather than a substring - `mdsh` finds `markdown-showcase.md` - and the
//! score decides which of the names that answer are the ones somebody meant.
use vstd::prelude::*;

use crate::chat::panel::wrapped;
use crate::strs::{
    alnum_of, alphanumeric, char_lower_of, chars_of, lemma_rfind, lower_char, rfind, rfind_in,
    slice, trim, trimmed,
};

verus! {

broadcast use vstd::seq_lib::group_to_multiset_ensures;

/// What the finder wants the application to do about it.
#[derive(PartialEq, Eq, Structural, Debug)]
pub enum Found {
    /// Still open, still deciding.
    Nothing,
    /// Open this note.
    Open(usize),
    /// Take it away and leave things as they were.
    Close,
}

/// A note, as far as the finder is concerned.
pub struct Candidate {
    pub title: String,
    pub file: String,
}

impl View for Candidate {
    type V = (Seq<char>, Seq<char>);

    open spec fn view(&self) -> (Seq<char>, Seq<char>) {
        (self.title@, self.file@)
    }
}

/// Each candidate's two names.
pub open spec fn candidate_views(v: Seq<Candidate>) -> Seq<(Seq<char>, Seq<char>)> {
    v.map_values(|c: Candidate| c@)
}

/// Which of a note's two names answered.
#[derive(Clone, Copy, PartialEq, Eq, Debug)]
pub enum On {
    Title,
    File,
}

/// One note that answered the query.
pub struct Hit {
    /// Which note it is, in the order they were handed over.
    pub note: usize,
    /// How well it answered, for the ranking.
    pub score: i32,
    /// The name that answered, and which characters of it did.
    pub on: On,
    pub at: Vec<usize>,
}

/// Positions as integers.
pub open spec fn ints(s: Seq<usize>) -> Seq<int> {
    s.map_values(|i: usize| i as int)
}

impl View for Hit {
    type V = (int, int, On, Seq<int>);

    open spec fn view(&self) -> (int, int, On, Seq<int>) {
        (self.note as int, self.score as int, self.on, ints(self.at@))
    }
}

/// Each hit as its note, score, name and positions.
pub open spec fn hit_views(v: Seq<Hit>) -> Seq<(int, int, On, Seq<int>)> {
    v.map_values(|h: Hit| h@)
}

/// The finder's state: the query, the selected row, whether it opened this
/// frame, and the first row on screen.
pub struct Finder {
    pub query: String,
    pub selected: usize,
    /// True on the frame it opens, so the keystroke that opened it does not
    /// also act on it.
    fresh: bool,
    /// First row on screen, when the hits outrun the list.
    scroll: usize,
}

impl View for Finder {
    type V = (Seq<char>, int, bool, int);

    closed spec fn view(&self) -> (Seq<char>, int, bool, int) {
        (self.query@, self.selected as int, self.fresh, self.scroll as int)
    }
}

/// How many hits the panel shows at once.
pub const ROWS: usize = 12;

impl Finder {
    /// A finder with nothing typed, on the first row, opening this frame.
    pub fn new() -> (r: Self)
        ensures
            r@ == (Seq::<char>::empty(), 0int, true, 0int),
    {
        Finder { query: String::new(), selected: 0, fresh: true, scroll: 0 }
    }

    /// Move the selection by `by` among `count` hits, round from either end;
    /// nothing, when there are none.
    pub fn step(&mut self, by: i32, count: usize)
        requires
            count <= i32::MAX,
            old(self)@.1 <= i32::MAX,
            old(self)@.1 + by <= i32::MAX,
        ensures
            count == 0 ==> final(self)@ == old(self)@,
            count > 0 ==> final(self)@.1 == (old(self)@.1 + by) % (count as int),
            final(self)@.0 == old(self)@.0,
            final(self)@.2 == old(self)@.2,
            final(self)@.3 == old(self)@.3,
    {
        if count == 0 {
            return;
        }
        self.selected = wrapped(self.selected, by, count);
    }
}

impl Default for Finder {
    fn default() -> (r: Self)
        ensures
            r@ == (Seq::<char>::empty(), 0int, true, 0int),
    {
        Self::new()
    }
}

// ------------------------------------------------------------- the score

/// Whether a character of a name answers one character of the query: its
/// lowercase begins with it.
pub open spec fn answers(c: char, want: char) -> bool {
    char_lower_of(c).len() > 0 && char_lower_of(c)[0] == want
}

/// The first character from `from` on that answers `want`.
pub open spec fn answer_from(hay: Seq<char>, want: char, from: int) -> Option<int>
    decreases hay.len() - from,
{
    if from < 0 || from >= hay.len() {
        None
    } else if answers(hay[from], want) {
        Some(from)
    } else {
        answer_from(hay, want, from + 1)
    }
}

/// A query in lowercase, one character's lowercase after another.
pub open spec fn lowered(s: Seq<char>) -> Seq<char>
    decreases s.len(),
{
    if s.len() == 0 {
        seq![]
    } else {
        lowered(s.drop_last()) + char_lower_of(s.last())
    }
}

/// What a character found at `f` adds to the score, after those at `at`:
/// one for answering, eight more for following the last one directly, four
/// more for starting a word.
pub open spec fn worth(hay: Seq<char>, at: Seq<int>, f: int) -> int {
    1 + (if at.len() > 0 && at.last() == f - 1 {
        8int
    } else {
        0int
    }) + (if f == 0 || !alnum_of(hay[f - 1]) {
        4int
    } else {
        0int
    })
}

/// Where the search for the next character starts.
pub open spec fn walk_from(at: Seq<int>) -> int {
    if at.len() == 0 {
        0
    } else {
        at.last() + 1
    }
}

/// The score and the positions after the first `k` characters of the query,
/// each found in order: nothing, once one is not.
pub open spec fn fuzzy_walk(hay: Seq<char>, want: Seq<char>, k: int) -> Option<(int, Seq<int>)>
    decreases k,
{
    if k <= 0 {
        Some((0, seq![]))
    } else {
        match fuzzy_walk(hay, want, k - 1) {
            None => None,
            Some(p) => match answer_from(hay, want[k - 1], walk_from(p.1)) {
                None => None,
                Some(f) => Some((p.0 + worth(hay, p.1, f), p.1.push(f))),
            },
        }
    }
}

/// The smaller of two numbers.
pub open spec fn least(a: int, b: int) -> int {
    if a <= b {
        a
    } else {
        b
    }
}

/// How well `text` answers `needle`, and which of its characters did: every
/// character of the query in order, a short name and an early start scoring
/// higher.
pub open spec fn fuzzy_of(text: Seq<char>, needle: Seq<char>) -> Option<(int, Seq<int>)> {
    let want = lowered(needle);
    match fuzzy_walk(text, want, want.len() as int) {
        None => None,
        Some(p) => Some(
            (
                p.0 + 10 - least(text.len() as int / 4, 9) - least(
                    (if p.1.len() > 0 {
                        p.1[0]
                    } else {
                        0
                    }) / 4,
                    6,
                ),
                p.1,
            ),
        ),
    }
}

proof fn lemma_walk_stays_none(hay: Seq<char>, want: Seq<char>, k: int, m: int)
    requires
        fuzzy_walk(hay, want, k) is None,
        k <= m,
    ensures
        fuzzy_walk(hay, want, m) is None,
    decreases m - k,
{
    if k < m {
        lemma_walk_stays_none(hay, want, k, m - 1);
    }
}

proof fn lemma_answer_from(hay: Seq<char>, want: char, from: int)
    ensures
        answer_from(hay, want, from) matches Some(f) ==> from <= f < hay.len() && answers(hay[f], want),
    decreases hay.len() - from,
{
    if 0 <= from < hay.len() && !answers(hay[from], want) {
        lemma_answer_from(hay, want, from + 1);
    }
}

/// The query in lowercase.
fn lowered_chars(s: &[char]) -> (r: Vec<char>)
    ensures
        r@ == lowered(s@),
{
    let mut out: Vec<char> = Vec::new();
    let mut i: usize = 0;
    while i < s.len()
        invariant
            i <= s@.len(),
            out@ == lowered(s@.take(i as int)),
        decreases s.len() - i,
    {
        assert(s@.take(i + 1).drop_last() =~= s@.take(i as int));
        let l = lower_char(s[i]);
        let mut j: usize = 0;
        let ghost start = out@;
        while j < l.len()
            invariant
                j <= l@.len(),
                out@ == start + l@.take(j as int),
            decreases l.len() - j,
        {
            out.push(l[j]);
            assert(l@.take(j + 1) =~= l@.take(j as int).push(l@[j as int]));
            j = j + 1;
        }
        assert(l@.take(l@.len() as int) =~= l@);
        i = i + 1;
    }
    assert(s@.take(s@.len() as int) =~= s@);
    out
}

/// The first character from `from` on that answers `want`.
fn first_answer(hay: &[char], want: char, from: usize) -> (r: Option<usize>)
    ensures
        r matches Some(f) ==> answer_from(hay@, want, from as int) == Some(f as int),
        r is None ==> answer_from(hay@, want, from as int) is None,
{
    let mut i = from;
    while i < hay.len()
        invariant
            from <= i,
            answer_from(hay@, want, from as int) == answer_from(hay@, want, i as int),
        decreases hay.len() - i,
    {
        let l = lower_char(hay[i]);
        if l.len() > 0 && l[0] == want {
            return Some(i);
        }
        i = i + 1;
    }
    None
}

/// How well `hay` answers `needle`, and which of its characters did.
fn fuzzy_chars(hay: &[char], needle: &[char]) -> (r: Option<(i32, Vec<usize>)>)
    requires
        hay@.len() <= 100_000_000,
    ensures
        r matches Some(p) ==> fuzzy_of(hay@, needle@) == Some((p.0 as int, ints(p.1@))),
        r is None ==> fuzzy_of(hay@, needle@) is None,
        r matches Some(p) ==> -10 <= p.0,
{
    let want = lowered_chars(needle);
    let mut score: i32 = 0;
    let mut at: Vec<usize> = Vec::new();
    let mut from: usize = 0;
    let mut k: usize = 0;
    while k < want.len()
        invariant
            k <= want@.len(),
            want@ == lowered(needle@),
            hay@.len() <= 100_000_000,
            fuzzy_walk(hay@, want@, k as int) == Some((score as int, ints(at@))),
            from == walk_from(ints(at@)),
            at@.len() <= from <= hay@.len(),
            0 <= score <= 13 * at@.len(),
            forall|i: int| 0 <= i < at@.len() ==> #[trigger] at@[i] < hay@.len(),
        decreases want.len() - k,
    {
        let found = match first_answer(hay, want[k], from) {
            Some(f) => f,
            None => {
                proof {
                    lemma_walk_stays_none(hay@, want@, k + 1, want@.len() as int);
                }
                return None;
            },
        };
        proof {
            lemma_answer_from(hay@, want@[k as int], from as int);
        }
        let ghost before = ints(at@);
        let mut gain: i32 = 1;
        let n = at.len();
        if n > 0 && at[n - 1] + 1 == found {
            gain = gain + 8;
        }
        if found == 0 || !alphanumeric(hay[found - 1]) {
            gain = gain + 4;
        }
        assert(gain == worth(hay@, before, found as int));
        score = score + gain;
        at.push(found);
        assert(ints(at@) =~= before.push(found as int));
        from = found + 1;
        k = k + 1;
    }
    let len = hay.len();
    let tail: usize = if len / 4 < 9 {
        len / 4
    } else {
        9
    };
    let first: usize = if at.len() > 0 {
        at[0]
    } else {
        0
    };
    let head: usize = if first / 4 < 6 {
        first / 4
    } else {
        6
    };
    score = score + 10 - tail as i32 - head as i32;
    Some((score, at))
}

/// Score `text` against `needle`, and say which characters answered.
///
/// A subsequence match: every character of the needle, in lowercase, appears
/// in order, not necessarily together. A run of characters together is worth
/// far more than the same characters scattered, a match at the start of a word
/// more than one in the middle of one, and a short name and an early match
/// more than a long name and a late one. Nothing, when some character of the
/// needle is not there.
pub fn fuzzy(text: &str, needle: &str) -> (r: Option<(i32, Vec<usize>)>)
    requires
        text@.len() <= 100_000_000,
    ensures
        r matches Some(p) ==> fuzzy_of(text@, needle@) == Some((p.0 as int, ints(p.1@))),
        r is None ==> fuzzy_of(text@, needle@) is None,
{
    let hay = chars_of(text);
    let want = chars_of(needle);
    fuzzy_chars(&hay, &want)
}

// ----------------------------------------------------------- the ranking

/// A filename without its extension: up to its last dot, or all of it.
pub open spec fn stem_of(file: Seq<char>) -> Seq<char> {
    match rfind(file, seq!['.']) {
        Some(k) => file.take(k),
        None => file,
    }
}

/// The better of a match on the title and one on the filename, the filename
/// one point behind and the title taking a tie.
pub open spec fn better(t: Option<(int, Seq<int>)>, f: Option<(int, Seq<int>)>) -> Option<
    (int, On, Seq<int>),
> {
    match (t, f) {
        (Some(a), Some(b)) => if b.0 - 1 > a.0 {
            Some((b.0 - 1, On::File, b.1))
        } else {
            Some((a.0, On::Title, a.1))
        },
        (Some(a), None) => Some((a.0, On::Title, a.1)),
        (None, Some(b)) => Some((b.0 - 1, On::File, b.1)),
        (None, None) => None,
    }
}

/// How note `note` answers the (trimmed) query: every note answers an empty
/// one, on its title, with nothing lit.
pub open spec fn hit_of(note: int, title: Seq<char>, file: Seq<char>, needle: Seq<char>) -> Option<
    (int, int, On, Seq<int>),
> {
    if needle.len() == 0 {
        Some((note, 0, On::Title, seq![]))
    } else {
        match better(fuzzy_of(title, needle), fuzzy_of(stem_of(file), needle)) {
            Some(b) => Some((note, b.0, b.1, b.2)),
            None => None,
        }
    }
}

/// The hits among the first `n` notes, in the order they were handed over.
pub open spec fn hits_upto(notes: Seq<(Seq<char>, Seq<char>)>, needle: Seq<char>, n: int) -> Seq<
    (int, int, On, Seq<int>),
>
    decreases n,
{
    if n <= 0 {
        seq![]
    } else {
        hits_upto(notes, needle, n - 1) + match hit_of(n - 1, notes[n - 1].0, notes[n - 1].1, needle) {
            Some(h) => seq![h],
            None => seq![],
        }
    }
}

/// Whether hit `a` is offered no later than hit `b`: a higher score first,
/// and of two that score the same, the one handed over first.
pub open spec fn no_later(a: (int, int, On, Seq<int>), b: (int, int, On, Seq<int>)) -> bool {
    a.1 > b.1 || (a.1 == b.1 && a.0 <= b.0)
}

/// Names short enough to score without running out of numbers.
pub open spec fn scorable(notes: Seq<(Seq<char>, Seq<char>)>) -> bool {
    forall|i: int|
        0 <= i < notes.len() ==> (#[trigger] notes[i]).0.len() <= 100_000_000 && notes[i].1.len()
            <= 100_000_000
}

/// How a note answers the query.
fn hit_for(note: usize, cand: &Candidate, needle: &Vec<char>) -> (r: Option<Hit>)
    requires
        cand.title@.len() <= 100_000_000,
        cand.file@.len() <= 100_000_000,
    ensures
        r matches Some(h) ==> hit_of(note as int, cand.title@, cand.file@, needle@) == Some(h@)
            && h.note == note,
        r is None ==> hit_of(note as int, cand.title@, cand.file@, needle@) is None,
{
    if needle.len() == 0 {
        let h = Hit { note, score: 0, on: On::Title, at: Vec::new() };
        assert(ints(h.at@) =~= Seq::<int>::empty());
        return Some(h);
    }
    let title = chars_of(cand.title.as_str());
    let file = chars_of(cand.file.as_str());
    let dot = vec!['.'];
    let stem = match rfind_in(&file, &dot) {
        Some(k) => {
            proof {
                lemma_rfind(file@, dot@);
            }
            slice(&file, 0, k)
        },
        None => slice(&file, 0, file.len()),
    };
    assert(dot@ =~= seq!['.']);
    assert(stem@ =~= stem_of(file@));
    let on_title = fuzzy_chars(&title, needle);
    let on_file = fuzzy_chars(&stem, needle);
    match (on_title, on_file) {
        (Some(a), Some(b)) => {
            if b.0 - 1 > a.0 {
                Some(Hit { note, score: b.0 - 1, on: On::File, at: b.1 })
            } else {
                Some(Hit { note, score: a.0, on: On::Title, at: a.1 })
            }
        },
        (Some(a), None) => Some(Hit { note, score: a.0, on: On::Title, at: a.1 }),
        (None, Some(b)) => Some(Hit { note, score: b.0 - 1, on: On::File, at: b.1 }),
        (None, None) => None,
    }
}

/// The notes that answer `query`, best first.
///
/// An empty query is all of them, in the order they were handed over - the
/// panel opens onto the library rather than onto nothing. Otherwise each note
/// is scored on its title and on its filename without the extension, the
/// better of the two answering; and the hits come best first, two that score
/// the same in the order they were handed over.
pub fn search(notes: &[Candidate], query: &str) -> (r: Vec<Hit>)
    requires
        scorable(candidate_views(notes@)),
    ensures
        hit_views(r@).to_multiset() == hits_upto(
            candidate_views(notes@),
            trim(query@),
            notes@.len() as int,
        ).to_multiset(),
        forall|i: int, j: int| 0 <= i < j < r@.len() ==> no_later(#[trigger] r@[i]@, #[trigger] r@[j]@),
        trim(query@).len() == 0 ==> hit_views(r@) == hits_upto(
            candidate_views(notes@),
            trim(query@),
            notes@.len() as int,
        ),
{
    let ghost cv = candidate_views(notes@);
    let needle = trimmed(&chars_of(query));
    let mut hits: Vec<Hit> = Vec::new();
    let mut k: usize = 0;
    while k < notes.len()
        invariant
            k <= notes@.len(),
            cv == candidate_views(notes@),
            scorable(cv),
            needle@ == trim(query@),
            hit_views(hits@).to_multiset() == hits_upto(cv, needle@, k as int).to_multiset(),
            forall|i: int, j: int| 0 <= i < j < hits@.len() ==> no_later(#[trigger] hits@[i]@, #[trigger] hits@[j]@),
            forall|i: int| 0 <= i < hits@.len() ==> #[trigger] hits@[i].note < k,
            needle@.len() == 0 ==> hit_views(hits@) == hits_upto(cv, needle@, k as int),
            needle@.len() == 0 ==> forall|i: int| 0 <= i < hits@.len() ==> #[trigger] hits@[i].score == 0,
        decreases notes.len() - k,
    {
        assert(cv[k as int] == notes@[k as int]@);
        let ghost upto = hits_upto(cv, needle@, k as int);
        match hit_for(k, &notes[k], &needle) {
            Some(h) => {
                let mut p: usize = 0;
                while p < hits.len() && hits[p].score >= h.score
                    invariant
                        p <= hits@.len(),
                        forall|i: int| 0 <= i < p ==> #[trigger] hits@[i].score >= h.score,
                    decreases hits.len() - p,
                {
                    p = p + 1;
                }
                let ghost before = hits@;
                let ghost hv = h@;
                hits.insert(p, h);
                assert(hits@ =~= before.insert(p as int, hits@[p as int]));
                assert(hit_views(hits@) =~= hit_views(before).insert(p as int, hv));
                assert(hit_views(hits@).to_multiset() =~= hit_views(before).to_multiset().insert(hv));
                assert(hits_upto(cv, needle@, k + 1) =~= upto.push(hv));
                if needle.len() == 0 {
                    assert(p == before.len()) by {
                        if p < before.len() {
                            assert(before[p as int].score == 0);
                        }
                    }
                    assert(hit_views(hits@) =~= hit_views(before).push(hv));
                }
                assert forall|i: int, j: int| 0 <= i < j < hits@.len() implies no_later(
                    #[trigger] hits@[i]@,
                    #[trigger] hits@[j]@,
                ) by {
                    if j < p {
                        assert(hits@[i] == before[i] && hits@[j] == before[j]);
                    } else if j == p {
                        assert(hits@[i] == before[i]);
                    } else if i == p {
                        assert(hits@[j] == before[j - 1]);
                        assert(before[j - 1].score < hv.1) by {
                            if p < before.len() {
                                assert(no_later(before[p as int]@, before[j - 1]@) || p == j - 1);
                            }
                        }
                    } else if i < p {
                        assert(hits@[i] == before[i] && hits@[j] == before[j - 1]);
                    } else {
                        assert(hits@[i] == before[i - 1] && hits@[j] == before[j - 1]);
                    }
                }
            },
            None => {
                assert(hits_upto(cv, needle@, k + 1) =~= upto);
            },
        }
        k = k + 1;
    }
    hits
}


// ------------------------------------------------------------ a frame

/// A key pressed over the finder.
#[derive(Clone, Copy, PartialEq, Eq, Structural, Debug)]
pub enum FinderKey {
    Enter,
    Escape,
    Down,
    Up,
    Char(char),
    Other,
}

/// The finder's state as values: the query, the selected row, whether it
/// opened this frame, and the first row on screen.
pub type FinderView = (Seq<char>, int, bool, int);

/// The hits, as `search` gives them for this query: each note that answers,
/// once, best first, and in the order the notes were handed over among
/// equals.
pub open spec fn searched(h: Seq<(int, int, On, Seq<int>)>, notes: Seq<(Seq<char>, Seq<char>)>, query: Seq<char>) -> bool {
    &&& h.to_multiset() == hits_upto(notes, trim(query), notes.len() as int).to_multiset()
    &&& forall|i: int, j: int| 0 <= i < j < h.len() ==> no_later(#[trigger] h[i], #[trigger] h[j])
}

/// The selection moved one row down or up among `count`, round from either
/// end; nowhere, among none.
pub open spec fn moved_of(f: FinderView, down: bool, count: int) -> FinderView {
    if count <= 0 {
        f
    } else {
        (f.0, if down {
            (f.1 + 1) % count
        } else {
            (f.1 + count - 1) % count
        }, f.2, f.3)
    }
}

/// One key: Escape leaves; Enter opens the selected hit, when there is
/// one; Down and Up, and control with `n` and `p`, walk the hits.
pub open spec fn finder_key_of(f: FinderView, key: FinderKey, ctrl: bool, hits: Seq<(int, int, On, Seq<int>)>) -> (FinderView, Option<Found>) {
    let count = hits.len() as int;
    if key == FinderKey::Escape {
        (f, Some(Found::Close))
    } else if key == FinderKey::Enter && count > 0 {
        (f, Some(Found::Open(hits[f.1].0 as usize)))
    } else if key == FinderKey::Down || (ctrl && key == FinderKey::Char('n')) {
        (moved_of(f, true, count), None)
    } else if key == FinderKey::Up || (ctrl && key == FinderKey::Char('p')) {
        (moved_of(f, false, count), None)
    } else {
        (f, None)
    }
}

/// The first `n` keys, in order, and the last thing they decided.
pub open spec fn finder_keys_of(f: FinderView, keys: Seq<FinderKey>, n: int, ctrl: bool, hits: Seq<(int, int, On, Seq<int>)>) -> (FinderView, Found)
    decreases n,
{
    if n <= 0 {
        (f, Found::Nothing)
    } else {
        let (g, found) = finder_keys_of(f, keys, n - 1, ctrl, hits);
        let (g2, now) = finder_key_of(g, keys[n - 1], ctrl, hits);
        (g2, match now {
            Some(x) => x,
            None => found,
        })
    }
}

/// The first row on screen, moved just enough to keep the selection in
/// view.
pub open spec fn scrolled_of(f: FinderView) -> FinderView {
    if f.1 < f.3 {
        (f.0, f.1, f.2, f.1)
    } else if f.1 >= f.3 + ROWS {
        (f.0, f.1, f.2, f.1 + 1 - ROWS)
    } else {
        f
    }
}

/// A frame of the finder over these hits. The selection is first kept on
/// the list; the keys are not acted on the frame it opens; after that they
/// are taken in order, and Escape or Enter on a hit ends the frame. Else
/// the query as typed this frame is taken - a new query is a new list, so
/// the selection goes back to the top - the selection is kept in view, and
/// the hit on the row clicked, counted from the first row on screen, is
/// opened, when there is one there.
pub open spec fn frame_of(f: FinderView, keys: Seq<FinderKey>, ctrl: bool, query: Seq<char>, clicked: Option<usize>, hits: Seq<(int, int, On, Seq<int>)>) -> (FinderView, Found) {
    let last = if hits.len() > 0 {
        hits.len() - 1
    } else {
        0
    };
    let f0 = (f.0, if f.1 < last {
        f.1
    } else {
        last
    }, f.2, f.3);
    let (f1, found) = if f0.2 {
        ((f0.0, f0.1, false, f0.3), Found::Nothing)
    } else {
        finder_keys_of(f0, keys, keys.len() as int, ctrl, hits)
    };
    if !(found is Nothing) {
        (f1, found)
    } else {
        let f2 = if query != f1.0 {
            (query, 0int, f1.2, 0int)
        } else {
            f1
        };
        let f3 = scrolled_of(f2);
        (f3, match clicked {
            Some(row) => if row < ROWS && f3.3 + row < hits.len() {
                Found::Open(hits[f3.3 + row].0 as usize)
            } else {
                Found::Nothing
            },
            None => Found::Nothing,
        })
    }
}

proof fn lemma_hits_upto_len(notes: Seq<(Seq<char>, Seq<char>)>, needle: Seq<char>, n: int)
    requires
        0 <= n,
    ensures
        hits_upto(notes, needle, n).len() <= n,
    decreases n,
{
    if n > 0 {
        lemma_hits_upto_len(notes, needle, n - 1);
    }
}

impl Finder {
    /// One row down or up among `count`, round from either end.
    fn moved(&mut self, down: bool, count: usize)
        requires
            count > 0 ==> old(self)@.1 < count,
        ensures
            final(self)@ == moved_of(old(self)@, down, count as int),
            count > 0 ==> final(self)@.1 < count,
    {
        if count == 0 {
            return;
        }
        if down {
            self.selected = ((self.selected as u128 + 1) % (count as u128)) as usize;
        } else {
            self.selected = ((self.selected as u128 + count as u128 - 1) % (count as u128)) as usize;
        }
    }

    /// A frame: the keys pressed, in order, whether control was held, the
    /// query as it stands after this frame's typing, and the row clicked,
    /// counted from the first row on screen; and what the finder wants done. The hits are those `search`
    /// gives for the query as it stood before this frame.
    pub fn frame(&mut self, keys: &[FinderKey], ctrl: bool, query: String, clicked: Option<usize>, notes: &[Candidate]) -> (r: Found)
        requires
            scorable(candidate_views(notes@)),
        ensures
            exists|h: Seq<(int, int, On, Seq<int>)>|
                searched(h, candidate_views(notes@), old(self)@.0) && (final(self)@, r) == frame_of(
                    old(self)@,
                    keys@,
                    ctrl,
                    query@,
                    clicked,
                    h,
                ),
    {
        let ghost f = self@;
        let hits = search(notes, self.query.as_str());
        let ghost h = hit_views(hits@);
        assert(h.len() == hits@.len());
        let count = hits.len();
        let last = if count > 0 {
            count - 1
        } else {
            0
        };
        if self.selected > last {
            self.selected = last;
        }
        assert(searched(h, candidate_views(notes@), f.0));
        let ghost f0 = self@;
        assert(f0 == (f.0, if f.1 < last {
            f.1
        } else {
            last as int
        }, f.2, f.3));
        let mut found = Found::Nothing;
        if self.fresh {
            self.fresh = false;
        } else {
            let mut i: usize = 0;
            while i < keys.len()
                invariant
                    i <= keys@.len(),
                    count == hits@.len(),
                    h == hit_views(hits@),
                    count > 0 ==> self@.1 < count,
                    (self@, found) == finder_keys_of(f0, keys@, i as int, ctrl, h),
                decreases keys.len() - i,
            {
                let k = keys[i];
                if k == FinderKey::Escape {
                    found = Found::Close;
                } else if k == FinderKey::Enter && count > 0 {
                    assert(h[self@.1] == hits@[self.selected as int]@);
                    found = Found::Open(hits[self.selected].note);
                } else if k == FinderKey::Down || (ctrl && k == FinderKey::Char('n')) {
                    self.moved(true, count);
                } else if k == FinderKey::Up || (ctrl && k == FinderKey::Char('p')) {
                    self.moved(false, count);
                }
                i = i + 1;
            }
        }
        match found {
            Found::Nothing => {},
            _ => {
                assert((self@, found) == frame_of(f, keys@, ctrl, query@, clicked, h));
                return found;
            },
        }
        let ghost f1 = self@;
        let changed = !crate::strs::same(&chars_of(query.as_str()), &chars_of(self.query.as_str()));
        if changed {
            self.selected = 0;
            self.scroll = 0;
        }
        self.query = query;
        if self.selected < self.scroll {
            self.scroll = self.selected;
        } else if self.selected - self.scroll >= ROWS {
            self.scroll = self.selected - ROWS + 1;
        }
        let r = match clicked {
            Some(row) => if row < ROWS && row < count && self.scroll < count - row {
                assert(h[self.scroll + row] == hits@[self.scroll + row]@);
                Found::Open(hits[self.scroll + row].note)
            } else {
                Found::Nothing
            },
            None => Found::Nothing,
        };
        assert((self@, r) == frame_of(f, keys@, ctrl, query@, clicked, h));
        r
    }
}

proof fn lemma_hits_ids(notes: Seq<(Seq<char>, Seq<char>)>, needle: Seq<char>, n: int)
    requires
        0 <= n,
    ensures
        forall|i: int| 0 <= i < hits_upto(notes, needle, n).len() ==> 0 <= #[trigger] hits_upto(notes, needle, n)[i].0 < n,
        forall|i: int, j: int|
            0 <= i < j < hits_upto(notes, needle, n).len() ==> #[trigger] hits_upto(notes, needle, n)[i].0
                < #[trigger] hits_upto(notes, needle, n)[j].0,
    decreases n,
{
    if n > 0 {
        lemma_hits_ids(notes, needle, n - 1);
        let prev = hits_upto(notes, needle, n - 1);
        let hs = hits_upto(notes, needle, n);
        assert forall|i: int| 0 <= i < hs.len() implies 0 <= #[trigger] hs[i].0 < n by {
            if i < prev.len() {
                assert(hs[i] == prev[i]);
            }
        }
        assert forall|i: int, j: int| 0 <= i < j < hs.len() implies #[trigger] hs[i].0 < #[trigger] hs[j].0 by {
            assert(hs[i] == prev[i]);
            if j < prev.len() {
                assert(hs[j] == prev[j]);
            }
        }
    }
}

/// Hits in which no two are of the same note unless they are the same hit.
pub open spec fn one_per_note(h: Seq<(int, int, On, Seq<int>)>) -> bool {
    forall|x: (int, int, On, Seq<int>), y: (int, int, On, Seq<int>)|
        h.contains(x) && h.contains(y) && x.0 == y.0 ==> x == y
}

/// Ordered best first, in note order among equals.
pub open spec fn best_first(h: Seq<(int, int, On, Seq<int>)>) -> bool {
    forall|i: int, j: int| 0 <= i < j < h.len() ==> no_later(#[trigger] h[i], #[trigger] h[j])
}

proof fn lemma_sorted_unique(h1: Seq<(int, int, On, Seq<int>)>, h2: Seq<(int, int, On, Seq<int>)>)
    requires
        h1.to_multiset() == h2.to_multiset(),
        best_first(h1),
        best_first(h2),
        one_per_note(h1),
    ensures
        h1 == h2,
    decreases h1.len(),
{
    assert(h1.to_multiset().len() == h1.len());
    assert(h2.to_multiset().len() == h2.len());
    if h1.len() == 0 {
        assert(h2.len() == 0);
        assert(h1 =~= h2);
    } else {
        assert(h1.contains(h1[0]));
        assert(h2.to_multiset().count(h1[0]) > 0);
        assert(h2.contains(h1[0]));
        let j = choose|j: int| 0 <= j < h2.len() && h2[j] == h1[0];
        assert(h2.contains(h2[0]));
        assert(h1.to_multiset().count(h2[0]) > 0);
        assert(h1.contains(h2[0]));
        let i = choose|i: int| 0 <= i < h1.len() && h1[i] == h2[0];
        if i > 0 {
            assert(no_later(h1[0], h1[i]));
        }
        if j > 0 {
            assert(no_later(h2[0], h2[j]));
        }
        assert(h1[0].0 == h2[0].0);
        assert(h1[0] == h2[0]);
        let r1 = h1.remove(0);
        let r2 = h2.remove(0);
        assert(r1.to_multiset() == r2.to_multiset());
        assert forall|a: int, b: int| 0 <= a < b < r1.len() implies no_later(#[trigger] r1[a], #[trigger] r1[b]) by {
            assert(r1[a] == h1[a + 1] && r1[b] == h1[b + 1]);
        }
        assert forall|a: int, b: int| 0 <= a < b < r2.len() implies no_later(#[trigger] r2[a], #[trigger] r2[b]) by {
            assert(r2[a] == h2[a + 1] && r2[b] == h2[b + 1]);
        }
        assert forall|x: (int, int, On, Seq<int>), y: (int, int, On, Seq<int>)|
            r1.contains(x) && r1.contains(y) && x.0 == y.0 implies x == y by {
            let a = choose|a: int| 0 <= a < r1.len() && r1[a] == x;
            let b = choose|b: int| 0 <= b < r1.len() && r1[b] == y;
            assert(h1[a + 1] == x && h1[b + 1] == y);
            assert(h1.contains(x) && h1.contains(y));
        }
        lemma_sorted_unique(r1, r2);
        assert(h1 =~= seq![h1[0]] + r1);
        assert(h2 =~= seq![h2[0]] + r2);
    }
}

/// What a search gives is determined: the hits are each note that answers
/// the query, once, best first, and in the order the notes were handed over
/// among equals - and there is only one list that is all of that.
pub proof fn law_search_is_determined(
    notes: Seq<(Seq<char>, Seq<char>)>,
    query: Seq<char>,
    h1: Seq<(int, int, On, Seq<int>)>,
    h2: Seq<(int, int, On, Seq<int>)>,
)
    requires
        searched(h1, notes, query),
        searched(h2, notes, query),
    ensures
        h1 == h2,
{
    let hs = hits_upto(notes, trim(query), notes.len() as int);
    lemma_hits_ids(notes, trim(query), notes.len() as int);
    assert forall|x: (int, int, On, Seq<int>), y: (int, int, On, Seq<int>)|
        h1.contains(x) && h1.contains(y) && x.0 == y.0 implies x == y by {
        assert(h1.to_multiset().count(x) > 0 && h1.to_multiset().count(y) > 0);
        assert(hs.contains(x) && hs.contains(y));
        let a = choose|a: int| 0 <= a < hs.len() && hs[a] == x;
        let b = choose|b: int| 0 <= b < hs.len() && hs[b] == y;
        if a < b {
            assert(hs[a].0 < hs[b].0);
        } else if b < a {
            assert(hs[b].0 < hs[a].0);
        }
    }
    lemma_sorted_unique(h1, h2);
}
/// Positions `lit` in `hay` spell the first `lit.len()` characters of
/// `want`, one each, left to right.
pub open spec fn spells(hay: Seq<char>, want: Seq<char>, lit: Seq<int>) -> bool {
    &&& lit.len() <= want.len()
    &&& forall|i: int, j: int| 0 <= i < j < lit.len() ==> lit[i] < lit[j]
    &&& forall|k: int|
        0 <= k < lit.len() ==> 0 <= #[trigger] lit[k] < hay.len() && answers(hay[lit[k]], want[k])
}

proof fn lemma_walk_spells(hay: Seq<char>, want: Seq<char>, k: int)
    requires
        0 <= k <= want.len(),
    ensures
        fuzzy_walk(hay, want, k) matches Some(p) ==> p.1.len() == k && spells(hay, want, p.1),
    decreases k,
{
    if k > 0 {
        lemma_walk_spells(hay, want, k - 1);
        if let Some(p) = fuzzy_walk(hay, want, k - 1) {
            lemma_answer_from(hay, want[k - 1], walk_from(p.1));
            if let Some(f) = answer_from(hay, want[k - 1], walk_from(p.1)) {
                let lit = p.1.push(f);
                assert forall|i: int, j: int| 0 <= i < j < lit.len() implies lit[i] < lit[j] by {
                    if j == lit.len() - 1 && i < j {
                        assert(p.1.len() > 0 ==> p.1[p.1.len() - 1] < f);
                        if i < p.1.len() - 1 {
                            assert(p.1[i] < p.1[p.1.len() - 1]);
                        }
                    }
                }
                assert forall|m: int| 0 <= m < lit.len() implies 0 <= #[trigger] lit[m] < hay.len()
                    && answers(hay[lit[m]], want[m]) by {
                    if m < p.1.len() {
                        assert(lit[m] == p.1[m]);
                    }
                }
            }
        }
    }
}

/// The letters the finder lights are those that answered the query: one
/// for each of its characters, in lowercase, left to right, each a
/// character of the text that lowercases to it.
pub proof fn law_the_lit_letters_spell_the_query(text: Seq<char>, needle: Seq<char>)
    ensures
        fuzzy_of(text, needle) matches Some(p) ==> p.1.len() == lowered(needle).len() && spells(
            text,
            lowered(needle),
            p.1,
        ),
{
    lemma_walk_spells(text, lowered(needle), lowered(needle).len() as int);
}

/// Keys walk the selection only among the hits.
proof fn lemma_keys_open_hits(f: FinderView, keys: Seq<FinderKey>, n: int, ctrl: bool, hits: Seq<(int, int, On, Seq<int>)>)
    requires
        0 <= n <= keys.len(),
        hits.len() > 0 ==> 0 <= f.1 < hits.len(),
        forall|k: int| 0 <= k < hits.len() ==> 0 <= #[trigger] hits[k].0 <= usize::MAX,
        f.1 >= 0,
    ensures
        hits.len() > 0 ==> 0 <= finder_keys_of(f, keys, n, ctrl, hits).0.1 < hits.len(),
        finder_keys_of(f, keys, n, ctrl, hits).0.1 >= 0,
        finder_keys_of(f, keys, n, ctrl, hits).0.3 == f.3,
        finder_keys_of(f, keys, n, ctrl, hits).1 matches Found::Open(i) ==> exists|k: int|
            0 <= k < hits.len() && #[trigger] hits[k].0 == i as int,
    decreases n,
{
    if n > 0 {
        lemma_keys_open_hits(f, keys, n - 1, ctrl, hits);
        let g = finder_keys_of(f, keys, n - 1, ctrl, hits).0;
        if hits.len() > 0 {
            assert(0 <= moved_of(g, true, hits.len() as int).1 < hits.len());
            assert(0 <= moved_of(g, false, hits.len() as int).1 < hits.len());
        }
    }
}

/// The finder opens only a note that answered the query: one of the hits
/// `search` gives for it, so one of the notes handed over.
pub proof fn law_only_a_hit_is_opened(
    f: FinderView,
    keys: Seq<FinderKey>,
    ctrl: bool,
    query: Seq<char>,
    clicked: Option<usize>,
    notes: Seq<(Seq<char>, Seq<char>)>,
    h: Seq<(int, int, On, Seq<int>)>,
)
    requires
        searched(h, notes, f.0),
        f.1 >= 0,
        f.3 >= 0,
        notes.len() <= usize::MAX,
    ensures
        frame_of(f, keys, ctrl, query, clicked, h).1 matches Found::Open(i) ==> i < notes.len() && exists|k: int|
            0 <= k < h.len() && #[trigger] h[k].0 == i as int,
{
    let hs = hits_upto(notes, trim(f.0), notes.len() as int);
    lemma_hits_ids(notes, trim(f.0), notes.len() as int);
    assert forall|k: int| 0 <= k < h.len() implies 0 <= #[trigger] h[k].0 < notes.len() by {
        assert(h.to_multiset().count(h[k]) > 0);
        assert(hs.contains(h[k]));
    }
    let last = if h.len() > 0 {
        h.len() - 1
    } else {
        0
    };
    let f0 = (f.0, if f.1 < last {
        f.1
    } else {
        last
    }, f.2, f.3);
    let (f1, found) = if f0.2 {
        ((f0.0, f0.1, false, f0.3), Found::Nothing)
    } else {
        finder_keys_of(f0, keys, keys.len() as int, ctrl, h)
    };
    if !f0.2 {
        lemma_keys_open_hits(f0, keys, keys.len() as int, ctrl, h);
    }
    if let Found::Open(i) = found {
        let k = choose|k: int| 0 <= k < h.len() && #[trigger] h[k].0 == i as int;
        assert(0 <= h[k].0 < notes.len());
        assert(i < notes.len());
        assert(frame_of(f, keys, ctrl, query, clicked, h).1 == found);
        assert(exists|k: int| 0 <= k < h.len() && #[trigger] h[k].0 == i as int);
    } else {
        if !f0.2 {
            assert(f1.3 == f.3 && f1.1 >= 0);
        }
        let f2 = if query != f1.0 {
            (query, 0int, f1.2, 0int)
        } else {
            f1
        };
        let f3 = scrolled_of(f2);
        if let Some(row) = clicked {
            if row < ROWS && f3.3 + row < h.len() {
                let k = f3.3 + row;
                assert(0 <= h[k].0 < notes.len());
                assert((h[k].0 as usize) as int == h[k].0);
            }
        }
    }
}

/// Where the first character answering the query is, in a walk's positions.
pub open spec fn first_lit(at: Seq<int>) -> int {
    if at.len() > 0 {
        at[0]
    } else {
        0
    }
}

/// Of two texts whose characters answer the query alike - the same score
/// for what answered - the one where the match starts no later, and that is
/// no longer, scores no lower: an early match beats a late one, and a short
/// name a long one. Strictly, when the later start is a whole step of four
/// further on and the earlier is not already past the sixth.
pub proof fn law_an_early_match_beats_a_late_one(t1: Seq<char>, t2: Seq<char>, needle: Seq<char>)
    requires
        t1.len() <= t2.len(),
        fuzzy_walk(t1, lowered(needle), lowered(needle).len() as int) matches Some(pa) && fuzzy_walk(
            t2,
            lowered(needle),
            lowered(needle).len() as int,
        ) matches Some(pb) && pa.0 == pb.0 && 0 <= first_lit(pa.1) <= first_lit(pb.1),
    ensures
        fuzzy_of(t1, needle) matches Some(sa) && fuzzy_of(t2, needle) matches Some(sb) && sa.0 >= sb.0 && {
            let w = lowered(needle);
            let f1 = first_lit((fuzzy_walk(t1, w, w.len() as int)->0).1);
            let f2 = first_lit((fuzzy_walk(t2, w, w.len() as int)->0).1);
            (t1.len() == t2.len() && f1 / 4 < f2 / 4 && f1 / 4 < 6) ==> sa.0 > sb.0
        },
{
    let w = lowered(needle);
    let pa = fuzzy_walk(t1, w, w.len() as int)->0;
    let pb = fuzzy_walk(t2, w, w.len() as int)->0;
    let f1 = first_lit(pa.1);
    let f2 = first_lit(pb.1);
    assert(f1 / 4 <= f2 / 4) by {
        vstd::arithmetic::div_mod::lemma_div_is_ordered(f1, f2, 4);
    }
    assert(t1.len() as int / 4 <= t2.len() as int / 4) by {
        vstd::arithmetic::div_mod::lemma_div_is_ordered(t1.len() as int, t2.len() as int, 4);
    }
}

} // verus!
