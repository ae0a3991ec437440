//! The editing assistant: ask for a change to a selection, read what came
//! back, and keep it or throw it away.
//!
//! Nothing is applied behind your back. The suggestion arrives as a diff with
//! two buttons, and the text is not touched until one of them is pressed.
use vstd::prelude::*;

use crate::diff::{is_empty, pieces_view, words, words_of, Change, Piece};
use crate::llm::{Ask, Reply};
use crate::strs::{
    chars_of, lines, lines_of, push_all, push_str, slice, split_at_each, split_on, string_of,
    trim, trimmed, upper, upper_of, uppercase,
};
use crate::text::Cursor;

verus! {

/// Where the conversation has got to.
pub enum Phase {
    /// Waiting for a request to be typed.
    Asking,
    /// Sent, and waiting.
    Thinking,
    /// An answer came back and is being looked at.
    Reviewing { proposal: String, pieces: Vec<Piece> },
    Failed(String),
}

/// Where the conversation has got to, as text.
pub enum PhaseView {
    Asking,
    Thinking,
    Reviewing(Seq<char>, Seq<(Change, Seq<char>)>),
    Failed(Seq<char>),
}

impl View for Phase {
    type V = PhaseView;

    open spec fn view(&self) -> PhaseView {
        match self {
            Phase::Asking => PhaseView::Asking,
            Phase::Thinking => PhaseView::Thinking,
            Phase::Reviewing { proposal, pieces } => PhaseView::Reviewing(
                proposal@,
                pieces_view(pieces@),
            ),
            Phase::Failed(why) => PhaseView::Failed(why@),
        }
    }
}

/// What the panel wants the application to do about it.
pub enum Outcome {
    Nothing,
    /// Put this question to the model.
    Ask(Ask),
    /// Replace the selection with this text.
    Apply(String),
    /// Take the panel away and leave the note alone.
    Close,
}

/// What the panel wants, as text: a question is its passage and request.
pub enum OutcomeView {
    Nothing,
    Ask(Seq<char>, Seq<char>),
    Apply(Seq<char>),
    Close,
}

/// A question about a passage and nothing else: no conversation, no note
/// around it, no tools.
pub open spec fn plain_ask(a: Ask) -> bool {
    &&& a.turns@.len() == 0
    &&& a.within is None
    &&& a.file@.len() == 0
    &&& a.vault@.len() == 0
    &&& a.tools@.len() == 0
    &&& a.since is None
    &&& !a.web_off
}

impl View for Outcome {
    type V = OutcomeView;

    open spec fn view(&self) -> OutcomeView {
        match self {
            Outcome::Nothing => OutcomeView::Nothing,
            Outcome::Ask(a) => OutcomeView::Ask(a.source@, a.request@),
            Outcome::Apply(t) => OutcomeView::Apply(t@),
            Outcome::Close => OutcomeView::Close,
        }
    }
}

/// Rows of the diff shown at most; one more says there is more.
pub const DIFF_ROWS: usize = 10;

/// How tall the row of buttons under the diff is, in pixels.
pub const CONTROLS: i32 = 15;

/// How many characters fit across this many pixels, and never fewer than
/// eight.
pub open spec fn cols_of(width: int, advance: int) -> int {
    if width >= 8 * advance {
        width / advance
    } else {
        8
    }
}

/// How tall the block is: a rule, the header, the body, the buttons, and a
/// pixel of air at each seam, the body being a line while nothing is under
/// review, and else the diff's rows, no more than one past those shown.
pub open spec fn height_of(phase: PhaseView, width: int, line_h: int, advance: int) -> int {
    let body = match phase {
        PhaseView::Reviewing(_, pieces) => {
            let n = rows_of(pieces, cols_of(width, advance)).len();
            (if n < DIFF_ROWS + 1 {
                n as int
            } else {
                DIFF_ROWS + 1
            }) * line_h
        },
        _ => line_h,
    };
    3 + line_h + 2 + body + 3 + CONTROLS + 3
}

/// How many characters fit across the block.
fn cols(width: i32, advance: i32) -> (r: usize)
    requires
        0 < advance <= 10_000,
    ensures
        r == cols_of(width as int, advance as int),
{
    if width >= 8 * advance {
        (width / advance) as usize
    } else {
        8
    }
}

/// The assistant open on a selection.
pub struct Assist {
    pub phase: Phase,
    /// The range this is about, frozen when the panel opened.
    pub from: Cursor,
    pub to: Cursor,
    /// The text as it was, which is one side of every diff drawn here.
    pub source: String,
    /// What is being typed.
    pub request: String,
    /// What was last sent, kept above the diff so the answer has a question.
    pub asked: String,
    /// True on the frame the block appears, so the field takes the keyboard.
    grab: bool,
}

/// The assistant's state, as text.
pub struct AssistView {
    pub phase: PhaseView,
    pub from: Cursor,
    pub to: Cursor,
    pub source: Seq<char>,
    pub request: Seq<char>,
    pub asked: Seq<char>,
    pub grab: bool,
}

impl View for Assist {
    type V = AssistView;

    closed spec fn view(&self) -> AssistView {
        AssistView {
            phase: self.phase@,
            from: self.from,
            to: self.to,
            source: self.source@,
            request: self.request@,
            asked: self.asked@,
            grab: self.grab,
        }
    }
}

/// The keys that matter this frame, read before the question field takes its
/// own: Escape, Enter to send what is typed, and Enter with the modifier to
/// keep a suggestion.
pub struct Pressed {
    pub escape: bool,
    pub submit: bool,
    pub keep: bool,
}

/// The buttons pressed this frame.
pub struct Clicked {
    pub ask: bool,
    pub apply: bool,
    pub reject: bool,
    pub cancel: bool,
}

/// What is said when the model hands the text back unchanged.
pub const NO_CHANGE: &'static str = "no change suggested - try a more specific instruction";

/// An answer as text.
pub open spec fn reply_view(r: Reply) -> Result<Seq<char>, Seq<char>> {
    match r {
        Ok(p) => Ok(p@),
        Err(w) => Err(w@),
    }
}

/// The state once an answer has come in.
pub open spec fn answered_of(a: AssistView, reply: Result<Seq<char>, Seq<char>>) -> AssistView {
    let phase = match reply {
        Ok(p) => if forall|i: int| 0 <= i < words_of(a.source, p).len() ==> #[trigger] words_of(a.source, p)[i].0 == Change::Same {
            PhaseView::Failed(NO_CHANGE@)
        } else {
            PhaseView::Reviewing(p, words_of(a.source, p))
        },
        Err(why) => PhaseView::Failed(why),
    };
    let back = phase is Failed && a.request.len() == 0;
    AssistView {
        phase,
        from: a.from,
        to: a.to,
        source: a.source,
        request: if back {
            a.asked
        } else {
            a.request
        },
        asked: if back {
            seq![]
        } else {
            a.asked
        },
        grab: a.grab,
    }
}

/// A suggestion that changes nothing is a failure: an answer of no more
/// than [`crate::diff::LIMIT`] words, as many as the passage has, holding
/// the passage's own words and line breaks however spaced, is said to be no
/// change, and anything else of that size is put up for review.
pub proof fn law_a_suggestion_that_changes_nothing_fails(a: AssistView, p: Seq<char>)
    requires
        crate::diff::tokens(a.source).len() <= crate::diff::LIMIT,
        crate::diff::tokens(p).len() <= crate::diff::LIMIT,
    ensures
        crate::diff::tokens(p) == crate::diff::tokens(a.source) <==> answered_of(a, Ok(p)).phase
            == PhaseView::Failed(NO_CHANGE@),
{
    crate::diff::law_nothing_changed_exactly_when_the_words_agree(a.source, p);
    if crate::diff::tokens(p) != crate::diff::tokens(a.source) {
        reveal_strlit("no change suggested - try a more specific instruction");
        assert(answered_of(a, Ok(p)).phase is Reviewing);
    }
}

/// The state once what is typed has been sent, and the passage and request
/// sent: a follow-up asks about the suggestion on screen.
pub open spec fn send_of(a: AssistView) -> (AssistView, (Seq<char>, Seq<char>)) {
    let source = match a.phase {
        PhaseView::Reviewing(p, _) => p,
        _ => a.source,
    };
    (
        AssistView {
            phase: PhaseView::Thinking,
            from: a.from,
            to: a.to,
            source: a.source,
            request: seq![],
            asked: a.request,
            grab: a.grab,
        },
        (source, a.request),
    )
}

/// What the keys and buttons of one frame do.
pub open spec fn decide_of(a: AssistView, k: Pressed, c: Clicked) -> (AssistView, OutcomeView) {
    if k.escape {
        (a, OutcomeView::Close)
    } else {
        let first = match a.phase {
            PhaseView::Reviewing(p, _) => (
                a,
                if c.reject {
                    OutcomeView::Close
                } else if c.apply || k.keep {
                    OutcomeView::Apply(p)
                } else {
                    OutcomeView::Nothing
                },
            ),
            PhaseView::Thinking => (
                a,
                if c.cancel {
                    OutcomeView::Close
                } else {
                    OutcomeView::Nothing
                },
            ),
            _ => if c.ask && trim(a.request).len() > 0 {
                let s = send_of(a);
                (s.0, OutcomeView::Ask(s.1.0, s.1.1))
            } else {
                (
                    a,
                    if c.cancel {
                        OutcomeView::Close
                    } else {
                        OutcomeView::Nothing
                    },
                )
            },
        };
        if k.submit && !(first.0.phase is Thinking) {
            let s = send_of(first.0);
            (s.0, OutcomeView::Ask(s.1.0, s.1.1))
        } else {
            first
        }
    }
}

/// Nothing is applied behind your back: a frame that applies text applies
/// the very suggestion that was on screen, and only when it was kept with the
/// modifier or APPLY was pressed - not when the panel was closed or rejected.
pub proof fn law_only_what_is_shown_is_applied(a: AssistView, k: Pressed, c: Clicked, t: Seq<char>)
    requires
        decide_of(a, k, c).1 == OutcomeView::Apply(t),
    ensures
        a.phase matches PhaseView::Reviewing(p, _) && p == t,
        c.apply || k.keep,
        !k.escape,
        !c.reject,
        decide_of(a, k, c).0 == a,
{
}

impl Assist {
    /// The assistant opened on a selection: asking, nothing typed, taking the
    /// keyboard.
    pub fn new(from: Cursor, to: Cursor, source: String) -> (r: Self)
        ensures
            r@ == (AssistView {
                phase: PhaseView::Asking,
                from,
                to,
                source: source@,
                request: seq![],
                asked: seq![],
                grab: true,
            }),
    {
        Assist {
            phase: Phase::Asking,
            from,
            to,
            source,
            request: String::new(),
            asked: String::new(),
            grab: true,
        }
    }

    /// The line the block opens under: the last one the selection covered.
    pub fn anchor(&self) -> (r: usize)
        ensures
            r == self@.to.line,
    {
        self.to.line
    }

    /// How tall the block needs to be at this width, for a font whose lines
    /// are `line_h` pixels tall and whose characters `advance` pixels wide.
    ///
    /// Measured from the same word layout the diff is drawn from, so the
    /// space reserved for it and the space it takes cannot disagree.
    pub fn height(&self, width: i32, line_h: i32, advance: i32) -> (r: i32)
        requires
            0 <= line_h <= 10_000,
            0 < advance <= 10_000,
        ensures
            r == height_of(self@.phase, width as int, line_h as int, advance as int),
    {
        let body: i32 = match &self.phase {
            Phase::Reviewing { pieces, .. } => {
                let laid = rows(pieces.as_slice(), cols(width, advance));
                let n: usize = if laid.len() < DIFF_ROWS + 1 {
                    laid.len()
                } else {
                    DIFF_ROWS + 1
                };
                assert(0 <= n * line_h <= 11 * 10_000) by (nonlinear_arith)
                    requires
                        n <= 11,
                        0 <= line_h <= 10_000,
                ;
                n as i32 * line_h
            },
            _ => line_h,
        };
        3 + line_h + 2 + body + 3 + CONTROLS + 3
    }

    /// Take an answer from the worker.
    ///
    /// An answer that changes nothing is a failure, since a small model hands
    /// the text back rather than admit it had no idea what to do; and a
    /// question that came to nothing goes back in the box when the box is
    /// empty, so it can be edited into a better one.
    pub fn answered(&mut self, reply: Reply)
        ensures
            final(self)@ == answered_of(old(self)@, reply_view(reply)),
    {
        let ghost rv = reply_view(reply);
        let phase = match reply {
            Ok(proposal) => {
                let pieces = words(self.source.as_str(), proposal.as_str());
                let ghost w = words_of(self.source@, proposal@);
                assert(forall|i: int| 0 <= i < pieces@.len() ==> #[trigger] w[i].0 == pieces@[i].change) by {
                    assert forall|i: int| 0 <= i < pieces@.len() implies #[trigger] w[i].0 == pieces@[i].change by {
                        assert(pieces_view(pieces@)[i] == pieces@[i]@);
                    }
                }
                assert(w.len() == pieces@.len());
                if is_empty(&pieces) {
                    let f = Phase::Failed(String::from_str(NO_CHANGE));
                    assert(f@ == answered_of(old(self)@, rv).phase);
                    f
                } else {
                    let ghost pv = proposal@;
                    let ghost k = choose|k: int| 0 <= k < pieces@.len() && pieces@[k].change != Change::Same;
                    assert(w[k].0 != Change::Same);
                    let r = Phase::Reviewing { proposal, pieces };
                    assert(r@ == PhaseView::Reviewing(pv, w));
                    assert(r@ == answered_of(old(self)@, rv).phase);
                    r
                }
            },
            Err(why) => Phase::Failed(why),
        };
        assert(phase@ == answered_of(old(self)@, rv).phase);
        self.phase = phase;
        let failed = match &self.phase {
            Phase::Failed(_) => true,
            _ => false,
        };
        if failed && self.request.as_str().is_empty() {
            let mut taken = String::new();
            std::mem::swap(&mut taken, &mut self.asked);
            self.request = taken;
        }
    }

    /// One line about where this has got to, for the status bar; `chord` is
    /// what the keyboard calls the key that keeps a suggestion.
    pub fn headline(&self, chord: &str) -> (r: String)
        ensures
            r@ == match self@.phase {
                PhaseView::Asking => "ASK FOR A CHANGE, ENTER TO SEND"@,
                PhaseView::Thinking => "WORKING ON IT"@,
                PhaseView::Reviewing(_, _) => "SUGGESTED - "@ + chord@ + " KEEPS IT"@,
                PhaseView::Failed(why) => upper_of(why),
            },
    {
        match &self.phase {
            Phase::Asking => String::from_str("ASK FOR A CHANGE, ENTER TO SEND"),
            Phase::Thinking => String::from_str("WORKING ON IT"),
            Phase::Reviewing { .. } => {
                let mut out = chars_of("SUGGESTED - ");
                push_str(&mut out, chord);
                push_str(&mut out, " KEEPS IT");
                string_of(&out)
            },
            Phase::Failed(why) => uppercase(why.as_str()),
        }
    }

    /// Whether the model is working on this one.
    pub fn waiting(&self) -> (r: bool)
        ensures
            r == self@.phase is Thinking,
    {
        match self.phase {
            Phase::Thinking => true,
            _ => false,
        }
    }

    /// Whether the question field should take the keyboard this frame: only
    /// on the frame the block appears.
    pub fn take_grab(&mut self) -> (r: bool)
        ensures
            r == old(self)@.grab,
            final(self)@ == (AssistView { grab: false, ..old(self)@ }),
    {
        let g = self.grab;
        self.grab = false;
        g
    }

    /// The keys of this frame, read before the question field: Enter sends
    /// when something is typed and the modifier is not held; with the
    /// modifier it keeps.
    pub fn pressed(&self, escape: bool, enter: bool, held: bool) -> (r: Pressed)
        ensures
            r.escape == escape,
            r.submit == (enter && !held && trim(self@.request).len() > 0),
            r.keep == (enter && held),
    {
        let typed = trimmed(&chars_of(self.request.as_str())).len() > 0;
        Pressed { escape, submit: enter && !held && typed, keep: enter && held }
    }

    /// Take what is typed and turn it into a question.
    ///
    /// A follow-up asks about the suggestion on screen rather than the
    /// original text - "now make it shorter" means shorter than what you are
    /// looking at.
    pub fn send(&mut self) -> (r: Ask)
        ensures
            (final(self)@, (r.source@, r.request@)) == send_of(old(self)@),
            plain_ask(r),
    {
        let source = match &self.phase {
            Phase::Reviewing { proposal, .. } => proposal.clone(),
            _ => self.source.clone(),
        };
        let mut taken = String::new();
        std::mem::swap(&mut taken, &mut self.request);
        self.asked = taken;
        self.phase = Phase::Thinking;
        Ask {
            source,
            request: self.asked.clone(),
            turns: Vec::new(),
            within: None,
            file: String::new(),
            vault: String::new(),
            tools: Vec::new(),
            since: None,
            web_off: false,
        }
    }

    /// What the keys and buttons of one frame do.
    ///
    /// Escape closes. While a suggestion is on screen, APPLY or Enter with
    /// the modifier keeps it and REJECT closes; while the model works, CANCEL
    /// closes; otherwise ASK sends what is typed and CANCEL closes. Enter
    /// sends whatever is typed in any phase but the one that is waiting.
    /// Nothing is applied but the suggestion on screen, and only when it is
    /// kept.
    pub fn decide(&mut self, keys: Pressed, clicked: Clicked) -> (r: Outcome)
        ensures
            (final(self)@, r@) == decide_of(old(self)@, keys, clicked),
            r matches Outcome::Ask(a) ==> plain_ask(a),
    {
        if keys.escape {
            return Outcome::Close;
        }
        let mut outcome = Outcome::Nothing;
        let mut reviewing = false;
        let mut thinking = false;
        match &self.phase {
            Phase::Reviewing { .. } => {
                reviewing = true;
            },
            Phase::Thinking => {
                thinking = true;
            },
            _ => {},
        }
        if reviewing {
            let proposal = match &self.phase {
                Phase::Reviewing { proposal, .. } => proposal.clone(),
                _ => String::new(),
            };
            if clicked.apply || keys.keep {
                outcome = Outcome::Apply(proposal);
            }
            if clicked.reject {
                outcome = Outcome::Close;
            }
        } else if thinking {
            if clicked.cancel {
                outcome = Outcome::Close;
            }
        } else {
            if clicked.cancel {
                outcome = Outcome::Close;
            }
            let typed = trimmed(&chars_of(self.request.as_str())).len() > 0;
            if clicked.ask && typed {
                outcome = Outcome::Ask(self.send());
            }
        }
        let now_thinking = match &self.phase {
            Phase::Thinking => true,
            _ => false,
        };
        if keys.submit && !now_thinking {
            outcome = Outcome::Ask(self.send());
        }
        outcome
    }
}

// ------------------------------------------------------------ the words

/// The first line of the selection, shortened, for saying what is being
/// edited: its first twenty-eight characters, and an ellipsis when there is
/// more, all in capitals.
pub open spec fn one_line_of(text: Seq<char>) -> Seq<char> {
    let first = trim(
        if lines(text).len() > 0 {
            lines(text)[0]
        } else {
            seq![]
        },
    );
    let cut = if first.len() <= 28 {
        first
    } else {
        first.take(28)
    };
    let tail = if first.len() > 28 {
        "..."@
    } else {
        seq![]
    };
    upper_of("EDITING \""@ + cut + tail + "\""@)
}

/// The first line of the selection, shortened.
pub fn one_line(text: &str) -> (r: String)
    ensures
        r@ == one_line_of(text@),
{
    let ls = lines_of(&chars_of(text));
    let first = if ls.len() > 0 {
        trimmed(&ls[0])
    } else {
        Vec::new()
    };
    let n = first.len();
    let cut = if n <= 28 {
        slice(&first, 0, n)
    } else {
        slice(&first, 0, 28)
    };
    let mut out = chars_of("EDITING \"");
    push_all(&mut out, &cut);
    if n > 28 {
        push_str(&mut out, "...");
    }
    push_str(&mut out, "\"");
    let ghost pre = out@;
    proof {
        if n <= 28 {
            assert(cut@ =~= first@);
        }
    }
    string_of(&upper(&out))
}

/// One row of a diff laid out to a width: runs of words and how they changed.
pub open spec fn row_view(r: Seq<(Change, String)>) -> Seq<(Change, Seq<char>)> {
    r.map_values(|p: (Change, String)| (p.0, p.1@))
}

/// Each row.
pub open spec fn rows_view(r: Seq<Vec<(Change, String)>>) -> Seq<Seq<(Change, Seq<char>)>> {
    r.map_values(|row: Vec<(Change, String)>| row_view(row@))
}

/// A row being built.
pub open spec fn open_view(r: Seq<(Change, Vec<char>)>) -> Seq<(Change, Seq<char>)> {
    r.map_values(|p: (Change, Vec<char>)| (p.0, p.1@))
}

/// One word placed at the end of the rows, `used` characters of the last row
/// taken: on a new row when it would not fit after a space, and joined to the
/// last run when that run changed the same way.
pub open spec fn place_word(
    rows: Seq<Seq<(Change, Seq<char>)>>,
    used: int,
    change: Change,
    word: Seq<char>,
    cols: int,
) -> (Seq<Seq<(Change, Seq<char>)>>, int) {
    let len = word.len() as int;
    let rows1 = if used > 0 && used + 1 + len > cols {
        rows.push(seq![])
    } else {
        rows
    };
    let used1 = if used > 0 && used + 1 + len > cols {
        0
    } else {
        used
    };
    let sep = if used1 > 0 {
        1int
    } else {
        0int
    };
    let row = rows1.last();
    let row2 = if row.len() > 0 && row.last().0 == change {
        row.update(row.len() - 1, (change, row.last().1 + seq![' '] + word))
    } else {
        row.push((change, word))
    };
    (rows1.update(rows1.len() - 1, row2), used1 + sep + len)
}

/// The first `n` words placed.
pub open spec fn place_words(
    st: (Seq<Seq<(Change, Seq<char>)>>, int),
    change: Change,
    words: Seq<Seq<char>>,
    n: int,
    cols: int,
) -> (Seq<Seq<(Change, Seq<char>)>>, int)
    decreases n,
{
    if n <= 0 {
        st
    } else {
        let s = place_words(st, change, words, n - 1, cols);
        place_word(s.0, s.1, change, words[n - 1], cols)
    }
}

/// One piece placed: a line break opens a new row, and anything else is
/// placed a word at a time, its words being what stands between its spaces.
pub open spec fn place_piece(st: (Seq<Seq<(Change, Seq<char>)>>, int), piece: (Change, Seq<char>), cols: int) -> (
    Seq<Seq<(Change, Seq<char>)>>,
    int,
) {
    if piece.1 == seq!['\n'] {
        (st.0.push(seq![]), 0)
    } else {
        let ws = split_on(piece.1, seq![' ']);
        place_words(st, piece.0, ws, ws.len() as int, cols)
    }
}

/// The first `n` pieces laid out, from one empty row.
pub open spec fn laid_out(pieces: Seq<(Change, Seq<char>)>, n: int, cols: int) -> (
    Seq<Seq<(Change, Seq<char>)>>,
    int,
)
    decreases n,
{
    if n <= 0 {
        (seq![seq![]], 0)
    } else {
        place_piece(laid_out(pieces, n - 1, cols), pieces[n - 1], cols)
    }
}

/// A diff laid out in rows of words that fit `cols` characters.
pub open spec fn rows_of(pieces: Seq<(Change, Seq<char>)>, cols: int) -> Seq<Seq<(Change, Seq<char>)>> {
    laid_out(pieces, pieces.len() as int, cols).0
}

/// A finished row, its texts as strings.
fn close_row(cur: &Vec<(Change, Vec<char>)>) -> (r: Vec<(Change, String)>)
    ensures
        row_view(r@) == open_view(cur@),
{
    let mut out: Vec<(Change, String)> = Vec::new();
    let mut i: usize = 0;
    while i < cur.len()
        invariant
            i <= cur@.len(),
            row_view(out@) == open_view(cur@).take(i as int),
        decreases cur.len() - i,
    {
        let ghost before = row_view(out@);
        let t = string_of(&cur[i].1);
        out.push((cur[i].0, t));
        assert(row_view(out@) =~= before.push((cur@[i as int].0, cur@[i as int].1@)));
        assert(open_view(cur@).take(i + 1) =~= open_view(cur@).take(i as int).push(open_view(cur@)[i as int]));
        assert(row_view(out@) =~= open_view(cur@).take(i + 1));
        i = i + 1;
    }
    assert(open_view(cur@).take(cur@.len() as int) =~= open_view(cur@));
    out
}

/// A word placed in the rows.
fn place(
    done: &mut Vec<Vec<(Change, String)>>,
    cur: &mut Vec<(Change, Vec<char>)>,
    used: &mut usize,
    change: Change,
    word: &Vec<char>,
    cols: usize,
)
    ensures
        (rows_view(final(done)@).push(open_view(final(cur)@)), *final(used) as int) == place_word(
            rows_view(old(done)@).push(open_view(old(cur)@)),
            *old(used) as int,
            change,
            word@,
            cols as int,
        ),
{
    let ghost rows = rows_view(done@).push(open_view(cur@));
    let len = word.len();
    let over = *used > 0 && (if cols >= 1 && len <= cols - 1 {
        *used > cols - 1 - len
    } else {
        true
    });
    if over {
        let closed = close_row(cur);
        let ghost old_done = rows_view(done@);
        let ghost old_cur = open_view(cur@);
        done.push(closed);
        assert(rows_view(done@) =~= old_done.push(old_cur));
        *cur = Vec::new();
        assert(open_view(cur@) =~= Seq::<(Change, Seq<char>)>::empty());
        *used = 0;
        assert(rows_view(done@).push(open_view(cur@)) =~= rows.push(seq![]));
    }
    let ghost rows1 = rows_view(done@).push(open_view(cur@));
    let sep: usize = if *used > 0 {
        1
    } else {
        0
    };
    *used = *used + sep + len;
    let n = cur.len();
    let ghost row = open_view(cur@);
    if n > 0 && cur[n - 1].0 == change {
        let ghost whole = cur@;
        let last = cur.pop().unwrap();
        assert(cur@ =~= whole.drop_last());
        assert(last == whole.last());
        let mut t = last.1;
        t.push(' ');
        push_all(&mut t, word);
        assert(t@ =~= row.last().1 + seq![' '] + word@);
        cur.push((change, t));
        assert(open_view(cur@) =~= open_view(whole.drop_last()).push((change, row.last().1 + seq![' '] + word@)));
        assert(open_view(cur@) =~= row.update(row.len() - 1, (change, row.last().1 + seq![' '] + word@)));
    } else {
        let w = slice(word, 0, len);
        assert(w@ =~= word@);
        cur.push((change, w));
        assert(open_view(cur@) =~= row.push((change, word@)));
    }
    assert(rows_view(done@).push(open_view(cur@)) =~= rows1.update(rows1.len() - 1, open_view(cur@)));
}

/// Break the diff into rows of words that fit `cols` characters.
///
/// A line break starts a new row; a word that would not fit after a space on
/// the row starts one too; and words next to each other that changed the
/// same way are one run, joined by a space.
pub fn rows(pieces: &[Piece], cols: usize) -> (r: Vec<Vec<(Change, String)>>)
    ensures
        rows_view(r@) == rows_of(pieces_view(pieces@), cols as int),
{
    let ghost pv = pieces_view(pieces@);
    let mut done: Vec<Vec<(Change, String)>> = Vec::new();
    let mut cur: Vec<(Change, Vec<char>)> = Vec::new();
    let mut used: usize = 0;
    let mut i: usize = 0;
    assert(rows_view(done@) =~= Seq::<Seq<(Change, Seq<char>)>>::empty());
    assert(open_view(cur@) =~= Seq::<(Change, Seq<char>)>::empty());
    assert(rows_view(done@).push(open_view(cur@)) =~= seq![Seq::<(Change, Seq<char>)>::empty()]);
    while i < pieces.len()
        invariant
            i <= pieces@.len(),
            pv == pieces_view(pieces@),
            laid_out(pv, i as int, cols as int) == (rows_view(done@).push(open_view(cur@)), used as int),
        decreases pieces.len() - i,
    {
        let ghost st = laid_out(pv, i as int, cols as int);
        assert(pv[i as int] == (pieces@[i as int].change, pieces@[i as int].text@));
        let change = pieces[i].change;
        let text = chars_of(pieces[i].text.as_str());
        if text.len() == 1 && text[0] == '\n' {
            assert(text@ =~= seq!['\n']);
            let closed = close_row(&cur);
            let ghost old_done = rows_view(done@);
            let ghost old_cur = open_view(cur@);
            done.push(closed);
            assert(rows_view(done@) =~= old_done.push(old_cur));
            cur = Vec::new();
            assert(open_view(cur@) =~= Seq::<(Change, Seq<char>)>::empty());
            used = 0;
            assert(rows_view(done@).push(open_view(cur@)) =~= st.0.push(seq![]));
        } else {
            assert(text@ != seq!['\n']);
            let space = vec![' '];
            assert(space@ =~= seq![' ']);
            let ws = split_at_each(&text, &space);
            let ghost wv = split_on(text@, seq![' ']);
            let mut w: usize = 0;
            while w < ws.len()
                invariant
                    w <= ws@.len(),
                    ws@.len() == wv.len(),
                    forall|j: int| 0 <= j < ws@.len() ==> #[trigger] ws@[j]@ == wv[j],
                    place_words(st, change, wv, w as int, cols as int) == (
                        rows_view(done@).push(open_view(cur@)),
                        used as int,
                    ),
                decreases ws.len() - w,
            {
                place(&mut done, &mut cur, &mut used, change, &ws[w], cols);
                w = w + 1;
            }
        }
        i = i + 1;
    }
    let closed = close_row(&cur);
    let ghost fin = rows_view(done@).push(open_view(cur@));
    let ghost old_done = rows_view(done@);
    done.push(closed);
    assert(rows_view(done@) =~= old_done.push(row_view(closed@)));
    assert(rows_view(done@) =~= fin);
    done
}

} // verus!
