//! The conversation on screen: what the assistant is doing, and the list of
//! conversations to come back to.
use vstd::prelude::*;

use crate::chat::{Filed};
use crate::llm::Progress;
use crate::strs::{decimal, push_str, string_of, write_u64, write_usize};

verus! {

/// Whether the share of a question read so far can be worked out without
/// running past the largest count.
pub open spec fn reading_fits(p: Progress) -> bool {
    let done = if p.read >= p.prompt - p.fresh {
        p.read - (if p.prompt >= p.fresh { p.prompt - p.fresh } else { 0 })
    } else {
        0
    };
    100 * done <= usize::MAX && 2 * p.fresh <= usize::MAX
}

/// Of what is being read, the part read so far, in hundredths, never the
/// whole of it.
pub open spec fn share_of(p: Progress) -> nat {
    let fresh = if p.fresh > 1 { p.fresh as int } else { 1 };
    let skipped = if p.prompt >= p.fresh { p.prompt - p.fresh } else { 0 };
    let done = if p.read >= skipped { p.read - skipped } else { 0 };
    let share = (100 * done) / fresh;
    (if share < 99 { share } else { 99 }) as nat
}

/// What the assistant is doing right now, in a line.
pub open spec fn doing_of(p: Progress, per_second: u64) -> Seq<char> {
    if p.loading {
        "LOADING THE MODEL..."@
    } else if p.looking {
        "LOOKING SOMETHING UP... ("@ + decimal(p.steps as nat) + " SO FAR)"@
    } else if p.deliberating {
        "THINKING... "@ + decimal(p.written as nat) + " TOKENS"@
    } else if p.written > 0 {
        if p.thought > 0 {
            "WRITING... "@ + decimal(p.written as nat) + " TOKENS, "@ + decimal(per_second as nat)
                + "/S - THOUGHT FOR "@ + decimal(p.thought as nat)
        } else {
            "WRITING... "@ + decimal(p.written as nat) + " TOKENS, "@ + decimal(per_second as nat)
                + "/S"@
        }
    } else if p.prompt == 0 {
        "ASKING..."@
    } else if p.read >= p.prompt {
        "ABOUT TO ANSWER..."@
    } else if p.fresh * 2 < p.prompt {
        "READING WHAT'S NEW... "@ + decimal(share_of(p)) + "%"@
    } else {
        "READING THE NOTES... "@ + decimal(share_of(p)) + "%"@
    }
}

/// What the assistant is doing right now, in a line.
///
/// Loading the weights, looking something up, thinking, writing - with how
/// fast, `per_second` being the rate at which it writes, in whole tokens a
/// second - or reading: of what is actually being read this time, how near
/// the end it is.
pub fn doing(p: &Progress, per_second: u64) -> (r: String)
    requires
        reading_fits(*p),
    ensures
        r@ == doing_of(*p, per_second),
{
    let mut out: Vec<char> = Vec::new();
    if p.loading {
        push_str(&mut out, "LOADING THE MODEL...");
    } else if p.looking {
        push_str(&mut out, "LOOKING SOMETHING UP... (");
        write_u64(&mut out, p.steps as u64);
        push_str(&mut out, " SO FAR)");
    } else if p.deliberating {
        push_str(&mut out, "THINKING... ");
        write_usize(&mut out, p.written);
        push_str(&mut out, " TOKENS");
    } else if p.written > 0 {
        push_str(&mut out, "WRITING... ");
        write_usize(&mut out, p.written);
        push_str(&mut out, " TOKENS, ");
        write_u64(&mut out, per_second);
        if p.thought > 0 {
            push_str(&mut out, "/S - THOUGHT FOR ");
            write_usize(&mut out, p.thought);
        } else {
            push_str(&mut out, "/S");
        }
    } else if p.prompt == 0 {
        push_str(&mut out, "ASKING...");
    } else if p.read >= p.prompt {
        push_str(&mut out, "ABOUT TO ANSWER...");
    } else {
        let fresh = if p.fresh > 1 { p.fresh } else { 1 };
        let skipped = if p.prompt >= p.fresh { p.prompt - p.fresh } else { 0 };
        let done = if p.read >= skipped { p.read - skipped } else { 0 };
        assert(100 * done <= usize::MAX);
        let share = if 100 * done / fresh < 99 { 100 * done / fresh } else { 99 };
        assert(share == share_of(*p));
        if p.fresh * 2 < p.prompt {
            push_str(&mut out, "READING WHAT'S NEW... ");
        } else {
            push_str(&mut out, "READING THE NOTES... ");
        }
        write_usize(&mut out, share);
        push_str(&mut out, "%");
    }
    string_of(&out)
}

/// Which conversation to open, chosen from the ones there are.
pub struct Picker {
    /// The row the selection is on; the first row starts a new conversation.
    pub selected: usize,
    fresh: bool,
    /// Which row has been asked about, while it is being asked about.
    confirming: Option<usize>,
}

/// What the picker decided.
pub enum Picked {
    /// Nothing chosen yet.
    Nothing,
    /// Start a conversation with nothing in it.
    Fresh,
    /// Carry on with this one.
    Open(std::path::PathBuf),
    /// Throw this one away, for good.
    Delete(std::path::PathBuf),
    Close,
}

impl View for Picker {
    type V = (usize, bool, Option<usize>);

    closed spec fn view(&self) -> (usize, bool, Option<usize>) {
        (self.selected, self.fresh, self.confirming)
    }
}

impl Picker {
    /// A picker on the new-conversation row, not yet shown, asking nothing.
    pub fn new() -> (r: Self)
        ensures
            r@ == (0usize, true, None::<usize>),
    {
        Picker { selected: 0, fresh: true, confirming: None }
    }

    /// Throw away the conversation on row `i`: nothing, for the
    /// new-conversation row or one past the end.
    pub fn remove(&self, chats: &[Filed], i: usize) -> (r: Picked)
        ensures
            i == 0 || i - 1 >= chats@.len() ==> r is Nothing,
            0 < i <= chats@.len() ==> r == Picked::Delete(chats@[i - 1].path),
    {
        if i == 0 || i - 1 >= chats.len() {
            Picked::Nothing
        } else {
            Picked::Delete(chats[i - 1].path.clone())
        }
    }

    /// What the selected row means: a new conversation on the first row, or
    /// the one on the row, or a new one when the row is past the end.
    pub fn chosen(&self, chats: &[Filed]) -> (r: Picked)
        ensures
            self@.0 == 0 || self@.0 - 1 >= chats@.len() ==> r is Fresh,
            0 < self@.0 <= chats@.len() ==> r == Picked::Open(chats@[self@.0 - 1].path),
    {
        if self.selected == 0 || self.selected - 1 >= chats.len() {
            Picked::Fresh
        } else {
            Picked::Open(chats[self.selected - 1].path.clone())
        }
    }

    /// Move the selection by `by` rows among `count`, round from either end.
    pub fn step(&mut self, by: i32, count: usize)
        requires
            count <= i32::MAX,
            old(self)@.0 <= i32::MAX,
            old(self)@.0 + by <= i32::MAX,
        ensures
            count == 0 ==> final(self)@.0 == old(self)@.0,
            count > 0 ==> final(self)@.0 == (old(self)@.0 + by) % (count as int),
            final(self)@.1 == old(self)@.1,
            final(self)@.2 == old(self)@.2,
    {
        if count == 0 {
            return;
        }
        self.selected = wrapped(self.selected, by, count);
    }
}

/// A key pressed over the picker.
#[derive(Clone, Copy, PartialEq, Eq, Structural, Debug)]
pub enum PickerKey {
    Enter,
    Escape,
    Down,
    Up,
    Delete,
    Backspace,
    Char(char),
    Other,
}

/// What was done with the pointer over the picker in a frame: a row's bin
/// pressed, KEEP or DELETE pressed under the question, a row clicked.
pub struct PickerClicks {
    pub asking: Option<usize>,
    pub kept: bool,
    pub answered: bool,
    pub clicked: Option<usize>,
}

/// The picker as values: the selected row, whether it has yet to be shown,
/// and which row is being asked about.
pub type PickerView = (usize, bool, Option<usize>);

/// What throwing away row `i` picks.
pub open spec fn removed_of(chats: Seq<Filed>, i: usize) -> Picked {
    if i == 0 || i - 1 >= chats.len() {
        Picked::Nothing
    } else {
        Picked::Delete(chats[i - 1].path)
    }
}

/// What the selected row picks.
pub open spec fn chosen_of(selected: usize, chats: Seq<Filed>) -> Picked {
    if selected == 0 || selected - 1 >= chats.len() {
        Picked::Fresh
    } else {
        Picked::Open(chats[selected - 1].path)
    }
}

/// One key, and what it picks if it picks anything. While a row is being
/// asked about the keys answer the question: Enter or `y` throws it away,
/// Escape or `n` takes the question back. Otherwise Escape leaves, Enter
/// picks the selected row, the arrows, `j` and `k`, and control with `n`
/// and `p`, walk the rows round from either end, and `d`, Delete or
/// Backspace ask about the selected row - never the new-conversation row.
pub open spec fn key_of(p: PickerView, key: PickerKey, ctrl: bool, chats: Seq<Filed>) -> (PickerView, Option<Picked>) {
    let (sel, fresh, conf) = p;
    let count = chats.len() + 1;
    match conf {
        Some(row) => {
            if key == PickerKey::Enter || key == PickerKey::Char('y') {
                ((sel, fresh, None), Some(removed_of(chats, row)))
            } else if key == PickerKey::Escape || key == PickerKey::Char('n') {
                ((sel, fresh, None), None)
            } else {
                (p, None)
            }
        },
        None => {
            if key == PickerKey::Escape {
                (p, Some(Picked::Close))
            } else if key == PickerKey::Enter {
                (p, Some(chosen_of(sel, chats)))
            } else if key == PickerKey::Down || key == PickerKey::Char('j') || (ctrl && key == PickerKey::Char('n')) {
                ((((sel + 1) % (count as int)) as usize, fresh, conf), None)
            } else if key == PickerKey::Up || key == PickerKey::Char('k') || (ctrl && key == PickerKey::Char('p')) {
                ((((sel - 1) % (count as int)) as usize, fresh, conf), None)
            } else if (key == PickerKey::Char('d') || key == PickerKey::Delete || key == PickerKey::Backspace) && sel > 0 {
                ((sel, fresh, Some(sel)), None)
            } else {
                (p, None)
            }
        },
    }
}

/// The first `n` keys, in order, and the last pick among them.
pub open spec fn keys_of(p: PickerView, keys: Seq<PickerKey>, n: int, ctrl: bool, chats: Seq<Filed>) -> (PickerView, Picked)
    decreases n,
{
    if n <= 0 {
        (p, Picked::Nothing)
    } else {
        let (q, picked) = keys_of(p, keys, n - 1, ctrl, chats);
        let (q2, now) = key_of(q, keys[n - 1], ctrl, chats);
        (q2, match now {
            Some(x) => x,
            None => picked,
        })
    }
}

/// What the pointer does, once the keys have picked nothing: a bin pressed
/// selects its row and asks about it; KEEP takes the question back; DELETE
/// throws the row asked about away; a row clicked, while nothing is being
/// asked, is picked.
pub open spec fn clicks_of(p: PickerView, c: PickerClicks, chats: Seq<Filed>) -> (PickerView, Picked) {
    let (sel, fresh, conf) = p;
    match c.asking {
        Some(i) => ((i, fresh, Some(i)), Picked::Nothing),
        None => if c.kept {
            ((sel, fresh, None), Picked::Nothing)
        } else if c.answered {
            ((sel, fresh, None), removed_of(chats, match conf {
                Some(i) => i,
                None => 0,
            }))
        } else {
            match c.clicked {
                Some(i) => if conf is None {
                    ((i, fresh, conf), chosen_of(i, chats))
                } else {
                    (p, Picked::Nothing)
                },
                None => (p, Picked::Nothing),
            }
        },
    }
}

/// A frame of the picker: the keys are not acted on the frame it first
/// shows; what they pick, if anything, is picked; else what the pointer did.
pub open spec fn frame_of(p: PickerView, keys: Seq<PickerKey>, ctrl: bool, c: PickerClicks, chats: Seq<Filed>) -> (PickerView, Picked) {
    let (q, picked) = if p.1 {
        ((p.0, false, p.2), Picked::Nothing)
    } else {
        keys_of(p, keys, keys.len() as int, ctrl, chats)
    };
    if picked is Nothing {
        clicks_of(q, c, chats)
    } else {
        (q, picked)
    }
}

/// Something picked for deletion is a conversation on a row past the
/// new-conversation row: the row's own file.
pub open spec fn deletes_a_row(picked: Picked, chats: Seq<Filed>) -> bool {
    picked matches Picked::Delete(path) ==> exists|r: int| 1 <= r <= chats.len() && path == #[trigger] chats[r - 1].path
}

proof fn lemma_keys_delete_rows(p: PickerView, keys: Seq<PickerKey>, n: int, ctrl: bool, chats: Seq<Filed>)
    ensures
        deletes_a_row(keys_of(p, keys, n, ctrl, chats).1, chats),
    decreases n,
{
    if n > 0 {
        lemma_keys_delete_rows(p, keys, n - 1, ctrl, chats);
        let (q, _) = keys_of(p, keys, n - 1, ctrl, chats);
        if let Some(row) = q.2 {
            if 0 < row <= chats.len() {
                assert(chats[row - 1].path == chats[(row as int) - 1].path);
            }
        }
    }
}

/// Nothing is thrown away but a conversation: whatever a frame of the
/// picker deletes is the file of a row below the new-conversation row, and
/// a frame that puts a row to the question deletes nothing.
pub proof fn law_only_a_conversation_is_deleted(p: PickerView, keys: Seq<PickerKey>, ctrl: bool, c: PickerClicks, chats: Seq<Filed>)
    ensures
        deletes_a_row(frame_of(p, keys, ctrl, c, chats).1, chats),
        c.asking is Some && !p.1 && keys_of(p, keys, keys.len() as int, ctrl, chats).1 is Nothing
            ==> frame_of(p, keys, ctrl, c, chats).1 is Nothing,
{
    lemma_keys_delete_rows(p, keys, keys.len() as int, ctrl, chats);
    let (q, picked) = if p.1 {
        ((p.0, false, p.2), Picked::Nothing)
    } else {
        keys_of(p, keys, keys.len() as int, ctrl, chats)
    };
    if let Some(i) = q.2 {
        if 0 < i <= chats.len() {
            assert(chats[i - 1].path == chats[(i as int) - 1].path);
        }
    }
}

/// How long a conversation is, said.
pub open spec fn turns_said_of(n: usize) -> Seq<char> {
    if n == 1 {
        "1 TURN"@
    } else {
        decimal(n as nat) + " TURNS"@
    }
}

/// What the foot of the picker says: the question about the row being
/// asked about, or how many conversations there are.
pub open spec fn foot_of(p: PickerView, chats: Seq<Filed>) -> Seq<char> {
    match p.2 {
        Some(i) if 1 <= i <= chats.len() => "DELETE \""@ + crate::strs::upper_of(chats[i - 1].title@) + "\" FOR GOOD?"@,
        _ => if chats.len() == 0 {
            "NOTHING YET"@
        } else if chats.len() == 1 {
            "1 CHAT"@
        } else {
            decimal(chats.len() as nat) + " CHATS"@
        },
    }
}

/// How long a conversation is, said.
pub fn turns_said(n: usize) -> (r: String)
    ensures
        r@ == turns_said_of(n),
{
    if n == 1 {
        String::from_str("1 TURN")
    } else {
        let mut out: Vec<char> = Vec::new();
        write_usize(&mut out, n);
        push_str(&mut out, " TURNS");
        string_of(&out)
    }
}

impl Picker {
    /// What one key does.
    fn key(&mut self, key: PickerKey, ctrl: bool, chats: &[Filed]) -> (r: Option<Picked>)
        requires
            chats@.len() + 1 <= i32::MAX,
            old(self)@.0 < i32::MAX,
        ensures
            (final(self)@, r) == key_of(old(self)@, key, ctrl, chats@),
            final(self)@.0 < i32::MAX,
    {
        let count = chats.len() + 1;
        match self.confirming {
            Some(row) => {
                if key == PickerKey::Enter || key == PickerKey::Char('y') {
                    self.confirming = None;
                    Some(self.remove(chats, row))
                } else if key == PickerKey::Escape || key == PickerKey::Char('n') {
                    self.confirming = None;
                    None
                } else {
                    None
                }
            },
            None => {
                if key == PickerKey::Escape {
                    Some(Picked::Close)
                } else if key == PickerKey::Enter {
                    Some(self.chosen(chats))
                } else if key == PickerKey::Down || key == PickerKey::Char('j') || (ctrl && key == PickerKey::Char('n')) {
                    self.step(1, count);
                    None
                } else if key == PickerKey::Up || key == PickerKey::Char('k') || (ctrl && key == PickerKey::Char('p')) {
                    self.step(-1, count);
                    None
                } else if (key == PickerKey::Char('d') || key == PickerKey::Delete || key == PickerKey::Backspace)
                    && self.selected > 0 {
                    self.confirming = Some(self.selected);
                    None
                } else {
                    None
                }
            },
        }
    }

    /// A frame: the keys pressed, in order, whether control was held, and
    /// what the pointer did; and what was picked.
    ///
    /// The keys are not acted on the frame the picker first shows, so the
    /// key that opened it does not also choose in it.
    pub fn frame(&mut self, keys: &[PickerKey], ctrl: bool, clicks: PickerClicks, chats: &[Filed]) -> (r: Picked)
        requires
            chats@.len() + 1 <= i32::MAX,
            old(self)@.0 < i32::MAX,
        ensures
            (final(self)@, r) == frame_of(old(self)@, keys@, ctrl, clicks, chats@),
    {
        let mut picked = Picked::Nothing;
        if self.fresh {
            self.fresh = false;
        } else {
            let ghost p0 = self@;
            let mut i: usize = 0;
            while i < keys.len()
                invariant
                    i <= keys@.len(),
                    chats@.len() + 1 <= i32::MAX,
                    self@.0 < i32::MAX,
                    (self@, picked) == keys_of(p0, keys@, i as int, ctrl, chats@),
                decreases keys.len() - i,
            {
                match self.key(keys[i], ctrl, chats) {
                    Some(x) => {
                        picked = x;
                    },
                    None => {},
                }
                i = i + 1;
            }
        }
        match picked {
            Picked::Nothing => {},
            _ => {
                return picked;
            },
        }
        match clicks.asking {
            Some(i) => {
                self.selected = i;
                self.confirming = Some(i);
                return Picked::Nothing;
            },
            None => {},
        }
        if clicks.kept {
            self.confirming = None;
            return Picked::Nothing;
        }
        if clicks.answered {
            let row = match self.confirming {
                Some(i) => i,
                None => 0,
            };
            self.confirming = None;
            return self.remove(chats, row);
        }
        match clicks.clicked {
            Some(i) => {
                if self.confirming.is_none() {
                    self.selected = i;
                    self.chosen(chats)
                } else {
                    Picked::Nothing
                }
            },
            None => Picked::Nothing,
        }
    }

    /// What the foot of the picker says.
    pub fn foot(&self, chats: &[Filed]) -> (r: String)
        ensures
            r@ == foot_of(self@, chats@),
    {
        match self.confirming {
            Some(i) => {
                if 1 <= i && i <= chats.len() {
                    let mut out = crate::strs::chars_of("DELETE \"");
                    let up = crate::strs::uppercase(chats[i - 1].title.as_str());
                    push_str(&mut out, up.as_str());
                    push_str(&mut out, "\" FOR GOOD?");
                    return string_of(&out);
                }
            },
            None => {},
        }
        if chats.len() == 0 {
            String::from_str("NOTHING YET")
        } else if chats.len() == 1 {
            String::from_str("1 CHAT")
        } else {
            let mut out: Vec<char> = Vec::new();
            write_usize(&mut out, chats.len());
            push_str(&mut out, " CHATS");
            string_of(&out)
        }
    }
}

/// `at` moved by `by` among `count` rows, round from either end: what
/// `rem_euclid` gives.
pub fn wrapped(at: usize, by: i32, count: usize) -> (r: usize)
    requires
        0 < count <= i32::MAX,
        at <= i32::MAX,
        at + by <= i32::MAX,
    ensures
        r == (at + by) % (count as int),
        r < count,
{
    let x: i64 = at as i64 + by as i64;
    let n: i64 = count as i64;
    let m: i64 = if x >= 0 {
        ((x as u64) % (n as u64)) as i64
    } else {
        let r = ((-x) as u64) % (n as u64);
        if r == 0 {
            0
        } else {
            n - (r as i64)
        }
    };
    proof {
        lemma_euclid(x as int, n as int, m as int);
    }
    m as usize
}

proof fn lemma_euclid(x: int, n: int, m: int)
    requires
        n > 0,
        x >= 0 ==> m == x % n,
        x < 0 ==> ((-x) % n == 0 ==> m == 0),
        x < 0 ==> ((-x) % n != 0 ==> m == n - (-x) % n),
    ensures
        m == x % n,
        0 <= m < n,
{
    if x < 0 {
        let r = (-x) % n;
        let q = (-x) / n;
        assert(-x == q * n + r) by (nonlinear_arith)
            requires
                n > 0,
                r == (-x) % n,
                q == (-x) / n,
        ;
        if r == 0 {
            assert(x == (-q) * n) by (nonlinear_arith)
                requires
                    -x == q * n + r,
                    r == 0,
            ;
            assert(x % n == 0) by (nonlinear_arith)
                requires
                    x == (-q) * n,
                    n > 0,
            ;
        } else {
            assert(x == (-q - 1) * n + (n - r)) by (nonlinear_arith)
                requires
                    -x == q * n + r,
            ;
            assert(0 <= r < n) by (nonlinear_arith)
                requires
                    r == (-x) % n,
                    n > 0,
            ;
            assert(x % n == n - r) by (nonlinear_arith)
                requires
                    x == (-q - 1) * n + (n - r),
                    0 < n - r <= n,
                    r > 0,
                    n > 0,
            ;
        }
    }
}

} // verus!
