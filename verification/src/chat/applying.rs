//! What accepting a change does to the notes: which note it reaches, what
//! each note comes to say, and what the status line says; or why nothing
//! moves. The notes themselves are the editor's, so what is decided here
//! is handed over as steps, each naming the note it is done to.
use vstd::prelude::*;

use crate::chat::change::{all_there, lookup, misplaced_of, own_name, own_name_of, replacing_of, Change, Folder, Offer, What};
use crate::strs::{
    chars_of, join, joined, push_str, same, split_at_each, split_on, string_of, texts, upper_of,
    uppercase, views,
};

verus! {

/// An open note, as far as applying a change is concerned: its project,
/// its file name, and its lines.
pub struct NoteText {
    pub project: String,
    pub name: String,
    pub lines: Vec<String>,
}

impl View for NoteText {
    type V = (Seq<char>, Seq<char>, Seq<Seq<char>>);

    open spec fn view(&self) -> (Seq<char>, Seq<char>, Seq<Seq<char>>) {
        (self.project@, self.name@, texts(self.lines@))
    }
}

/// Each note as values.
pub open spec fn notes_view(v: Seq<NoteText>) -> Seq<(Seq<char>, Seq<char>, Seq<Seq<char>>)> {
    v.map_values(|n: NoteText| n@)
}

/// One thing to do to the notes, naming the note in the project it is done
/// to.
#[derive(PartialEq, Eq, Debug)]
pub enum Step {
    /// The note says these lines from now on.
    Rewrite(String, Vec<String>),
    /// A new note of this name, saying this text, not yet saved.
    Create(String, String),
    /// The note goes, from the list and from the disk.
    Remove(String),
    /// These lines go in at line `at`, moving nothing.
    Insert(String, usize, Vec<String>),
    /// The lines from `first` to the one given go, when one is given, and
    /// these go in at `first`.
    Splice(String, usize, Option<usize>, Vec<String>),
}

/// A step as values.
pub enum StepView {
    Rewrite(Seq<char>, Seq<Seq<char>>),
    Create(Seq<char>, Seq<char>),
    Remove(Seq<char>),
    Insert(Seq<char>, int, Seq<Seq<char>>),
    Splice(Seq<char>, int, Option<int>, Seq<Seq<char>>),
}

impl View for Step {
    type V = StepView;

    open spec fn view(&self) -> StepView {
        match self {
            Step::Rewrite(n, l) => StepView::Rewrite(n@, texts(l@)),
            Step::Create(n, t) => StepView::Create(n@, t@),
            Step::Remove(n) => StepView::Remove(n@),
            Step::Insert(n, at, l) => StepView::Insert(n@, *at as int, texts(l@)),
            Step::Splice(n, first, last, l) => StepView::Splice(
                n@,
                *first as int,
                match last {
                    Some(x) => Some(*x as int),
                    None => None,
                },
                texts(l@),
            ),
        }
    }
}

/// Each step as values.
pub open spec fn steps_view(v: Seq<Step>) -> Seq<StepView> {
    v.map_values(|s: Step| s@)
}

/// What accepting a change comes to: the steps, in order; what the status
/// line says; and the note to be looking at after, when it is another.
pub struct Applied {
    pub steps: Vec<Step>,
    pub status: String,
    pub focus: Option<String>,
}

impl View for Applied {
    type V = (Seq<StepView>, Seq<char>, Option<Seq<char>>);

    open spec fn view(&self) -> (Seq<StepView>, Seq<char>, Option<Seq<char>>) {
        (steps_view(self.steps@), self.status@, match self.focus {
            Some(f) => Some(f@),
            None => None,
        })
    }
}

/// Where the first note from `i` on of this name, in this project, is.
pub open spec fn note_at(notes: Seq<(Seq<char>, Seq<char>, Seq<Seq<char>>)>, here: Seq<char>, name: Seq<char>, i: int) -> Option<int>
    decreases notes.len() - i,
{
    if i < 0 || i >= notes.len() {
        None
    } else if notes[i].0 == here && notes[i].1 == name {
        Some(i)
    } else {
        note_at(notes, here, name, i + 1)
    }
}

/// A text cut at every line break.
pub open spec fn split_lines(t: Seq<char>) -> Seq<Seq<char>> {
    split_on(t, "\n"@)
}

/// Writing a note: refused when laying down one that is there already; else
/// the note there says the text from now on, or a new one is made.
pub open spec fn write_of(notes: Seq<(Seq<char>, Seq<char>, Seq<Seq<char>>)>, here: Seq<char>, named: Seq<char>, text: Seq<char>, lay: bool) -> (Seq<StepView>, Seq<char>, Option<Seq<char>>) {
    match note_at(notes, here, named, 0) {
        Some(_) => if lay {
            (seq![], "THAT FILE IS ALREADY THERE - SAY WHICH LINES"@, None)
        } else {
            (seq![StepView::Rewrite(named, split_lines(text))], upper_of("REWROTE "@ + named), Some(named))
        },
        None => (seq![StepView::Create(named, text)], upper_of("CREATED "@ + named), Some(named)),
    }
}

/// The names of the first `n` notes in this project.
pub open spec fn names_upto(notes: Seq<(Seq<char>, Seq<char>, Seq<Seq<char>>)>, here: Seq<char>, n: int) -> Seq<Seq<char>>
    decreases n,
{
    if n <= 0 {
        seq![]
    } else {
        names_upto(notes, here, n - 1) + if notes[n - 1].0 == here {
            seq![notes[n - 1].1]
        } else {
            seq![]
        }
    }
}

/// Where `x` first is among these, from `i` on.
pub open spec fn first_of(s: Seq<Seq<char>>, x: Seq<char>, i: int) -> int
    decreases s.len() - i,
{
    if i < 0 || i >= s.len() {
        s.len() as int
    } else if s[i] == x {
        i
    } else {
        first_of(s, x, i + 1)
    }
}

/// The parts of a merge, in the order named, each found by its own name:
/// each note's lines joined, or nothing when one of them is not there.
pub open spec fn parts_of(notes: Seq<(Seq<char>, Seq<char>, Seq<Seq<char>>)>, here: Seq<char>, from: Seq<Seq<char>>, k: int) -> Option<Seq<Seq<char>>>
    decreases k,
{
    if k <= 0 {
        Some(seq![])
    } else {
        match (parts_of(notes, here, from, k - 1), note_at(notes, here, own_name_of(from[k - 1]), 0)) {
            (Some(ps), Some(i)) => Some(ps.push(join(notes[i].2, "\n"@))),
            _ => None,
        }
    }
}

/// The notes a merge folds in taken away, once the one merged into has been
/// written: each one but that one, as far as it is still there, the names
/// left standing kept as they go.
pub open spec fn removals_of(from: Seq<Seq<char>>, named: Seq<char>, names: Seq<Seq<char>>, k: int) -> (Seq<StepView>, Seq<Seq<char>>)
    decreases k,
{
    if k <= 0 {
        (seq![], names)
    } else {
        let (steps, left) = removals_of(from, named, names, k - 1);
        let name = from[k - 1];
        let own = own_name_of(name);
        if own == named || !left.contains(own) {
            (steps, left)
        } else {
            (steps.push(StepView::Remove(own)), left.remove(first_of(left, own, 0)))
        }
    }
}

/// What accepting a change does, for the notes open, in project `here`
/// with note `open` in front.
///
/// A change aimed at another project is refused, as the conversation
/// refuses it. Otherwise it reaches the note of its file's own name, or the
/// note in front when it names none. A write rewrites that note, or makes
/// it; laying one down is refused where it is there already. A delete takes
/// it away. An insert puts its lines in, at the end when it is one past
/// the end. An edit takes out the lines it names, as far as there are, and
/// puts its text in their place. A merge writes the note it merges into
/// with the parts joined - or its own text - and takes the others away;
/// but nothing at all when one of the parts is not there.
pub open spec fn applied_of(notes: Seq<(Seq<char>, Seq<char>, Seq<Seq<char>>)>, here: Seq<char>, open: Seq<char>, c: crate::chat::change::Proposal) -> (Seq<StepView>, Seq<char>, Option<Seq<char>>) {
    match misplaced_of(c, here) {
        Some(p) => (seq![], upper_of("THAT NOTE IS IN "@ + p + " - OPEN IT TO CHANGE IT"@), None),
        None => {
            let named = match c.file {
                Some(f) => own_name_of(f),
                None => open,
            };
            let found = note_at(notes, here, named, 0);
            match c.what {
                Offer::Lay { text } => write_of(notes, here, named, text, true),
                Offer::Write { text } => write_of(notes, here, named, text, false),
                Offer::Delete => match found {
                    Some(_) => (seq![StepView::Remove(named)], upper_of("DELETED "@ + named), None),
                    None => (seq![], "THAT FILE IS NOT THERE"@, None),
                },
                Offer::Insert { after, text } => match found {
                    None => (seq![], "THAT FILE IS NOT THERE"@, None),
                    Some(i) => {
                        let count = notes[i].2.len();
                        if after > count + 1 {
                            (seq![], "THAT LINE IS NOT THERE"@, None)
                        } else {
                            let at = if after < count {
                                after as int
                            } else {
                                count as int
                            };
                            (seq![StepView::Insert(named, at, split_lines(text))], "APPLIED"@, Some(named))
                        }
                    },
                },
                Offer::Edit { from, to, text } => match found {
                    None => (seq![], "THAT FILE IS NOT THERE"@, None),
                    Some(i) => {
                        let count = notes[i].2.len();
                        if from == 0 || from - 1 > count || to < from {
                            (seq![], "THOSE LINES ARE NOT THERE"@, None)
                        } else {
                            let first = from - 1;
                            let last = if first < count {
                                let end = if to < count {
                                    to as int
                                } else {
                                    count as int
                                };
                                Some(if end > 0 {
                                    end - 1
                                } else {
                                    0
                                })
                            } else {
                                None
                            };
                            let fresh = if text.len() == 0 {
                                Seq::<Seq<char>>::empty()
                            } else {
                                split_lines(text)
                            };
                            (seq![StepView::Splice(named, first as int, last, fresh)], "APPLIED"@, Some(named))
                        }
                    },
                },
                Offer::Merge { from, text } => match parts_of(notes, here, from, from.len() as int) {
                    None => (seq![], "SOME OF THOSE FILES ARE NOT THERE"@, None),
                    Some(parts) => {
                        let body = if text.len() == 0 {
                            join(parts, "\n\n"@)
                        } else {
                            text
                        };
                        let (written, _, _) = write_of(notes, here, named, body, false);
                        let names = names_upto(notes, here, notes.len() as int);
                        let standing = if names.contains(named) {
                            names
                        } else {
                            names.push(named)
                        };
                        let (gone, _) = removals_of(from, named, standing, from.len() as int);
                        (written + gone, upper_of("MERGED INTO "@ + named), Some(named))
                    },
                },
            }
        },
    }
}


/// Where the first note of this name, in this project, is.
fn find_note(notes: &[NoteText], here: &Vec<char>, name: &Vec<char>) -> (r: Option<usize>)
    ensures
        r matches Some(i) ==> note_at(notes_view(notes@), here@, name@, 0) == Some(i as int) && i < notes@.len(),
        r is None ==> note_at(notes_view(notes@), here@, name@, 0) is None,
{
    let ghost nv = notes_view(notes@);
    let mut i: usize = 0;
    while i < notes.len()
        invariant
            i <= notes@.len(),
            nv == notes_view(notes@),
            note_at(nv, here@, name@, 0) == note_at(nv, here@, name@, i as int),
        decreases notes.len() - i,
    {
        assert(nv[i as int] == notes@[i as int]@);
        if same(&chars_of(notes[i].project.as_str()), here) && same(&chars_of(notes[i].name.as_str()), name) {
            return Some(i);
        }
        i = i + 1;
    }
    None
}

/// A text cut at every line break, as strings.
fn split_text(t: &[char]) -> (r: Vec<String>)
    ensures
        texts(r@) == split_lines(t@),
{
    let nl = chars_of("\n");
    proof {
        reveal_strlit("\n");
    }
    assert(nl@.len() > 0);
    let parts = split_at_each(t, &nl);
    let mut out: Vec<String> = Vec::new();
    let mut i: usize = 0;
    while i < parts.len()
        invariant
            i <= parts@.len(),
            parts@.len() == split_lines(t@).len(),
            forall|j: int| 0 <= j < parts@.len() ==> #[trigger] parts@[j]@ == split_lines(t@)[j],
            texts(out@) == split_lines(t@).take(i as int),
        decreases parts.len() - i,
    {
        let ghost before = texts(out@);
        out.push(string_of(&parts[i]));
        assert(texts(out@) =~= before.push(parts@[i as int]@));
        assert(texts(out@) =~= split_lines(t@).take(i + 1));
        i = i + 1;
    }
    assert(split_lines(t@).take(parts@.len() as int) =~= split_lines(t@));
    out
}

/// A status made of a word and a name, in capitals.
fn shouted(word: &str, name: &Vec<char>) -> (r: String)
    ensures
        r@ == upper_of(word@ + name@),
{
    let mut s = chars_of(word);
    crate::strs::push_all(&mut s, name);
    uppercase(string_of(&s).as_str())
}

/// Nothing done, and why.
fn refused(why: &str) -> (r: Applied)
    ensures
        r@ == (Seq::<StepView>::empty(), why@, None::<Seq<char>>),
{
    let steps: Vec<Step> = Vec::new();
    assert(steps_view(steps@) =~= Seq::<StepView>::empty());
    Applied { steps, status: String::from_str(why), focus: None }
}

/// One step, and what the status line says, and the note to look at.
fn one_step(step: Step, status: String, focus: Option<String>) -> (r: Applied)
    ensures
        r@ == (seq![step@], status@, match focus {
            Some(f) => Some(f@),
            None => None::<Seq<char>>,
        }),
{
    let mut steps: Vec<Step> = Vec::new();
    steps.push(step);
    assert(steps_view(steps@) =~= seq![step@]);
    Applied { steps, status, focus }
}

/// Writing a note, or laying one down.
fn write_note(notes: &[NoteText], here: &Vec<char>, named: &Vec<char>, text: &[char], lay: bool) -> (r: Applied)
    ensures
        r@ == write_of(notes_view(notes@), here@, named@, text@, lay),
{
    match find_note(notes, here, named) {
        Some(_) => {
            if lay {
                refused("THAT FILE IS ALREADY THERE - SAY WHICH LINES")
            } else {
                one_step(
                    Step::Rewrite(string_of(named), split_text(text)),
                    shouted("REWROTE ", named),
                    Some(string_of(named)),
                )
            }
        },
        None => one_step(
            Step::Create(string_of(named), string_of(text)),
            shouted("CREATED ", named),
            Some(string_of(named)),
        ),
    }
}

/// The names of the notes in this project.
fn names_in(notes: &[NoteText], here: &Vec<char>) -> (r: Vec<Vec<char>>)
    ensures
        views(r@) == names_upto(notes_view(notes@), here@, notes@.len() as int),
{
    let ghost nv = notes_view(notes@);
    let mut out: Vec<Vec<char>> = Vec::new();
    let mut i: usize = 0;
    while i < notes.len()
        invariant
            i <= notes@.len(),
            nv == notes_view(notes@),
            views(out@) == names_upto(nv, here@, i as int),
        decreases notes.len() - i,
    {
        assert(nv[i as int] == notes@[i as int]@);
        if same(&chars_of(notes[i].project.as_str()), here) {
            let ghost before = views(out@);
            out.push(chars_of(notes[i].name.as_str()));
            assert(views(out@) =~= before + seq![nv[i as int].1]);
        } else {
            assert(names_upto(nv, here@, i + 1) =~= names_upto(nv, here@, i as int));
        }
        i = i + 1;
    }
    out
}

/// Where `x` first is among these; past the end, when it is not.
fn first_in(s: &Vec<Vec<char>>, x: &Vec<char>) -> (r: usize)
    ensures
        r == first_of(views(s@), x@, 0),
        r < s@.len() <==> views(s@).contains(x@),
{
    let ghost v = views(s@);
    let mut i: usize = 0;
    while i < s.len()
        invariant
            i <= s@.len(),
            v == views(s@),
            first_of(v, x@, 0) == first_of(v, x@, i as int),
            forall|j: int| 0 <= j < i ==> v[j] != x@,
        decreases s.len() - i,
    {
        if same(&s[i], x) {
            assert(v[i as int] == x@);
            return i;
        }
        i = i + 1;
    }
    i
}

/// The parts of a merge, each note's lines joined; nothing, when one is not
/// there.
fn merge_parts(notes: &[NoteText], here: &Vec<char>, from: &Vec<String>) -> (r: Option<Vec<Vec<char>>>)
    ensures
        r matches Some(ps) ==> parts_of(notes_view(notes@), here@, texts(from@), from@.len() as int) == Some(views(ps@)),
        r is None ==> parts_of(notes_view(notes@), here@, texts(from@), from@.len() as int) is None,
{
    let ghost nv = notes_view(notes@);
    let ghost fv = texts(from@);
    let mut out: Vec<Vec<char>> = Vec::new();
    let mut k: usize = 0;
    while k < from.len()
        invariant
            k <= from@.len(),
            nv == notes_view(notes@),
            fv == texts(from@),
            parts_of(nv, here@, fv, k as int) == Some(views(out@)),
        decreases from.len() - k,
    {
        let name = crate::chat::change::own_name_chars(&chars_of(from[k].as_str()));
        assert(fv[k as int] == from@[k as int]@);
        match find_note(notes, here, &name) {
            None => {
                assert(parts_of(nv, here@, fv, k + 1) is None);
                let mut j: usize = k + 1;
                while j < from.len()
                    invariant
                        k + 1 <= j <= from@.len(),
                        parts_of(nv, here@, fv, j as int) is None,
                    decreases from.len() - j,
                {
                    j = j + 1;
                }
                return None;
            },
            Some(i) => {
                assert(nv[i as int] == notes@[i as int]@);
                let mut ls: Vec<Vec<char>> = Vec::new();
                let mut m: usize = 0;
                while m < notes[i].lines.len()
                    invariant
                        m <= notes@[i as int].lines@.len(),
                        i < notes@.len(),
                        views(ls@) == texts(notes@[i as int].lines@).take(m as int),
                    decreases notes@[i as int].lines@.len() - m,
                {
                    let ghost before = views(ls@);
                    assert(texts(notes@[i as int].lines@)[m as int] == notes@[i as int].lines@[m as int]@);
                    ls.push(chars_of(notes[i].lines[m].as_str()));
                    assert(views(ls@) =~= before.push(texts(notes@[i as int].lines@)[m as int]));
                    assert(views(ls@) =~= texts(notes@[i as int].lines@).take(m + 1));
                    m = m + 1;
                }
                assert(texts(notes@[i as int].lines@).take(m as int) =~= nv[i as int].2);
                let whole = joined(&ls, &chars_of("\n"));
                let ghost before = views(out@);
                out.push(whole);
                assert(views(out@) =~= before.push(join(nv[i as int].2, "\n"@)));
            },
        }
        k = k + 1;
    }
    Some(out)
}

/// The notes a merge folds in, taken away, each but the one merged into, as
/// far as it is still there.
fn removals(from: &Vec<String>, named: &Vec<char>, standing: Vec<Vec<char>>) -> (r: Vec<Step>)
    ensures
        steps_view(r@) == removals_of(texts(from@), named@, views(standing@), from@.len() as int).0,
{
    let ghost fv = texts(from@);
    let ghost start = views(standing@);
    let mut left = standing;
    let mut out: Vec<Step> = Vec::new();
    let mut k: usize = 0;
    while k < from.len()
        invariant
            k <= from@.len(),
            fv == texts(from@),
            removals_of(fv, named@, start, k as int) == (steps_view(out@), views(left@)),
        decreases from.len() - k,
    {
        let name = chars_of(from[k].as_str());
        assert(fv[k as int] == name@);
        let own = crate::chat::change::own_name_chars(&name);
        if !same(&own, named) {
            let at = first_in(&left, &own);
            if at < left.len() {
                let ghost lv = views(left@);
                left.remove(at);
                assert(views(left@) =~= lv.remove(at as int));
                let ghost sv = steps_view(out@);
                let gone = Step::Remove(string_of(&own));
                out.push(gone);
                assert(steps_view(out@) =~= sv.push(StepView::Remove(own@)));
            }
        }
        k = k + 1;
    }
    out
}

/// What accepting a change does, for the notes open, in project `here`
/// with note `open` in front: the steps to take, in order, what the status
/// line says, and the note to be looking at after.
pub fn apply_change(notes: &[NoteText], here: &str, open: &str, change: &Change) -> (r: Applied)
    ensures
        r@ == applied_of(notes_view(notes@), here@, open@, change@),
{
    let folder = Folder { project: String::from_str(here), here: String::from_str(open), files: Vec::new() };
    match change.misplaced(&folder) {
        Some(p) => {
            let mut s = chars_of("THAT NOTE IS IN ");
            push_str(&mut s, p.as_str());
            push_str(&mut s, " - OPEN IT TO CHANGE IT");
            let status = uppercase(string_of(&s).as_str());
            let steps: Vec<Step> = Vec::new();
            assert(steps_view(steps@) =~= Seq::<StepView>::empty());
            return Applied { steps, status, focus: None };
        },
        None => {},
    }
    let hv = chars_of(here);
    let named = match &change.file {
        Some(f) => crate::chat::change::own_name_chars(&chars_of(f.as_str())),
        None => chars_of(open),
    };
    let found = find_note(notes, &hv, &named);
    let ghost nv = notes_view(notes@);
    match &change.what {
        What::Lay { text } => write_note(notes, &hv, &named, &chars_of(text.as_str()), true),
        What::Write { text } => write_note(notes, &hv, &named, &chars_of(text.as_str()), false),
        What::Delete => match found {
            Some(_) => one_step(Step::Remove(string_of(&named)), shouted("DELETED ", &named), None),
            None => refused("THAT FILE IS NOT THERE"),
        },
        What::Insert { after, text } => match found {
            None => refused("THAT FILE IS NOT THERE"),
            Some(i) => {
                assert(nv[i as int] == notes@[i as int]@);
                let count = notes[i].lines.len();
                if *after > count && *after - count > 1 {
                    refused("THAT LINE IS NOT THERE")
                } else {
                    let at = if *after < count {
                        *after
                    } else {
                        count
                    };
                    one_step(
                        Step::Insert(string_of(&named), at, split_text(&chars_of(text.as_str()))),
                        String::from_str("APPLIED"),
                        Some(string_of(&named)),
                    )
                }
            },
        },
        What::Edit { from, to, text } => match found {
            None => refused("THAT FILE IS NOT THERE"),
            Some(i) => {
                assert(nv[i as int] == notes@[i as int]@);
                let count = notes[i].lines.len();
                if *from == 0 || *from - 1 > count || *to < *from {
                    refused("THOSE LINES ARE NOT THERE")
                } else {
                    let first = *from - 1;
                    let last = if first < count {
                        let end = if *to < count {
                            *to
                        } else {
                            count
                        };
                        Some(if end > 0 {
                            end - 1
                        } else {
                            0
                        })
                    } else {
                        None
                    };
                    let fresh = if chars_of(text.as_str()).len() == 0 {
                        let v: Vec<String> = Vec::new();
                        assert(texts(v@) =~= Seq::<Seq<char>>::empty());
                        v
                    } else {
                        split_text(&chars_of(text.as_str()))
                    };
                    one_step(
                        Step::Splice(string_of(&named), first, last, fresh),
                        String::from_str("APPLIED"),
                        Some(string_of(&named)),
                    )
                }
            },
        },
        What::Merge { from, text } => match merge_parts(notes, &hv, from) {
            None => refused("SOME OF THOSE FILES ARE NOT THERE"),
            Some(parts) => {
                let body = if chars_of(text.as_str()).len() == 0 {
                    joined(&parts, &chars_of("\n\n"))
                } else {
                    chars_of(text.as_str())
                };
                let written = write_note(notes, &hv, &named, &body, false);
                let mut standing = names_in(notes, &hv);
                let ghost names = views(standing@);
                if first_in(&standing, &named) >= standing.len() {
                    let copy = string_of(&named);
                    standing.push(chars_of(copy.as_str()));
                    assert(views(standing@) =~= names.push(named@));
                }
                assert(views(standing@) == (if names.contains(named@) {
                    names
                } else {
                    names.push(named@)
                }));
                assert(texts(from@) == change@.what->Merge_from);
                let gone = removals(from, &named, standing);
                let mut steps = written.steps;
                let ghost sv = steps_view(steps@);
                let mut g = gone;
                steps.append(&mut g);
                assert(steps_view(steps@) =~= sv + steps_view(gone@));
                Applied { steps, status: shouted("MERGED INTO ", &named), focus: Some(string_of(&named)) }
            },
        },
    }
}
/// What a step does to the lines of the note it names: a rewrite puts its
/// lines in place of all of them; a new note says its text; an insert puts
/// its lines in before line `at`; a splice takes out the lines from `first`
/// to the one given, when one is given, and puts its own in their place.
/// Taking a note away is the list's business, and leaves its lines alone.
pub open spec fn lines_after(lines: Seq<Seq<char>>, s: StepView) -> Seq<Seq<char>> {
    match s {
        StepView::Rewrite(_, ls) => ls,
        StepView::Create(_, t) => split_lines(t),
        StepView::Remove(_) => lines,
        StepView::Insert(_, at, ls) => lines.take(at) + ls + lines.skip(at),
        StepView::Splice(_, first, last, ls) => lines.take(first) + ls + match last {
            Some(l) => lines.skip(l + 1),
            None => lines.skip(first),
        },
    }
}

/// Whether a step's line numbers fall on a note of `count` lines.
pub open spec fn fits(count: int, s: StepView) -> bool {
    match s {
        StepView::Insert(_, at, _) => 0 <= at <= count,
        StepView::Splice(_, first, last, _) => 0 <= first <= count && match last {
            Some(l) => first <= l < count,
            None => true,
        },
        _ => true,
    }
}

/// These strings, copied.
fn copied(v: &Vec<String>) -> (r: Vec<String>)
    ensures
        texts(r@) == texts(v@),
{
    let mut out: Vec<String> = Vec::new();
    let mut i: usize = 0;
    while i < v.len()
        invariant
            i <= v@.len(),
            texts(out@) == texts(v@).take(i as int),
        decreases v.len() - i,
    {
        let ghost before = texts(out@);
        let c = v[i].clone();
        assert(c@ == texts(v@)[i as int]);
        out.push(c);
        assert(texts(out@) =~= before.push(c@));
        assert(texts(out@) =~= texts(v@).take(i + 1));
        i = i + 1;
    }
    assert(texts(v@).take(v@.len() as int) =~= texts(v@));
    out
}

/// The lines from `from` up to `to`, copied after these.
fn copy_span(out: &mut Vec<String>, v: &Vec<String>, from: usize, to: usize)
    requires
        from <= to <= v@.len(),
    ensures
        texts(final(out)@) == texts(old(out)@) + texts(v@).subrange(from as int, to as int),
{
    let ghost start = texts(out@);
    let mut i: usize = from;
    while i < to
        invariant
            from <= i <= to <= v@.len(),
            texts(out@) == start + texts(v@).subrange(from as int, i as int),
        decreases to - i,
    {
        let ghost before = texts(out@);
        let c = v[i].clone();
        assert(c@ == texts(v@)[i as int]);
        out.push(c);
        assert(texts(out@) =~= before.push(c@));
        assert(texts(out@) =~= start + texts(v@).subrange(from as int, i + 1));
        i = i + 1;
    }
}

/// Does a step to the lines of the note it names.
pub fn carry_out(lines: &mut Vec<String>, step: &Step)
    requires
        fits(old(lines)@.len() as int, step@),
    ensures
        texts(final(lines)@) == lines_after(texts(old(lines)@), step@),
{
    let ghost l0 = texts(lines@);
    match step {
        Step::Rewrite(_, ls) => {
            *lines = copied(ls);
        },
        Step::Create(_, t) => {
            *lines = split_text(&chars_of(t.as_str()));
        },
        Step::Remove(_) => {},
        Step::Insert(_, at, ls) => {
            let mut out: Vec<String> = Vec::new();
            copy_span(&mut out, lines, 0, *at);
            copy_span(&mut out, ls, 0, ls.len());
            let n = lines.len();
            copy_span(&mut out, lines, *at, n);
            assert(texts(ls@).subrange(0, ls@.len() as int) =~= texts(ls@));
            assert(texts(out@) =~= l0.take(*at as int) + texts(ls@) + l0.skip(*at as int));
            *lines = out;
        },
        Step::Splice(_, first, last, ls) => {
            let mut out: Vec<String> = Vec::new();
            copy_span(&mut out, lines, 0, *first);
            copy_span(&mut out, ls, 0, ls.len());
            let n = lines.len();
            let rest = match last {
                Some(l) => *l + 1,
                None => *first,
            };
            copy_span(&mut out, lines, rest, n);
            assert(texts(ls@).subrange(0, ls@.len() as int) =~= texts(ls@));
            assert(texts(out@) =~= lines_after(l0, step@));
            *lines = out;
        },
    }
}

/// An edit accepted puts its text in place of the lines it names, as far
/// as there are: the lines before `from` stay, then the text's lines (none
/// for no text), then those after `to`; the status says it is applied,
/// and the note edited is the one in front after.
pub proof fn law_an_edit_puts_its_text_in_place_of_its_lines(
    notes: Seq<(Seq<char>, Seq<char>, Seq<Seq<char>>)>,
    here: Seq<char>,
    open: Seq<char>,
    c: crate::chat::change::Proposal,
    i: int,
)
    requires
        misplaced_of(c, here) is None,
        c.what matches Offer::Edit { from, to, .. } && 1 <= from <= notes[i].2.len() + 1 && from <= to,
        note_at(notes, here, match c.file {
            Some(f) => own_name_of(f),
            None => open,
        }, 0) == Some(i),
    ensures
        ({
            let r = applied_of(notes, here, open, c);
            let named = match c.file {
                Some(f) => own_name_of(f),
                None => open,
            };
            let lines = notes[i].2;
            let n = lines.len() as int;
            c.what matches Offer::Edit { from, to, text } && {
                let fresh = if text.len() == 0 {
                    Seq::<Seq<char>>::empty()
                } else {
                    split_lines(text)
                };
                let end = if to < n {
                    to as int
                } else {
                    n
                };
                &&& r.0.len() == 1
                &&& fits(n, r.0[0])
                &&& lines_after(lines, r.0[0]) == lines.take(from - 1) + fresh + lines.skip(end)
                &&& r.1 == "APPLIED"@
                &&& r.2 == Some(named)
            }
        }),
{
    reveal_strlit("APPLIED");
    let lines = notes[i].2;
    let n = lines.len() as int;
    if let Offer::Edit { from, to, text } = c.what {
        let first = from - 1;
        if first < n {
        } else {
            assert(lines.skip(first as int) =~= lines.skip(n));
        }
    }
}

/// The notes of project `here`, from the `i`th on, as the files a
/// conversation about it sees: each one's name and lines, in order.
pub open spec fn project_files(notes: Seq<(Seq<char>, Seq<char>, Seq<Seq<char>>)>, here: Seq<char>, i: int) -> Seq<(Seq<char>, Seq<Seq<char>>)>
    decreases notes.len() - i,
{
    if i < 0 || i >= notes.len() {
        seq![]
    } else if notes[i].0 == here {
        seq![(notes[i].1, notes[i].2)] + project_files(notes, here, i + 1)
    } else {
        project_files(notes, here, i + 1)
    }
}

/// Each note of the project is named by its own name, with no folder in
/// front of it.
pub open spec fn named_plainly(notes: Seq<(Seq<char>, Seq<char>, Seq<Seq<char>>)>, here: Seq<char>) -> bool {
    forall|k: int| 0 <= k < notes.len() && notes[k].0 == here ==> own_name_of(#[trigger] notes[k].1) == notes[k].1
}

proof fn lemma_note_at_is_lookup(notes: Seq<(Seq<char>, Seq<char>, Seq<Seq<char>>)>, here: Seq<char>, want: Seq<char>, i: int)
    requires
        0 <= i <= notes.len(),
        named_plainly(notes, here),
    ensures
        match note_at(notes, here, want, i) {
            Some(j) => 0 <= j < notes.len() && lookup(project_files(notes, here, i), want) == Some(notes[j].2),
            None => lookup(project_files(notes, here, i), want) is None,
        },
    decreases notes.len() - i,
{
    if i < notes.len() {
        lemma_note_at_is_lookup(notes, here, want, i + 1);
        if notes[i].0 == here {
            let rest = project_files(notes, here, i + 1);
            let all = seq![(notes[i].1, notes[i].2)] + rest;
            assert(all.drop_first() =~= rest);
            assert(own_name_of(notes[i].1) == notes[i].1);
        }
    }
}

proof fn lemma_parts_there(notes: Seq<(Seq<char>, Seq<char>, Seq<Seq<char>>)>, here: Seq<char>, f: Folder, from: Seq<Seq<char>>, k: int)
    requires
        0 <= k <= from.len(),
        named_plainly(notes, here),
        f.files_of() == project_files(notes, here, 0),
        all_there(f, from),
    ensures
        parts_of(notes, here, from, k) is Some,
    decreases k,
{
    if k > 0 {
        lemma_parts_there(notes, here, f, from, k - 1);
        assert(f.lines_for(Some(from[k - 1])) is Some);
        lemma_note_at_is_lookup(notes, here, own_name_of(from[k - 1]), 0);
    }
}

/// What the conversation offers to make, accepting makes: when the files it
/// sees are the notes of this project, each by its own name, a change that
/// it finds something to act on is not refused, and comes to at least one
/// step.
pub proof fn law_what_is_offered_is_not_refused(
    notes: Seq<(Seq<char>, Seq<char>, Seq<Seq<char>>)>,
    here: Seq<char>,
    open: Seq<char>,
    c: crate::chat::change::Proposal,
    f: Folder,
)
    requires
        f@.project == here,
        f@.here == open,
        f.files_of() == project_files(notes, here, 0),
        named_plainly(notes, here),
        replacing_of(c, f) is Some,
    ensures
        applied_of(notes, here, open, c).0.len() > 0,
{
    let named = match c.file {
        Some(fl) => own_name_of(fl),
        None => open,
    };
    lemma_note_at_is_lookup(notes, here, named, 0);
    assert(f.lines_for(c.file) == lookup(project_files(notes, here, 0), named));
    if let Offer::Merge { from, text } = c.what {
        lemma_parts_there(notes, here, f, from, from.len() as int);
    }
}

} // verus!
