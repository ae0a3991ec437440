//! Choosing a note to open, or a name to save one under.
//!
//! The dialog lists a folder - its folders first, then its notes, each group
//! in alphabetical order whatever the case - and walks it from the keyboard.
//! Reading the folder is the application's part: it hands the dialog what it
//! found, and the dialog decides what to show and what a choice means.
use std::path::PathBuf;
use vstd::prelude::*;

use crate::digest::{lemma_lex_total, lemma_lex_trans, lex_le, lex_le_chars};
use crate::strs::{
    chars_of, has_ch, has_char, occurs_at, lower, lower_of, push_str, rfind, rfind_in, lemma_rfind, same,
    slice, string_of, trim, trimmed, upper, upper_of,
};

verus! {

broadcast use vstd::seq_lib::group_to_multiset_ensures;

/// Whether the dialog opens a note or saves one.
#[derive(Clone, Copy, PartialEq, Eq, Debug, Structural)]
pub enum DialogKind {
    Open,
    Save,
}

/// What the dialog decided.
#[derive(Clone, Debug, PartialEq, Eq)]
pub enum DialogResult {
    Open(PathBuf),
    Save(PathBuf),
    Cancel,
}

/// One row of the listing.
pub struct Entry {
    pub label: String,
    pub path: PathBuf,
    pub is_dir: bool,
}

impl View for Entry {
    type V = (Seq<char>, PathBuf, bool);

    open spec fn view(&self) -> (Seq<char>, PathBuf, bool) {
        (self.label@, self.path, self.is_dir)
    }
}

/// Each row.
pub open spec fn entry_views(v: Seq<Entry>) -> Seq<(Seq<char>, PathBuf, bool)> {
    v.map_values(|e: Entry| e@)
}

/// What the application found in a folder: a name, its path, and whether it
/// is a folder itself.
pub struct Listed {
    pub name: String,
    pub path: PathBuf,
    pub is_dir: bool,
}

impl View for Listed {
    type V = (Seq<char>, PathBuf, bool);

    open spec fn view(&self) -> (Seq<char>, PathBuf, bool) {
        (self.name@, self.path, self.is_dir)
    }
}

/// Each thing found.
pub open spec fn listed_views(v: Seq<Listed>) -> Seq<(Seq<char>, PathBuf, bool)> {
    v.map_values(|e: Listed| e@)
}

/// A key the dialog acts on.
#[derive(Clone, Copy, PartialEq, Eq, Debug)]
pub enum DialogKey {
    Escape,
    Enter,
    Down,
    Up,
    Char(char),
}

/// The dialog: what it is for, the folder it shows and its rows, the row
/// selected, the name typed, what went wrong, and whether it opened this
/// frame.
pub struct FileDialog {
    pub kind: DialogKind,
    dir: PathBuf,
    entries: Vec<Entry>,
    selected: usize,
    pub filename: String,
    error: Option<String>,
    fresh: bool,
    /// The folder changed and its rows are still to be read.
    stale: bool,
}

/// The dialog's state, with its rows and texts as values.
pub struct DialogView {
    pub kind: DialogKind,
    pub dir: PathBuf,
    pub entries: Seq<(Seq<char>, PathBuf, bool)>,
    pub selected: int,
    pub filename: Seq<char>,
    pub error: Option<Seq<char>>,
    pub fresh: bool,
    pub stale: bool,
}

/// An optional text as its characters.
pub open spec fn opt_view(o: Option<String>) -> Option<Seq<char>> {
    match o {
        Some(s) => Some(s@),
        None => None,
    }
}

impl View for FileDialog {
    type V = DialogView;

    closed spec fn view(&self) -> DialogView {
        DialogView {
            kind: self.kind,
            dir: self.dir,
            entries: entry_views(self.entries@),
            selected: self.selected as int,
            filename: self.filename@,
            error: opt_view(self.error),
            fresh: self.fresh,
            stale: self.stale,
        }
    }
}

// ------------------------------------------------------------ the listing

/// A hidden name: one that starts with a dot.
pub open spec fn hidden(name: Seq<char>) -> bool {
    name.len() > 0 && name[0] == '.'
}

/// The extension of a file name, as `Path::extension` documents it: what
/// follows the last dot, when there is a dot that does not begin the name.
pub open spec fn extension_of(name: Seq<char>) -> Option<Seq<char>> {
    match rfind(name, seq!['.']) {
        Some(k) => if k > 0 {
            Some(name.skip(k + 1))
        } else {
            None
        },
        None => None,
    }
}

/// A file the dialog lists: a note or a text.
pub open spec fn note_file(name: Seq<char>) -> bool {
    match extension_of(name) {
        Some(e) => e == "md"@ || e == "txt"@,
        None => false,
    }
}

/// The folders among the first `n` things found, each labelled with a slash.
pub open spec fn dirs_of(found: Seq<(Seq<char>, PathBuf, bool)>, n: int) -> Seq<(Seq<char>, PathBuf, bool)>
    decreases n,
{
    if n <= 0 {
        seq![]
    } else {
        let f = found[n - 1];
        dirs_of(found, n - 1) + if !hidden(f.0) && f.2 {
            seq![(f.0 + "/"@, f.1, true)]
        } else {
            seq![]
        }
    }
}

/// The notes among the first `n` things found.
pub open spec fn files_of(found: Seq<(Seq<char>, PathBuf, bool)>, n: int) -> Seq<(Seq<char>, PathBuf, bool)>
    decreases n,
{
    if n <= 0 {
        seq![]
    } else {
        let f = found[n - 1];
        files_of(found, n - 1) + if !hidden(f.0) && !f.2 && note_file(f.0) {
            seq![(f.0, f.1, false)]
        } else {
            seq![]
        }
    }
}

/// The row that leads up a folder, when there is one above.
pub open spec fn up_row(parent: Option<PathBuf>) -> Seq<(Seq<char>, PathBuf, bool)> {
    match parent {
        Some(p) => seq![("../"@, p, true)],
        None => seq![],
    }
}

/// Whether rows are in alphabetical order whatever the case.
pub open spec fn in_order(v: Seq<(Seq<char>, PathBuf, bool)>) -> bool {
    forall|i: int, j: int| 0 <= i < j < v.len() ==> lex_le(lower_of(#[trigger] v[i].0), lower_of(#[trigger] v[j].0))
}

/// The rows in alphabetical order whatever the case.
fn sorted_rows(v: Vec<Entry>) -> (r: Vec<Entry>)
    ensures
        in_order(entry_views(r@)),
        entry_views(r@).to_multiset() == entry_views(v@).to_multiset(),
{
    let mut out: Vec<Entry> = Vec::new();
    let mut keys: Vec<Vec<char>> = Vec::new();
    let mut rest = v;
    let ghost all = entry_views(rest@);
    let total = rest.len();
    let mut i: usize = 0;
    while rest.len() > 0
        invariant
            i + rest@.len() == all.len(),
            all.len() == total,
            entry_views(rest@) == all.skip(i as int),
            keys@.len() == out@.len(),
            forall|k: int| 0 <= k < keys@.len() ==> #[trigger] keys@[k]@ == lower_of(out@[k].label@),
            in_order(entry_views(out@)),
            entry_views(out@).to_multiset() == all.take(i as int).to_multiset(),
        decreases rest.len(),
    {
        let ghost rv = entry_views(rest@);
        let ghost whole = rest@;
        let e = rest.remove(0);
        assert(rest@ =~= whole.drop_first());
        assert(entry_views(rest@) =~= rv.drop_first());
        assert(rv[0] == whole[0]@);
        assert(all.skip(i as int)[0] == all[i as int]);
        assert(e@ == all[i as int]);
        let key = lower(&chars_of(e.label.as_str()));
        let mut p: usize = 0;
        while p < out.len() && lex_le_chars(&keys[p], &key)
            invariant
                p <= out@.len(),
                keys@.len() == out@.len(),
                forall|k: int| 0 <= k < keys@.len() ==> #[trigger] keys@[k]@ == lower_of(out@[k].label@),
                forall|k: int| 0 <= k < p ==> lex_le(lower_of(#[trigger] out@[k].label@), key@),
            decreases out.len() - p,
        {
            p = p + 1;
        }
        let ghost before = entry_views(out@);
        let ghost bo = out@;
        let ghost bk = keys@;
        let ghost ev = e@;
        out.insert(p, e);
        keys.insert(p, key);
        assert(out@ =~= bo.insert(p as int, out@[p as int]));
        assert(keys@ =~= bk.insert(p as int, keys@[p as int]));
        assert(entry_views(out@) =~= before.insert(p as int, ev));
        assert(entry_views(out@).to_multiset() =~= before.to_multiset().insert(ev));
        proof {
            if p < before.len() {
                assert(bk[p as int]@ == lower_of(before[p as int].0));
                lemma_lex_total(lower_of(before[p as int].0), lower_of(ev.0));
            }
            assert forall|a: int, b: int| 0 <= a < b < entry_views(out@).len() implies lex_le(
                lower_of(#[trigger] entry_views(out@)[a].0),
                lower_of(#[trigger] entry_views(out@)[b].0),
            ) by {
                let s = entry_views(out@);
                assert(forall|k: int| 0 <= k < before.len() ==> #[trigger] before[k].0 == bo[k].label@);
                if b < p {
                    assert(s[a] == before[a] && s[b] == before[b]);
                } else if b == p {
                    assert(s[a] == before[a]);
                    assert(lex_le(lower_of(bo[a].label@), lower_of(ev.0)));
                } else if a == p {
                    assert(s[b] == before[b - 1]);
                    if b - 1 > p {
                        lemma_lex_trans(lower_of(ev.0), lower_of(before[p as int].0), lower_of(before[b - 1].0));
                    }
                } else if a < p {
                    assert(s[a] == before[a] && s[b] == before[b - 1]);
                } else {
                    assert(s[a] == before[a - 1] && s[b] == before[b - 1]);
                }
            }
            assert(all.take(i + 1) =~= all.take(i as int).push(all[i as int]));
            assert(all.skip(i + 1) =~= all.skip(i as int).drop_first());
        }
        i = i + 1;
    }
    assert(all.take(all.len() as int) =~= all);
    out
}

/// Whether a file name ends in `.md` or `.txt`, by its last dot.
fn is_note_file(name: &[char]) -> (r: bool)
    ensures
        r == note_file(name@),
{
    let dot = vec!['.'];
    let n = name.len();
    assert(dot@ =~= seq!['.']);
    match rfind_in(name, &dot) {
        Some(k) => {
            proof {
                lemma_rfind(name@, dot@);
                assert(occurs_at(name@, dot@, k as int));
                assert(dot@.len() == 1);
                assert(k + 1 <= name@.len());
            }
            if k > 0 {
                let e = slice(name, k + 1, n);
                assert(e@ =~= name@.skip(k + 1));
                let md = chars_of("md");
                let txt = chars_of("txt");
                same(&e, &md) || same(&e, &txt)
            } else {
                false
            }
        },
        None => false,
    }
}

/// The dialog's state once its rows have been read: the row up, when the
/// folder has a parent; then, when the folder could be read, its folders and
/// then its notes, each group in order whatever the case; or, when it could
/// not, what went wrong.
pub open spec fn listed_as(
    d: DialogView,
    parent: Option<PathBuf>,
    read: Result<Seq<(Seq<char>, PathBuf, bool)>, Seq<char>>,
    dirs: Seq<(Seq<char>, PathBuf, bool)>,
    files: Seq<(Seq<char>, PathBuf, bool)>,
) -> bool {
    &&& d.selected == 0
    &&& !d.stale
    &&& match read {
        Ok(found) => {
            &&& d.entries == up_row(parent) + dirs + files
            &&& in_order(dirs)
            &&& in_order(files)
            &&& dirs.to_multiset() == dirs_of(found, found.len() as int).to_multiset()
            &&& files.to_multiset() == files_of(found, found.len() as int).to_multiset()
            &&& d.error is None
        },
        Err(why) => {
            &&& d.entries == up_row(parent)
            &&& d.error == Some("CANNOT READ DIR: "@ + why)
        },
    }
}

/// What was read, as values.
pub open spec fn read_view(read: Result<Vec<Listed>, String>) -> Result<Seq<(Seq<char>, PathBuf, bool)>, Seq<char>> {
    match read {
        Ok(v) => Ok(listed_views(v@)),
        Err(e) => Err(e@),
    }
}

/// What `Path::parent` gives of a path: the path without its last
/// component, or nothing for a root, a prefix or an empty path. Worked out
/// from the path's components, which this does not restate.
pub uninterp spec fn parent_path(dir: PathBuf) -> Option<PathBuf>;

/// `Path::parent` of the folder, as an owned path. Claimed: the result is
/// the named parent of the path, and depends on nothing else.
#[verifier::external_body]
fn parent_of(dir: &PathBuf) -> (r: Option<PathBuf>)
    ensures
        r == parent_path(*dir),
{
    dir.parent().map(|p| p.to_path_buf())
}

/// What `Path::join` gives of a folder and a name: the name under the
/// folder, or the name itself when it is absolute. Worked out from the
/// paths' components, which this does not restate.
pub uninterp spec fn joined_of(dir: PathBuf, name: Seq<char>) -> PathBuf;

/// `Path::join`: a name under the folder. Claimed: the result is the named
/// join of the folder and the name, and depends on nothing else.
#[verifier::external_body]
pub(crate) fn joined_path(dir: &PathBuf, name: &str) -> (r: PathBuf)
    ensures
        r == joined_of(*dir, name@),
{
    dir.join(name)
}

/// The shortened path written out, for the line above the listing.
pub open spec fn shortened_of(path: Seq<char>, max: nat) -> Seq<char> {
    if path.len() <= max {
        upper_of(path)
    } else {
        let k = path.len() - max + 3;
        upper_of("..."@ + if k <= path.len() {
            path.skip(k)
        } else {
            seq![]
        })
    }
}

/// A path kept to `max` characters by cutting its front, in capitals.
pub fn shorten_path(path: &str, max: usize) -> (r: String)
    ensures
        r@ == shortened_of(path@, max as nat),
{
    let v = chars_of(path);
    let n = v.len();
    if n <= max {
        return string_of(&upper(&v));
    }
    let mut out = chars_of("...");
    if max >= 3 {
        let k = n - (max - 3);
        let tail = slice(&v, k, n);
        assert(tail@ =~= v@.skip(k as int));
        crate::strs::push_all(&mut out, &tail);
    }
    string_of(&upper(&out))
}

/// The name a note is saved under: what is typed, trimmed, with `.md` after
/// it when it has no dot; nothing, when nothing is typed.
pub open spec fn saved_name(filename: Seq<char>) -> Option<Seq<char>> {
    let name = trim(filename);
    if name.len() == 0 {
        None
    } else if has_char(name, '.') {
        Some(name)
    } else {
        Some(name + ".md"@)
    }
}

/// Going into row `index`: a folder is shown instead, its rows still to be
/// read; a note is opened, or its name taken when saving; nothing, past the
/// end.
pub open spec fn entered_of(d: DialogView, index: int) -> (DialogView, Option<DialogResult>) {
    if index < 0 || index >= d.entries.len() {
        (d, None)
    } else {
        let e = d.entries[index];
        if e.2 {
            (DialogView { dir: e.1, entries: seq![], selected: 0, stale: true, ..d }, None)
        } else if d.kind == DialogKind::Open {
            (d, Some(DialogResult::Open(e.1)))
        } else {
            (DialogView { filename: e.0, ..d }, None)
        }
    }
}

/// Acting on what was chosen: opening the selected row, or saving under
/// the name typed, in the folder; or saying that a name is needed.
pub open spec fn confirmed_of(d: DialogView) -> (DialogView, Option<DialogResult>) {
    match d.kind {
        DialogKind::Open => entered_of(d, d.selected),
        DialogKind::Save => match saved_name(d.filename) {
            None => (DialogView { error: Some("NAME REQUIRED"@), ..d }, None),
            Some(n) => (d, Some(DialogResult::Save(joined_of(d.dir, n)))),
        },
    }
}

/// The selection moved one row down, round from the end.
pub open spec fn down_of(d: DialogView) -> DialogView {
    DialogView {
        selected: if d.entries.len() > 0 {
            (d.selected + 1) % (d.entries.len() as int)
        } else {
            d.selected
        },
        ..d
    }
}

/// The selection moved one row up, round from the top.
pub open spec fn up_row_of(d: DialogView) -> DialogView {
    DialogView {
        selected: if d.entries.len() > 0 {
            (d.selected + d.entries.len() - 1) % (d.entries.len() as int)
        } else {
            d.selected
        },
        ..d
    }
}

/// One key: Escape cancels, Enter confirms, Down and Up - and `j` and `k`
/// when no name is being typed - walk the rows; any other key does nothing.
pub open spec fn key_of(d: DialogView, key: DialogKey) -> (DialogView, Option<DialogResult>) {
    match key {
        DialogKey::Escape => (d, Some(DialogResult::Cancel)),
        DialogKey::Enter => confirmed_of(d),
        DialogKey::Down => (down_of(d), None),
        DialogKey::Up => (up_row_of(d), None),
        DialogKey::Char(c) => if c == 'j' && d.kind == DialogKind::Open {
            (down_of(d), None)
        } else if c == 'k' && d.kind == DialogKind::Open {
            (up_row_of(d), None)
        } else {
            (d, None)
        },
    }
}

/// The first `n` keys, in order: Escape answers Cancel and Enter answers
/// what confirming gives, each in place of what came before; the others
/// leave the answer as it was.
pub open spec fn keys_of(d: DialogView, keys: Seq<DialogKey>, n: int) -> (DialogView, Option<DialogResult>)
    decreases n,
{
    if n <= 0 {
        (d, None)
    } else {
        let (d1, r1) = keys_of(d, keys, n - 1);
        let (d2, r2) = key_of(d1, keys[n - 1]);
        (d2, if keys[n - 1] is Escape || keys[n - 1] is Enter {
            r2
        } else {
            r1
        })
    }
}

/// A row clicked: a second click on the selected row goes into it, and a
/// click on another selects it.
pub open spec fn clicked_of(d: DialogView, i: int) -> (DialogView, Option<DialogResult>) {
    if d.selected == i {
        entered_of(d, i)
    } else {
        (DialogView { selected: i, ..d }, None)
    }
}

/// UP: the folder above, its rows still to be read; nothing, at the top.
pub open spec fn gone_up_of(d: DialogView) -> DialogView {
    match parent_path(d.dir) {
        Some(p) => DialogView { dir: p, entries: seq![], selected: 0, stale: true, ..d },
        None => d,
    }
}

/// What was done with the pointer in a frame: a row clicked, and which of
/// UP, CANCEL and OPEN or SAVE were pressed.
pub struct DialogClicks {
    pub row: Option<usize>,
    pub up: bool,
    pub cancel: bool,
    pub confirm: bool,
}

/// A frame of the dialog. On the frame it opens no key is acted on, so the
/// key that opened it does not also act in it; after that the keys are
/// taken in order, and an answer from them ends the frame. Else a row
/// clicked, then UP, then CANCEL, then OPEN or SAVE, each later answer in
/// place of an earlier one.
pub open spec fn frame_of(d: DialogView, keys: Seq<DialogKey>, c: DialogClicks) -> (DialogView, Option<DialogResult>) {
    let (d1, r1) = if d.fresh {
        (DialogView { fresh: false, ..d }, None)
    } else {
        keys_of(d, keys, keys.len() as int)
    };
    if r1 is Some {
        (d1, r1)
    } else {
        let (d2, r2) = match c.row {
            Some(i) => clicked_of(d1, i as int),
            None => (d1, None),
        };
        let d3 = if c.up {
            gone_up_of(d2)
        } else {
            d2
        };
        let r3 = if c.cancel {
            Some(DialogResult::Cancel)
        } else {
            r2
        };
        if c.confirm {
            confirmed_of(d3)
        } else {
            (d3, r3)
        }
    }
}

impl FileDialog {
    /// A dialog on a folder whose rows are still to be read.
    pub fn new(kind: DialogKind, dir: PathBuf, filename: &str) -> (r: Self)
        ensures
            r@ == (DialogView {
                kind,
                dir,
                entries: seq![],
                selected: 0,
                filename: filename@,
                error: None,
                fresh: true,
                stale: true,
            }),
    {
        let d = FileDialog {
            kind,
            dir,
            entries: Vec::new(),
            selected: 0,
            filename: String::from_str(filename),
            error: None,
            fresh: true,
            stale: true,
        };
        assert(entry_views(d.entries@) =~= Seq::<(Seq<char>, PathBuf, bool)>::empty());
        d
    }

    /// The folder shown.
    pub fn dir(&self) -> (r: &PathBuf)
        ensures
            *r == self@.dir,
    {
        &self.dir
    }

    /// The rows shown.
    pub fn entries(&self) -> (r: &[Entry])
        ensures
            entry_views(r@) == self@.entries,
    {
        self.entries.as_slice()
    }

    /// The row selected.
    pub fn selected(&self) -> (r: usize)
        ensures
            r == self@.selected,
    {
        self.selected
    }

    /// What went wrong, if anything did.
    pub fn error(&self) -> (r: Option<String>)
        ensures
            opt_view(r) == self@.error,
    {
        match &self.error {
            Some(e) => Some(e.clone()),
            None => None,
        }
    }

    /// Whether the folder changed and its rows are still to be read.
    pub fn stale(&self) -> (r: bool)
        ensures
            r == self@.stale,
    {
        self.stale
    }

    /// Whether this is the frame the dialog opened on, when keys are not
    /// acted on; true only once.
    pub fn opening(&mut self) -> (r: bool)
        ensures
            r == old(self)@.fresh,
            final(self)@ == (DialogView { fresh: false, ..old(self)@ }),
    {
        let f = self.fresh;
        self.fresh = false;
        f
    }

    /// Take in what was read of the folder, given the folder above it.
    pub fn listed(&mut self, parent: Option<PathBuf>, read: Result<Vec<Listed>, String>)
        ensures
            exists|dirs: Seq<(Seq<char>, PathBuf, bool)>, files: Seq<(Seq<char>, PathBuf, bool)>|
                listed_as(final(self)@, parent, read_view(read), dirs, files),
            final(self)@.kind == old(self)@.kind,
            final(self)@.dir == old(self)@.dir,
            final(self)@.filename == old(self)@.filename,
            final(self)@.fresh == old(self)@.fresh,
    {
        let ghost rv = read_view(read);
        let mut entries: Vec<Entry> = Vec::new();
        let ghost up = up_row(parent);
        match parent {
            Some(p) => {
                entries.push(Entry { label: String::from_str("../"), path: p, is_dir: true });
            },
            None => {},
        }
        assert(entry_views(entries@) =~= up);
        self.selected = 0;
        self.stale = false;
        match read {
            Err(e) => {
                let mut msg = chars_of("CANNOT READ DIR: ");
                crate::strs::push_all(&mut msg, &chars_of(e.as_str()));
                self.error = Some(string_of(&msg));
                self.entries = entries;
                assert(listed_as(self@, parent, rv, seq![], seq![]));
            },
            Ok(found) => {
                let ghost fv = listed_views(found@);
                let mut dirs: Vec<Entry> = Vec::new();
                let mut files: Vec<Entry> = Vec::new();
                let mut rest = found;
                let total = rest.len();
                let mut i: usize = 0;
                assert(entry_views(dirs@) =~= dirs_of(fv, 0));
                assert(entry_views(files@) =~= files_of(fv, 0));
                assert(fv.skip(0) =~= fv);
                while rest.len() > 0
                    invariant
                        i + rest@.len() == fv.len(),
                        fv.len() == total,
                        listed_views(rest@) == fv.skip(i as int),
                        entry_views(dirs@) == dirs_of(fv, i as int),
                        entry_views(files@) == files_of(fv, i as int),
                    decreases rest.len(),
                {
                    let ghost before = listed_views(rest@);
                    let ghost whole = rest@;
                    let f = rest.remove(0);
                    assert(rest@ =~= whole.drop_first());
                    assert(listed_views(rest@) =~= before.drop_first());
                    assert(before[0] == whole[0]@);
                    assert(fv.skip(i as int)[0] == fv[i as int]);
                    assert(f@ == fv[i as int]);
                    let name = chars_of(f.name.as_str());
                    let hid = name.len() > 0 && name[0] == '.';
                    let ghost dv = entry_views(dirs@);
                    let ghost filv = entry_views(files@);
                    if !hid && f.is_dir {
                        let mut label = name;
                        push_str(&mut label, "/");
                        dirs.push(Entry { label: string_of(&label), path: f.path, is_dir: true });
                        assert(entry_views(dirs@) =~= dv.push((fv[i as int].0 + "/"@, fv[i as int].1, true)));
                    } else if !hid && !f.is_dir && is_note_file(&name) {
                        files.push(Entry { label: f.name, path: f.path, is_dir: false });
                        assert(entry_views(files@) =~= filv.push((fv[i as int].0, fv[i as int].1, false)));
                    }
                    proof {
                        assert(fv.skip(i + 1) =~= fv.skip(i as int).drop_first());
                    }
                    i = i + 1;
                }
                let dirs = sorted_rows(dirs);
                let files = sorted_rows(files);
                let ghost ds = entry_views(dirs@);
                let ghost fs = entry_views(files@);
                let ghost head = entry_views(entries@);
                let mut dd = dirs;
                let mut ff = files;
                entries.append(&mut dd);
                assert(entry_views(entries@) =~= head + ds);
                entries.append(&mut ff);
                assert(entry_views(entries@) =~= head + ds + fs);
                self.entries = entries;
                self.error = None;
                assert(listed_as(self@, parent, rv, ds, fs));
            },
        }
    }

    /// Read the folder's parent, for taking in what was read of the folder.
    pub fn parent(&self) -> (r: Option<PathBuf>)
        ensures
            r == parent_path(self@.dir),
    {
        parent_of(&self.dir)
    }

    /// Go into row `index`: a folder is shown instead, its rows still to be
    /// read; a note is opened, or its name taken when saving; nothing, past
    /// the end.
    pub fn enter(&mut self, index: usize) -> (r: Option<DialogResult>)
        ensures
            (final(self)@, r) == entered_of(old(self)@, index as int),
    {
        if index >= self.entries.len() {
            return None;
        }
        let ghost ev = entry_views(self.entries@);
        assert(ev[index as int] == self.entries@[index as int]@);
        let is_dir = self.entries[index].is_dir;
        let path = self.entries[index].path.clone();
        if is_dir {
            self.dir = path;
            self.entries = Vec::new();
            self.selected = 0;
            self.stale = true;
            assert(entry_views(self.entries@) =~= Seq::<(Seq<char>, PathBuf, bool)>::empty());
            return None;
        }
        match self.kind {
            DialogKind::Open => Some(DialogResult::Open(path)),
            DialogKind::Save => {
                self.filename = self.entries[index].label.clone();
                None
            },
        }
    }

    /// Act on what was chosen: open the selected row, or save under the name
    /// typed - with `.md` after it when it has no dot - or say that a name is
    /// needed.
    pub fn confirm(&mut self) -> (r: Option<DialogResult>)
        ensures
            (final(self)@, r) == confirmed_of(old(self)@),
    {
        match self.kind {
            DialogKind::Open => {
                let index = self.selected;
                self.enter(index)
            },
            DialogKind::Save => {
                let mut name = trimmed(&chars_of(self.filename.as_str()));
                if name.len() == 0 {
                    self.error = Some(String::from_str("NAME REQUIRED"));
                    return None;
                }
                if !has_ch(&name, '.') {
                    push_str(&mut name, ".md");
                }
                let s = string_of(&name);
                Some(DialogResult::Save(joined_path(&self.dir, s.as_str())))
            },
        }
    }

    /// One key: Escape cancels, Enter confirms, Down and Up - and `j` and `k`
    /// when no name is being typed - walk the rows round from either end.
    pub fn key(&mut self, key: DialogKey) -> (r: Option<DialogResult>)
        ensures
            (final(self)@, r) == key_of(old(self)@, key),
    {
        let count = self.entries.len();
        let typing = match self.kind {
            DialogKind::Save => true,
            DialogKind::Open => false,
        };
        match key {
            DialogKey::Escape => Some(DialogResult::Cancel),
            DialogKey::Enter => self.confirm(),
            DialogKey::Down => {
                self.step_down(count);
                None
            },
            DialogKey::Up => {
                self.step_up(count);
                None
            },
            DialogKey::Char(c) => {
                if c == 'j' && !typing {
                    self.step_down(count);
                } else if c == 'k' && !typing {
                    self.step_up(count);
                }
                None
            },
        }
    }

    fn step_down(&mut self, count: usize)
        requires
            count == old(self)@.entries.len(),
        ensures
            final(self)@ == (DialogView {
                selected: if count > 0 {
                    (old(self)@.selected + 1) % (count as int)
                } else {
                    old(self)@.selected
                },
                ..old(self)@
            }),
    {
        if count > 0 {
            self.selected = ((self.selected as u128 + 1) % (count as u128)) as usize;
        }
    }

    fn step_up(&mut self, count: usize)
        requires
            count == old(self)@.entries.len(),
        ensures
            final(self)@ == (DialogView {
                selected: if count > 0 {
                    (old(self)@.selected + count - 1) % (count as int)
                } else {
                    old(self)@.selected
                },
                ..old(self)@
            }),
    {
        if count > 0 {
            self.selected = ((self.selected as u128 + count as u128 - 1) % (count as u128)) as usize;
        }
    }

    /// A row clicked: a second click on the selected row goes into it, and a
    /// click on another selects it.
    pub fn click(&mut self, i: usize) -> (r: Option<DialogResult>)
        ensures
            (final(self)@, r) == clicked_of(old(self)@, i as int),
    {
        if self.selected == i {
            self.enter(i)
        } else {
            self.selected = i;
            None
        }
    }

    /// UP: the folder above, its rows still to be read; nothing, at the top.
    pub fn up(&mut self)
        ensures
            final(self)@ == gone_up_of(old(self)@),
    {
        match parent_of(&self.dir) {
            Some(p) => {
                self.dir = p;
                self.entries = Vec::new();
                self.selected = 0;
                self.stale = true;
                assert(entry_views(self.entries@) =~= Seq::<(Seq<char>, PathBuf, bool)>::empty());
            },
            None => {},
        }
    }

    /// A frame: the keys pressed, in order, and what the pointer did; and
    /// what the dialog answers, if anything. No key is acted on the frame
    /// the dialog opens.
    pub fn frame(&mut self, keys: &[DialogKey], clicks: DialogClicks) -> (r: Option<DialogResult>)
        ensures
            (final(self)@, r) == frame_of(old(self)@, keys@, clicks),
    {
        let mut result: Option<DialogResult> = None;
        if self.fresh {
            self.fresh = false;
        } else {
            let ghost d0 = self@;
            let mut i: usize = 0;
            while i < keys.len()
                invariant
                    i <= keys@.len(),
                    (self@, result) == keys_of(d0, keys@, i as int),
                decreases keys.len() - i,
            {
                let k = keys[i];
                let got = self.key(k);
                match k {
                    DialogKey::Escape | DialogKey::Enter => {
                        result = got;
                    },
                    _ => {},
                }
                i = i + 1;
            }
        }
        if result.is_some() {
            return result;
        }
        match clicks.row {
            Some(i) => {
                result = self.click(i);
            },
            None => {},
        }
        if clicks.up {
            self.up();
        }
        if clicks.cancel {
            result = Some(DialogResult::Cancel);
        }
        if clicks.confirm {
            return self.confirm();
        }
        result
    }
}

} // verus!
