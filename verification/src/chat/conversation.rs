//! A conversation about a project: its turns, what is typed, and what the
//! model has been told about the project's files.
use std::path::PathBuf;
use vstd::prelude::*;

use crate::chat::change::{proposals_of, proposals_view, replacing_of, undecided, undecided_of, Change, Folder};
use crate::chat::{lookups, lookups_of, proposals, Outcome};
use crate::chat::{
    copyable, copyable_of, fence_markers, fence_markers_of, manual, manual_of, mine_marker,
    one_line, one_line_of, parse, parse_of, theirs_marker,
};
use crate::digest::{
    byte_len, countable, has_named, named_texts, project, project_files, relisted, relisted_of, since,
    since_of, utf8_len,
};
use crate::llm::{turns_view, unfused, unfused_of, Progress, Reply, Turn};
use crate::strs::{
    chars_of, join, joined, lines, lines_of, push_all, push_str, same, starts_with, string_of,
    texts, trim, trim_end, trimmed, trimmed_end, views,
};

verus! {

/// A conversation.
pub struct Chat {
    /// Where it is filed, once it has been saved.
    pub path: Option<PathBuf>,
    /// The project it belongs to.
    pub project: String,
    /// The file it was opened from, which is the one it is looking at.
    pub focus: String,
    /// What it has been called, if it has been given a name.
    pub name: Option<String>,
    pub turns: Vec<Turn>,
    /// What is being typed.
    pub draft: String,
    /// True while an answer is on its way.
    pub waiting: bool,
    /// What the worker last said about it.
    pub progress: Progress,
    /// The answer as far as it has got, while it is still arriving.
    pub partial: String,
    /// Why the last question failed, if it did.
    pub failed: Option<String>,
    /// Something worth saying that is not a failure - what a command did.
    pub notice: Option<String>,
    /// True on the frame it opens, so the field takes the keyboard.
    grab: bool,
    /// Whether there was a field to type in on the last frame.
    had_field: bool,
    /// True on the frame a completion rewrote the draft.
    retype: bool,
    /// Set by `/web`, and spent by the application on the same frame.
    flip_web: bool,
    /// True when the view should be pinned to the newest turn.
    follow: bool,
    /// Roughly how many tokens the context around the conversation comes to.
    pub overhead: usize,
    /// The one-line-per-note index as the model was last shown it.
    shown_index: String,
    /// The index as the model was last told it, wherever it was told.
    known_index: String,
    /// The project as the model was last shown it, whole.
    front: Vec<(String, String)>,
    /// Everything the model has been told about the project, however told.
    known: Vec<(String, String)>,
    /// What the model's own edits did, waiting to be said.
    done: Vec<String>,
}

/// A conversation, as values.
pub struct ChatView {
    pub path: Option<PathBuf>,
    pub project: Seq<char>,
    pub focus: Seq<char>,
    pub name: Option<Seq<char>>,
    pub turns: Seq<(bool, Seq<char>)>,
    pub draft: Seq<char>,
    pub waiting: bool,
    pub progress: Progress,
    pub partial: Seq<char>,
    pub failed: Option<Seq<char>>,
    pub notice: Option<Seq<char>>,
    pub grab: bool,
    pub had_field: bool,
    pub retype: bool,
    pub flip_web: bool,
    pub follow: bool,
    pub overhead: int,
    pub shown_index: Seq<char>,
    pub known_index: Seq<char>,
    pub front: Seq<(Seq<char>, Seq<char>)>,
    pub known: Seq<(Seq<char>, Seq<char>)>,
    pub done: Seq<Seq<char>>,
}

/// An optional text as its characters.
pub open spec fn opt_chars(o: Option<String>) -> Option<Seq<char>> {
    match o {
        Some(s) => Some(s@),
        None => None,
    }
}

impl View for Chat {
    type V = ChatView;

    closed spec fn view(&self) -> ChatView {
        ChatView {
            path: self.path,
            project: self.project@,
            focus: self.focus@,
            name: opt_chars(self.name),
            turns: turns_view(self.turns@),
            draft: self.draft@,
            waiting: self.waiting,
            progress: self.progress,
            partial: self.partial@,
            failed: opt_chars(self.failed),
            notice: opt_chars(self.notice),
            grab: self.grab,
            had_field: self.had_field,
            retype: self.retype,
            flip_web: self.flip_web,
            follow: self.follow,
            overhead: self.overhead as int,
            shown_index: self.shown_index@,
            known_index: self.known_index@,
            front: named_texts(self.front@),
            known: named_texts(self.known@),
            done: texts(self.done@),
        }
    }
}

/// A fresh conversation's state: nothing said, nothing told.
pub open spec fn fresh_chat(project: Seq<char>, focus: Seq<char>, progress: Progress) -> ChatView {
    ChatView {
        path: None,
        project,
        focus,
        name: None,
        turns: seq![],
        draft: seq![],
        waiting: false,
        progress,
        partial: seq![],
        failed: None,
        notice: None,
        grab: true,
        had_field: false,
        retype: false,
        flip_web: false,
        follow: true,
        overhead: 0,
        shown_index: seq![],
        known_index: seq![],
        front: seq![],
        known: seq![],
        done: seq![],
    }
}

/// The name a filed conversation was given: its first heading line, trimmed,
/// when that has anything in it.
pub open spec fn heading_name(ls: Seq<Seq<char>>) -> Option<Seq<char>>
    decreases ls.len(),
{
    if ls.len() == 0 {
        None
    } else if starts_with(trim(ls[0]), "# "@) {
        let t = trim(trim(ls[0]).skip(2));
        if t.len() > 0 {
            Some(t)
        } else {
            None
        }
    } else {
        heading_name(ls.drop_first())
    }
}

/// What a conversation is called: its name, or the first thing asked in it,
/// shortened, or a new chat's name.
pub open spec fn title_of(name: Option<Seq<char>>, turns: Seq<(bool, Seq<char>)>) -> Seq<char> {
    match name {
        Some(n) => n,
        None => match first_mine(turns, 0) {
            Some(t) => one_line_of(t, 46),
            None => "NEW CHAT"@,
        },
    }
}

/// The first question from `i` on.
pub open spec fn first_mine(turns: Seq<(bool, Seq<char>)>, i: int) -> Option<Seq<char>>
    decreases turns.len() - i,
{
    if i < 0 || i >= turns.len() {
        None
    } else if turns[i].0 {
        Some(turns[i].1)
    } else {
        first_mine(turns, i + 1)
    }
}

/// The first `n` files told of but `file`.
pub open spec fn others(known: Seq<(Seq<char>, Seq<char>)>, file: Seq<char>, n: int) -> Seq<(Seq<char>, Seq<char>)>
    decreases n,
{
    if n <= 0 {
        seq![]
    } else {
        others(known, file, n - 1) + if known[n - 1].0 != file {
            seq![known[n - 1]]
        } else {
            seq![]
        }
    }
}

/// What the model is told a list of files says once `file` says `text` - or
/// nothing, when it is gone.
pub open spec fn told(known: Seq<(Seq<char>, Seq<char>)>, file: Seq<char>, text: Option<Seq<char>>) -> Seq<
    (Seq<char>, Seq<char>),
> {
    let kept = others(known, file, known.len() as int);
    match text {
        Some(t) => kept.push((file, t)),
        None => kept,
    }
}

/// What the model has been told a file says, if it has: the first mention.
pub open spec fn known_from(known: Seq<(Seq<char>, Seq<char>)>, file: Seq<char>, i: int) -> Option<Seq<char>>
    decreases known.len() - i,
{
    if i < 0 || i >= known.len() {
        None
    } else if known[i].0 == file {
        Some(known[i].1)
    } else {
        known_from(known, file, i + 1)
    }
}

/// The transcript as it is written: the title as a heading, then each turn
/// under its marker, from `i` on.
pub open spec fn turns_text(turns: Seq<(bool, Seq<char>)>, n: int, copy: bool) -> Seq<char>
    decreases n,
{
    if n <= 0 {
        seq![]
    } else {
        let t = turns[n - 1];
        turns_text(turns, n - 1, copy) + (if t.0 {
            mine_marker()
        } else {
            theirs_marker()
        }) + "\n\n"@ + fence_markers_of(
            if copy {
                copyable_of(t)
            } else {
                t.1
            },
        ) + "\n\n"@
    }
}

/// The transcript as it is filed.
pub open spec fn to_text_of(c: ChatView) -> Seq<char> {
    "# "@ + title_of(c.name, c.turns) + "\n\n"@ + turns_text(c.turns, c.turns.len() as int, false)
}

/// The whole conversation as somebody would want it pasted: what the panel
/// shows of each turn.
pub open spec fn transcript_of(c: ChatView) -> Seq<char> {
    trim_end("# "@ + title_of(c.name, c.turns) + "\n\n"@ + turns_text(c.turns, c.turns.len() as int, true))
}

/// What a `/` command does: the state after it, and whether the line was one.
pub open spec fn command_of(c: ChatView, line: Seq<char>) -> (ChatView, bool) {
    let t = trim(line);
    if !(t.len() > 0 && t[0] == '/') {
        (c, false)
    } else {
        let rest = t.skip(1);
        let word = match crate::strs::find(rest, seq![' ']) {
            Some(k) => rest.take(k),
            None => rest,
        };
        let arg = trim(
            match crate::strs::find(rest, seq![' ']) {
                Some(k) => rest.skip(k + 1),
                None => seq![],
            },
        );
        let c1 = if word == "rename"@ && arg.len() > 0 {
            let named = one_line_of(arg, 60);
            ChatView {
                name: Some(named),
                notice: Some("renamed to \""@ + title_of(Some(named), c.turns) + "\""@),
                ..c
            }
        } else if word == "rename"@ {
            ChatView { notice: Some("rename to what? /rename <name>"@), ..c }
        } else if word == "web"@ {
            ChatView { flip_web: true, ..c }
        } else if word == "help"@ {
            ChatView { notice: Some(manual_of()), ..c }
        } else {
            ChatView { notice: Some("no command called /"@ + word + " - /help lists them"@), ..c }
        };
        (ChatView { draft: seq![], ..c1 }, true)
    }
}

/// What is typed, made a turn ready to send; nothing, when nothing is typed
/// but whitespace.
pub open spec fn commit_of(c: ChatView) -> ChatView {
    let said = trim(c.draft);
    if said.len() == 0 {
        ChatView { draft: seq![], ..c }
    } else {
        ChatView {
            draft: seq![],
            turns: c.turns.push((true, said)),
            waiting: true,
            failed: None,
            follow: true,
            ..c
        }
    }
}

/// An answer filed: the reply mended once, on the way in, as a turn; or why
/// it failed.
pub open spec fn answered_of(c: ChatView, reply: Result<Seq<char>, Seq<char>>) -> ChatView {
    match reply {
        Ok(text) => ChatView {
            waiting: false,
            turns: c.turns.push((false, trim(undecided_of(trim(unfused_of(trim(text))))))),
            follow: true,
            ..c
        },
        Err(why) => ChatView { waiting: false, failed: Some(why), ..c },
    }
}

/// The reply as text.
pub open spec fn reply_chars(r: Reply) -> Result<Seq<char>, Seq<char>> {
    match r {
        Ok(t) => Ok(t@),
        Err(e) => Err(e@),
    }
}

/// The name the first heading gives, if it gives one.
fn heading_in(ls: &Vec<Vec<char>>, Ghost(all): Ghost<Seq<Seq<char>>>) -> (r: Option<String>)
    requires
        ls@.len() == all.len(),
        forall|j: int| 0 <= j < ls@.len() ==> #[trigger] ls@[j]@ == all[j],
    ensures
        opt_chars(r) == heading_name(all),
{
    let mut i: usize = 0;
    assert(all.skip(0) =~= all);
    while i < ls.len()
        invariant
            i <= ls@.len(),
            ls@.len() == all.len(),
            forall|j: int| 0 <= j < ls@.len() ==> #[trigger] ls@[j]@ == all[j],
            heading_name(all.skip(i as int)) == heading_name(all),
        decreases ls.len() - i,
    {
        assert(all.skip(i as int)[0] == ls@[i as int]@);
        assert(all.skip(i as int).drop_first() =~= all.skip(i + 1));
        let t = trimmed(&ls[i]);
        proof {
            reveal_strlit("# ");
        }
        if crate::strs::starts(&t, "# ") {
            let rest = crate::strs::slice(&t, 2, t.len());
            assert(rest@ =~= trim(ls@[i as int]@).skip(2));
            let n = trimmed(&rest);
            if n.len() > 0 {
                return Some(string_of(&n));
            }
            return None;
        }
        i = i + 1;
    }
    None
}

impl Chat {
    /// A new conversation in `project`, looking at `focus`.
    pub fn new(project: String, focus: String) -> (r: Self)
        ensures
            r@ == fresh_chat(project@, focus@, r@.progress),
            r@.progress.prompt == 0 && r@.progress.read == 0 && r@.progress.written == 0,
    {
        let c = Chat {
            path: None,
            project,
            focus,
            name: None,
            turns: Vec::new(),
            draft: String::new(),
            waiting: false,
            progress: Progress::none(),
            partial: String::new(),
            failed: None,
            notice: None,
            grab: true,
            had_field: false,
            retype: false,
            flip_web: false,
            follow: true,
            overhead: 0,
            shown_index: String::new(),
            known_index: String::new(),
            front: Vec::new(),
            known: Vec::new(),
            done: Vec::new(),
        };
        assert(turns_view(c.turns@) =~= Seq::<(bool, Seq<char>)>::empty());
        assert(named_texts(c.front@) =~= Seq::<(Seq<char>, Seq<char>)>::empty());
        assert(named_texts(c.known@) =~= Seq::<(Seq<char>, Seq<char>)>::empty());
        assert(texts(c.done@) =~= Seq::<Seq<char>>::empty());
        c
    }

    /// A conversation read back off disk: its turns, and the name its
    /// heading gives it, from the text the file held.
    pub fn opened(path: PathBuf, text: &str, project: String, focus: String) -> (r: Self)
        ensures
            r@ == (ChatView {
                path: Some(path),
                name: heading_name(lines(text@)),
                turns: parse_of(text@),
                ..fresh_chat(project@, focus@, r@.progress)
            }),
    {
        let mut c = Chat::new(project, focus);
        let ls = lines_of(&chars_of(text));
        let name = heading_in(&ls, Ghost(lines(text@)));
        c.path = Some(path);
        c.name = name;
        c.turns = parse(text);
        c
    }

    /// What it is called: the name it was given, or the first thing that was
    /// asked, shortened.
    pub fn title(&self) -> (r: String)
        ensures
            r@ == title_of(self@.name, self@.turns),
    {
        match &self.name {
            Some(n) => {
                return n.clone();
            },
            None => {},
        }
        let ghost tv = turns_view(self.turns@);
        let mut i: usize = 0;
        while i < self.turns.len()
            invariant
                i <= self.turns@.len(),
                tv == turns_view(self.turns@),
                self.name is None,
                first_mine(tv, 0) == first_mine(tv, i as int),
            decreases self.turns.len() - i,
        {
            assert(tv[i as int] == self.turns@[i as int]@);
            if self.turns[i].mine {
                assert(first_mine(tv, i as int) == Some(tv[i as int].1));
                assert(self@.name is None);
                return one_line(self.turns[i].text.as_str(), 46);
            }
            i = i + 1;
        }
        String::from_str("NEW CHAT")
    }

    /// Take note that a file now says this, because we just made it say it -
    /// or that it is gone, when there is no text.
    pub fn wrote(&mut self, file: &str, text: Option<&str>)
        ensures
            final(self)@ == (ChatView {
                known: told(
                    old(self)@.known,
                    file@,
                    match text {
                        Some(t) => Some(t@),
                        None => None,
                    },
                ),
                ..old(self)@
            }),
    {
        let ghost kv = named_texts(self.known@);
        let mut kept: Vec<(String, String)> = Vec::new();
        let mut i: usize = 0;
        let fc = chars_of(file);
        while i < self.known.len()
            invariant
                i <= self.known@.len(),
                kv == named_texts(self.known@),
                fc@ == file@,
                named_texts(kept@) == others(kv, file@, i as int),
            decreases self.known.len() - i,
        {
            assert(kv[i as int] == (self.known@[i as int].0@, self.known@[i as int].1@));
            let ghost before = named_texts(kept@);
            let n = chars_of(self.known[i].0.as_str());
            if !same(&n, &fc) {
                kept.push((self.known[i].0.clone(), self.known[i].1.clone()));
                assert(named_texts(kept@) =~= before.push(kv[i as int]));
            } else {
                assert(named_texts(kept@) =~= before + Seq::<(Seq<char>, Seq<char>)>::empty());
            }
            i = i + 1;
        }
        match text {
            Some(t) => {
                let ghost before = named_texts(kept@);
                kept.push((String::from_str(file), String::from_str(t)));
                assert(named_texts(kept@) =~= before.push((file@, t@)));
            },
            None => {},
        }
        self.known = kept;
    }

    /// What the model has been told a file says, if it has been told.
    pub fn knows(&self, file: &str) -> (r: Option<String>)
        ensures
            opt_chars(r) == known_from(self@.known, file@, 0),
    {
        let ghost kv = named_texts(self.known@);
        let fc = chars_of(file);
        let mut i: usize = 0;
        while i < self.known.len()
            invariant
                i <= self.known@.len(),
                kv == named_texts(self.known@),
                fc@ == file@,
                known_from(kv, file@, 0) == known_from(kv, file@, i as int),
            decreases self.known.len() - i,
        {
            assert(kv[i as int] == (self.known@[i as int].0@, self.known@[i as int].1@));
            let n = chars_of(self.known[i].0.as_str());
            if same(&n, &fc) {
                return Some(self.known[i].1.clone());
            }
            i = i + 1;
        }
        None
    }

    /// Run a `/` command, and say whether it was one: `/rename` names the
    /// conversation, `/web` asks the application to switch looking things up
    /// on or off, `/help` lists the commands, and anything else says there is
    /// no such command. The draft is cleared after any of them.
    pub fn command(&mut self, line: &str) -> (r: bool)
        ensures
            (final(self)@, r) == command_of(old(self)@, line@),
    {
        let t = trimmed(&chars_of(line));
        if !(t.len() > 0 && t[0] == '/') {
            return false;
        }
        let rest = crate::strs::slice(&t, 1, t.len());
        assert(rest@ =~= t@.skip(1));
        let sp = vec![' '];
        assert(sp@ =~= seq![' ']);
        let (word, arg_raw) = match crate::strs::find_in(&rest, &sp) {
            Some(k) => {
                proof {
                    crate::strs::lemma_find_from(rest@, sp@, 0);
                }
                let w = crate::strs::slice(&rest, 0, k);
                let a = crate::strs::slice(&rest, k + 1, rest.len());
                assert(w@ =~= rest@.take(k as int));
                assert(a@ =~= rest@.skip(k + 1));
                (w, a)
            },
            None => (crate::strs::slice(&rest, 0, rest.len()), Vec::new()),
        };
        proof {
            if crate::strs::find(rest@, seq![' ']) is None {
                assert(word@ =~= rest@);
                assert(arg_raw@ =~= Seq::<char>::empty());
            }
        }
        let arg = trimmed(&arg_raw);
        if crate::strs::same(&word, &chars_of("rename")) && arg.len() > 0 {
            let named = one_line(string_of(&arg).as_str(), 60);
            let mut note = chars_of("renamed to \"");
            push_all(&mut note, &chars_of(named.as_str()));
            push_str(&mut note, "\"");
            self.name = Some(named);
            self.notice = Some(string_of(&note));
        } else if crate::strs::same(&word, &chars_of("rename")) {
            self.notice = Some(String::from_str("rename to what? /rename <name>"));
        } else if crate::strs::same(&word, &chars_of("web")) {
            self.flip_web = true;
        } else if crate::strs::same(&word, &chars_of("help")) {
            self.notice = Some(manual());
        } else {
            let mut note = chars_of("no command called /");
            push_all(&mut note, &word);
            push_str(&mut note, " - /help lists them");
            self.notice = Some(string_of(&note));
        }
        self.draft = String::new();
        true
    }

    /// Whether `/web` was asked for since the application last looked; the
    /// asking is spent by looking.
    pub fn take_flip_web(&mut self) -> (r: bool)
        ensures
            r == old(self)@.flip_web,
            final(self)@ == (ChatView { flip_web: false, ..old(self)@ }),
    {
        let f = self.flip_web;
        self.flip_web = false;
        f
    }

    /// Take what is typed and make it a turn, ready to send.
    pub fn commit(&mut self)
        ensures
            final(self)@ == commit_of(old(self)@),
    {
        let said = trimmed(&chars_of(self.draft.as_str()));
        self.draft = String::new();
        if said.len() == 0 {
            return;
        }
        let ghost before = turns_view(self.turns@);
        self.turns.push(Turn { mine: true, text: string_of(&said) });
        assert(turns_view(self.turns@) =~= before.push((true, said@)));
        self.waiting = true;
        self.failed = None;
        self.follow = true;
    }

    /// File an answer: the reply, mended once on the way in, becomes a turn;
    /// a failure is kept to be shown. Says whether there is a new turn to
    /// write down.
    pub fn answered(&mut self, reply: Reply) -> (r: bool)
        ensures
            final(self)@ == answered_of(old(self)@, reply_chars(reply)),
            r == reply is Ok,
    {
        self.waiting = false;
        match reply {
            Ok(text) => {
                let t = trimmed(&chars_of(text.as_str()));
                let u = trimmed(&chars_of(unfused(string_of(&t).as_str()).as_str()));
                let d = trimmed(&undecided(&u));
                let ghost before = turns_view(self.turns@);
                self.turns.push(Turn { mine: false, text: string_of(&d) });
                assert(turns_view(self.turns@) =~= before.push((false, d@)));
                self.follow = true;
                true
            },
            Err(why) => {
                self.failed = Some(why);
                false
            },
        }
    }

    /// The transcript as it is filed.
    pub fn to_text(&self) -> (r: String)
        ensures
            r@ == to_text_of(self@),
    {
        let mut out = chars_of("# ");
        push_all(&mut out, &chars_of(self.title().as_str()));
        push_str(&mut out, "\n\n");
        let body = self.turns_written(false);
        push_all(&mut out, &body);
        string_of(&out)
    }

    /// The whole conversation, in the shape somebody would want it pasted.
    pub fn transcript(&self) -> (r: String)
        ensures
            r@ == transcript_of(self@),
    {
        let mut out = chars_of("# ");
        push_all(&mut out, &chars_of(self.title().as_str()));
        push_str(&mut out, "\n\n");
        let body = self.turns_written(true);
        push_all(&mut out, &body);
        string_of(&trimmed_end(&out))
    }

    fn turns_written(&self, copy: bool) -> (r: Vec<char>)
        ensures
            r@ == turns_text(self@.turns, self@.turns.len() as int, copy),
    {
        let ghost tv = turns_view(self.turns@);
        let mut out: Vec<char> = Vec::new();
        let mut i: usize = 0;
        while i < self.turns.len()
            invariant
                i <= self.turns@.len(),
                tv == turns_view(self.turns@),
                out@ == turns_text(tv, i as int, copy),
            decreases self.turns.len() - i,
        {
            assert(tv[i as int] == self.turns@[i as int]@);
            if self.turns[i].mine {
                push_str(&mut out, "## you");
            } else {
                push_str(&mut out, "## assistant");
            }
            push_str(&mut out, "\n\n");
            let shown = if copy {
                copyable(&self.turns[i])
            } else {
                self.turns[i].text.clone()
            };
            let f = fence_markers(shown.as_str());
            push_all(&mut out, &chars_of(f.as_str()));
            push_str(&mut out, "\n\n");
            i = i + 1;
        }
        out
    }
}

// ------------------------------------------------- what the model is told

/// The files told of among the first `n` that a correction can be measured
/// against: those at the front, and those it was told of as they are now.
pub open spec fn shown_of(
    known: Seq<(Seq<char>, Seq<char>)>,
    front: Seq<(Seq<char>, Seq<char>)>,
    now: Seq<(Seq<char>, Seq<char>)>,
    n: int,
) -> Seq<(Seq<char>, Seq<char>)>
    decreases n,
{
    if n <= 0 {
        seq![]
    } else {
        let k = known[n - 1];
        shown_of(known, front, now, n - 1) + if has_named(front, k.0) || now.contains(k) {
            seq![k]
        } else {
            seq![]
        }
    }
}

/// What the model's own edits did, said in front of what moved since.
pub open spec fn with_done(done: Seq<Seq<char>>, moved: Option<Seq<char>>) -> Option<Seq<char>> {
    if done.len() == 0 {
        moved
    } else {
        match moved {
            Some(m) => Some(join(done, "\n\n"@) + "\n\n"@ + m),
            None => Some(join(done, "\n\n"@)),
        }
    }
}

/// Two corrections as one.
pub open spec fn both_of(moved: Option<Seq<char>>, listed: Option<Seq<char>>) -> Option<Seq<char>> {
    match (moved, listed) {
        (None, None) => None,
        (Some(m), Some(l)) => Some(m + "\n\n"@ + l),
        (Some(m), None) => Some(m),
        (None, Some(l)) => Some(l),
    }
}

/// The project written out afresh: shown and told as it is now.
pub open spec fn afresh(c: ChatView, index: Seq<char>, now: Seq<(Seq<char>, Seq<char>)>) -> ChatView {
    ChatView { shown_index: index, known_index: index, front: now, known: now, ..c }
}

/// The index, the project, and what has moved, as the model is to be given
/// them, and the conversation's state after: the project written afresh the
/// first time; after that the same front, and at the end what the model's
/// edits did and what moved since it was told; and the project written afresh
/// again once correcting would cost as much as rewriting.
pub open spec fn context_of(c: ChatView, index: Seq<char>, now: Seq<(Seq<char>, Seq<char>)>) -> (
    ChatView,
    (Seq<char>, Seq<char>, Option<Seq<char>>),
) {
    if c.front.len() == 0 {
        (afresh(c, index, now), (index, project_files(now, now.len() as int), None))
    } else {
        let moved = with_done(c.done, since_of(shown_of(c.known, c.front, now, c.known.len() as int), now));
        let c1 = ChatView { done: seq![], ..c };
        match both_of(moved, relisted_of(c.known_index, index)) {
            None => (c1, (c.shown_index, project_files(c.front, c.front.len() as int), None)),
            Some(both) => if byte_len(both) >= byte_len(project_files(now, now.len() as int)) + byte_len(
                index,
            ) {
                (afresh(c1, index, now), (index, project_files(now, now.len() as int), Some(both)))
            } else {
                (
                    ChatView { known: now, known_index: index, ..c1 },
                    (c.shown_index, project_files(c.front, c.front.len() as int), Some(both)),
                )
            },
        }
    }
}

proof fn lemma_shown_countable(
    known: Seq<(Seq<char>, Seq<char>)>,
    front: Seq<(Seq<char>, Seq<char>)>,
    now: Seq<(Seq<char>, Seq<char>)>,
    n: int,
)
    requires
        countable(known),
        0 <= n <= known.len(),
    ensures
        countable(shown_of(known, front, now, n)),
    decreases n,
{
    if n > 0 {
        lemma_shown_countable(known, front, now, n - 1);
        let prev = shown_of(known, front, now, n - 1);
        let k = known[n - 1];
        assert(crate::digest::rows_of(k.1).len() <= usize::MAX / 2 - 8);
        let s = shown_of(known, front, now, n);
        assert forall|i: int| 0 <= i < s.len() implies crate::digest::rows_of(#[trigger] s[i].1).len()
            <= usize::MAX / 2 - 8 by {
            if i < prev.len() {
                assert(s[i] == prev[i]);
            } else {
                assert(s[i] == k);
            }
        }
    }
}

/// Whether a file of this name is among these.
fn named_in(files: &Vec<(String, String)>, name: &Vec<char>) -> (r: bool)
    ensures
        r == has_named(named_texts(files@), name@),
{
    let ghost fv = named_texts(files@);
    let mut i: usize = 0;
    while i < files.len()
        invariant
            i <= files@.len(),
            fv == named_texts(files@),
            forall|k: int| 0 <= k < i ==> fv[k].0 != name@,
        decreases files.len() - i,
    {
        assert(fv[i as int] == (files@[i as int].0@, files@[i as int].1@));
        if same(&chars_of(files[i].0.as_str()), name) {
            assert(fv[i as int].0 == name@);
            return true;
        }
        i = i + 1;
    }
    false
}

/// Whether this very file, name and text, is among these.
fn pair_in(files: &[(String, String)], name: &Vec<char>, text: &Vec<char>) -> (r: bool)
    ensures
        r == named_texts(files@).contains((name@, text@)),
{
    let ghost fv = named_texts(files@);
    let mut i: usize = 0;
    while i < files.len()
        invariant
            i <= files@.len(),
            fv == named_texts(files@),
            forall|k: int| 0 <= k < i ==> fv[k] != (name@, text@),
        decreases files.len() - i,
    {
        assert(fv[i as int] == (files@[i as int].0@, files@[i as int].1@));
        if same(&chars_of(files[i].0.as_str()), name) && same(&chars_of(files[i].1.as_str()), text) {
            return true;
        }
        i = i + 1;
    }
    false
}

/// A copy of a slice of named texts.
fn files_of(v: &[(String, String)]) -> (r: Vec<(String, String)>)
    ensures
        named_texts(r@) == named_texts(v@),
{
    let mut out: Vec<(String, String)> = Vec::new();
    let mut i: usize = 0;
    while i < v.len()
        invariant
            i <= v@.len(),
            named_texts(out@) == named_texts(v@).take(i as int),
        decreases v.len() - i,
    {
        let ghost before = named_texts(out@);
        let c = (v[i].0.clone(), v[i].1.clone());
        assert((c.0@, c.1@) == named_texts(v@)[i as int]);
        out.push(c);
        assert(named_texts(out@) =~= before.push(named_texts(v@)[i as int]));
        assert(named_texts(out@) =~= named_texts(v@).take(i + 1));
        i = i + 1;
    }
    assert(named_texts(v@).take(v@.len() as int) =~= named_texts(v@));
    out
}

impl Chat {
    /// The project as the model was shown it and what it was told of it:
    /// the files whose texts have been told, for measuring corrections.
    fn shown(&self, now: &[(String, String)]) -> (r: Vec<(String, String)>)
        ensures
            named_texts(r@) == shown_of(self@.known, self@.front, named_texts(now@), self@.known.len() as int),
    {
        let ghost kv = named_texts(self.known@);
        let ghost fv = named_texts(self.front@);
        let ghost nv = named_texts(now@);
        let mut out: Vec<(String, String)> = Vec::new();
        let mut i: usize = 0;
        while i < self.known.len()
            invariant
                i <= self.known@.len(),
                kv == named_texts(self.known@),
                fv == named_texts(self.front@),
                nv == named_texts(now@),
                named_texts(out@) == shown_of(kv, fv, nv, i as int),
            decreases self.known.len() - i,
        {
            assert(kv[i as int] == (self.known@[i as int].0@, self.known@[i as int].1@));
            let ghost before = named_texts(out@);
            let n = chars_of(self.known[i].0.as_str());
            let t = chars_of(self.known[i].1.as_str());
            if named_in(&self.front, &n) || pair_in(now, &n, &t) {
                out.push((self.known[i].0.clone(), self.known[i].1.clone()));
                assert(named_texts(out@) =~= before.push(kv[i as int]));
            } else {
                assert(named_texts(out@) =~= before + Seq::<(Seq<char>, Seq<char>)>::empty());
            }
            i = i + 1;
        }
        out
    }

    /// What the model's own edits did and what moved since it was told, and
    /// what changed about the list of notes, as one correction; the edits are
    /// said once and let go of.
    fn corrections(&mut self, index: &str, now: &[(String, String)]) -> (r: Option<Vec<char>>)
        requires
            countable(named_texts(now@)),
            countable(old(self)@.known),
        ensures
            final(self)@ == (ChatView { done: seq![], ..old(self)@ }),
            match r {
                Some(b) => both_of(
                    with_done(
                        old(self)@.done,
                        since_of(
                            shown_of(old(self)@.known, old(self)@.front, named_texts(now@), old(self)@.known.len() as int),
                            named_texts(now@),
                        ),
                    ),
                    relisted_of(old(self)@.known_index, index@),
                ) == Some(b@),
                None => both_of(
                    with_done(
                        old(self)@.done,
                        since_of(
                            shown_of(old(self)@.known, old(self)@.front, named_texts(now@), old(self)@.known.len() as int),
                            named_texts(now@),
                        ),
                    ),
                    relisted_of(old(self)@.known_index, index@),
                ) is None,
            },
    {
        let ghost c = self@;
        let shown = self.shown(now);
        proof {
            lemma_shown_countable(c.known, c.front, named_texts(now@), c.known.len() as int);
        }
        let moved0 = since(&shown, now);
        let mut done: Vec<String> = Vec::new();
        std::mem::swap(&mut done, &mut self.done);
        assert(texts(self.done@) =~= Seq::<Seq<char>>::empty());
        let moved: Option<Vec<char>> = if done.len() == 0 {
            match moved0 {
                Some(m) => Some(chars_of(m.as_str())),
                None => None,
            }
        } else {
            let parts = crate::strs::chars_each(&done);
            assert(views(parts@) =~= texts(done@));
            let sep = chars_of("\n\n");
            let mut j = joined(&parts, &sep);
            match moved0 {
                Some(m) => {
                    push_str(&mut j, "\n\n");
                    push_all(&mut j, &chars_of(m.as_str()));
                    Some(j)
                },
                None => Some(j),
            }
        };
        let listed = relisted(self.known_index.as_str(), index);
        let both: Option<Vec<char>> = match (moved, listed) {
            (None, None) => None,
            (Some(m), Some(l)) => {
                let mut b = m;
                push_str(&mut b, "\n\n");
                push_all(&mut b, &chars_of(l.as_str()));
                Some(b)
            },
            (Some(m), None) => Some(m),
            (None, Some(l)) => Some(chars_of(l.as_str())),
        };
        both
    }

    /// The project to send, and what has moved since it was last sent.
    ///
    /// The index and the project are the same text every time until it is
    /// worth rewriting them, so everything before the newest question stays
    /// in the model's cache; what the model's own edits did and what moved
    /// since it was told go at the end. They are written afresh the first
    /// time, and again once the corrections would be longer than the project
    /// and the index together.
    pub fn context(&mut self, index: &str, now: &[(String, String)]) -> (r: (String, String, Option<String>))
        requires
            countable(named_texts(now@)),
            countable(old(self)@.known),
        ensures
            (final(self)@, (r.0@, r.1@, opt_chars(r.2))) == context_of(old(self)@, index@, named_texts(now@)),
            countable(final(self)@.known),
    {
        let ghost c = self@;
        if self.front.len() == 0 {
            self.shown_index = String::from_str(index);
            self.known_index = String::from_str(index);
            self.front = files_of(now);
            self.known = files_of(now);
            return (String::from_str(index), project(now), None);
        }
        let both = self.corrections(index, now);
        match both {
            None => {
                return (self.shown_index.clone(), project(&self.front), None);
            },
            Some(b) => {
                let whole = project(now);
                let wc = chars_of(whole.as_str());
                let ic = chars_of(index);
                let wn = wc.len();
                let inn = ic.len();
                let wl = utf8_len(&wc);
                let il = utf8_len(&ic);
                let bl = utf8_len(&b);
                if bl >= wl + il {
                    self.shown_index = String::from_str(index);
                    self.known_index = String::from_str(index);
                    self.front = files_of(now);
                    self.known = files_of(now);
                    return (String::from_str(index), whole, Some(string_of(&b)));
                }
                self.known = files_of(now);
                self.known_index = String::from_str(index);
                return (self.shown_index.clone(), project(&self.front), Some(string_of(&b)));
            },
        }
    }
}

proof fn lemma_shown_of_now(
    front: Seq<(Seq<char>, Seq<char>)>,
    now: Seq<(Seq<char>, Seq<char>)>,
    n: int,
)
    requires
        0 <= n <= now.len(),
    ensures
        shown_of(now, front, now, n) == now.take(n),
    decreases n,
{
    if n > 0 {
        lemma_shown_of_now(front, now, n - 1);
        assert(now.contains(now[n - 1]));
        assert(now.take(n) =~= now.take(n - 1) + seq![now[n - 1]]);
    }
}

/// The first time a conversation asks, the project is written out afresh:
/// the index and every file as they are now, with nothing to correct, and
/// from then on the model has been shown and told exactly that. A new
/// conversation has shown it nothing.
pub proof fn law_first_context_is_written_afresh(
    c: ChatView,
    index: Seq<char>,
    now: Seq<(Seq<char>, Seq<char>)>,
    project: Seq<char>,
    focus: Seq<char>,
    progress: Progress,
)
    ensures
        c.front.len() == 0 ==> context_of(c, index, now) == (
            afresh(c, index, now),
            (index, project_files(now, now.len() as int), None::<Seq<char>>),
        ),
        fresh_chat(project, focus, progress).front.len() == 0,
{
}

/// Asking again about an unchanged project, with nothing done in between,
/// sends the same index and project as the first time, says that nothing
/// has moved, and leaves the conversation as the first time left it. (The
/// project's files are known by names of their own, and so are the notes of
/// the index.)
pub proof fn law_asked_again_nothing_to_correct(
    c: ChatView,
    index: Seq<char>,
    now: Seq<(Seq<char>, Seq<char>)>,
)
    requires
        c.done.len() == 0,
        crate::digest::distinct_names(now),
        crate::digest::keyed_list(index),
    ensures
        ({
            let (c1, r1) = context_of(c, index, now);
            let (c2, r2) = context_of(c1, index, now);
            &&& c2 == c1
            &&& r2 == (r1.0, r1.1, None::<Seq<char>>)
        }),
{
    let (c1, r1) = context_of(c, index, now);
    assert(c1.done.len() == 0);
    lemma_shown_of_now(c1.front, now, now.len() as int);
    assert(now.take(now.len() as int) =~= now);
    crate::digest::law_nothing_moved_is_nothing_to_say(now);
    crate::digest::law_same_list_is_not_relisted(index);
    let moved = with_done(c.done, since_of(shown_of(c.known, c.front, now, c.known.len() as int), now));
    if c.front.len() != 0 && both_of(moved, relisted_of(c.known_index, index)) is None {
        assert(c1.done =~= c.done);
        assert(c1 == c);
    } else {
        assert(c1.known == now);
        assert(c1.known_index == index);
    }
    let (c2, r2) = context_of(c1, index, now);
    assert(c2.done =~= c1.done);
}

// ---------------------------------------------------- what is waiting

/// The changes a reply of the model's offers, read out of its prose.
pub open spec fn offered(text: Seq<char>) -> Seq<crate::chat::change::Proposal> {
    proposals_of(lookups_of(text).0).1
}

/// Whether a change has been offered and not yet answered, among those that
/// could still be made.
pub open spec fn pending_of(turns: Seq<(bool, Seq<char>)>, folder: Folder) -> bool {
    exists|i: int, k: int|
        0 <= i < turns.len() && !turns[i].0 && 0 <= k < offered(turns[i].1).len() && (#[trigger] offered(
            turns[i].1,
        )[k]).state is None && replacing_of(offered(turns[i].1)[k], folder) is Some
}

impl Chat {
    /// Whether a change has been offered and not yet answered.
    ///
    /// Only one that could still be made counts: a block whose lines have
    /// since gone is not something anybody can accept or reject.
    pub fn pending(&self, folder: &Folder) -> (r: bool)
        ensures
            r == pending_of(self@.turns, *folder),
    {
        let ghost tv = turns_view(self.turns@);
        let mut i: usize = 0;
        while i < self.turns.len()
            invariant
                i <= self.turns@.len(),
                tv == turns_view(self.turns@),
                forall|j: int, k: int|
                    0 <= j < i && !tv[j].0 && 0 <= k < offered(tv[j].1).len() ==> !((#[trigger] offered(
                        tv[j].1,
                    )[k]).state is None && replacing_of(offered(tv[j].1)[k], *folder) is Some),
            decreases self.turns.len() - i,
        {
            assert(tv[i as int] == self.turns@[i as int]@);
            if !self.turns[i].mine {
                let (prose, _) = lookups(self.turns[i].text.as_str());
                let (_, changes) = proposals(prose.as_str());
                let ghost cv = proposals_view(changes@);
                assert(cv == offered(tv[i as int].1));
                let mut k: usize = 0;
                while k < changes.len()
                    invariant
                        k <= changes@.len(),
                        i < tv.len(),
                        !tv[i as int].0,
                        tv == turns_view(self.turns@),
                        cv == proposals_view(changes@),
                        cv == offered(tv[i as int].1),
                        forall|m: int| 0 <= m < k ==> !((#[trigger] cv[m]).state is None && replacing_of(cv[m], *folder) is Some),
                    decreases changes.len() - k,
                {
                    assert(cv[k as int] == changes@[k as int]@);
                    if changes[k].state.is_none() && changes[k].replacing(folder).is_some() {
                        assert(offered(tv[i as int].1)[k as int].state is None);
                        assert(replacing_of(offered(tv[i as int].1)[k as int], *folder) is Some);
                        return true;
                    }
                    k = k + 1;
                }
            }
            i = i + 1;
        }
        false
    }
}


// ---------------------------------------------------------------- weight

/// The bytes of the first `n` turns' texts.
pub open spec fn said_bytes(turns: Seq<(bool, Seq<char>)>, n: int) -> nat
    decreases n,
{
    if n <= 0 {
        0
    } else {
        said_bytes(turns, n - 1) + byte_len(turns[n - 1].1)
    }
}

/// The bytes of the first `n` lines, each with its line break.
pub open spec fn lines_bytes(ls: Seq<String>, n: int) -> nat
    decreases n,
{
    if n <= 0 {
        0
    } else {
        lines_bytes(ls, n - 1) + byte_len(ls[n - 1]@) + 1
    }
}

/// The bytes of the first `n` files, each line with its line break.
pub open spec fn files_bytes(files: Seq<(String, &[String])>, n: int) -> nat
    decreases n,
{
    if n <= 0 {
        0
    } else {
        files_bytes(files, n - 1) + lines_bytes(files[n - 1].1@, files[n - 1].1@.len() as int)
    }
}

/// How much context a conversation is carrying, in tokens, and whether that
/// is the count the model made of its question: once there is one; before,
/// a quarter of the bytes said and of the files here, on top of what the
/// instructions come to.
pub open spec fn weight_of(c: ChatView, files: Seq<(String, &[String])>) -> (int, bool) {
    if c.progress.prompt > 0 {
        (c.progress.prompt as int, true)
    } else {
        (c.overhead + (said_bytes(c.turns, c.turns.len() as int) + files_bytes(files, files.len() as int)) / 4, false)
    }
}

proof fn lemma_said_grows(turns: Seq<(bool, Seq<char>)>, i: int, n: int)
    requires
        0 <= i <= n,
    ensures
        said_bytes(turns, i) <= said_bytes(turns, n),
    decreases n - i,
{
    if i < n {
        lemma_said_grows(turns, i, n - 1);
    }
}

proof fn lemma_lines_grow(ls: Seq<String>, i: int, n: int)
    requires
        0 <= i <= n,
    ensures
        lines_bytes(ls, i) <= lines_bytes(ls, n),
    decreases n - i,
{
    if i < n {
        lemma_lines_grow(ls, i, n - 1);
    }
}

proof fn lemma_files_grow(files: Seq<(String, &[String])>, i: int, n: int)
    requires
        0 <= i <= n,
    ensures
        files_bytes(files, i) <= files_bytes(files, n),
    decreases n - i,
{
    if i < n {
        lemma_files_grow(files, i, n - 1);
    }
}

/// The bytes of these lines, each with its break, when they come to no
/// more than `cap`.
fn lines_weight(ls: &[String], cap: u128) -> (r: u128)
    requires
        lines_bytes(ls@, ls@.len() as int) <= cap,
        cap <= 4 * u64::MAX + 3,
    ensures
        r == lines_bytes(ls@, ls@.len() as int),
{
    let mut n: u128 = 0;
    let mut i: usize = 0;
    while i < ls.len()
        invariant
            i <= ls@.len(),
            n == lines_bytes(ls@, i as int),
            lines_bytes(ls@, ls@.len() as int) <= cap,
            cap <= 4 * u64::MAX + 3,
        decreases ls.len() - i,
    {
        proof {
            lemma_lines_grow(ls@, i + 1, ls@.len() as int);
        }
        let cs = chars_of(ls[i].as_str());
        let b = utf8_len(&cs);
        n = n + b + 1;
        i = i + 1;
    }
    n
}

impl Chat {
    /// How much context this conversation is carrying, in tokens, and
    /// whether that is the model's own count rather than an estimate.
    ///
    /// Measured once there is something to measure: the worker counts the
    /// question on its way in and says so, and that number is exact. Before
    /// the first question there is nothing to have counted, so what is given
    /// is an estimate off the characters, marked as one.
    pub fn weight(&self, folder: &Folder) -> (r: (usize, bool))
        requires
            self@.progress.prompt == 0 ==> self@.overhead + (said_bytes(self@.turns, self@.turns.len() as int)
                + files_bytes(folder.files@, folder.files@.len() as int)) / 4 <= usize::MAX,
        ensures
            (r.0 as int, r.1) == weight_of(self@, folder.files@),
    {
        if self.progress.prompt > 0 {
            return (self.progress.prompt, true);
        }
        let ghost tv = turns_view(self.turns@);
        let ghost total = said_bytes(tv, tv.len() as int) + files_bytes(folder.files@, folder.files@.len() as int);
        assert(total <= 4 * usize::MAX + 3);
        let mut said: u128 = 0;
        let mut i: usize = 0;
        while i < self.turns.len()
            invariant
                i <= self.turns@.len(),
                tv == turns_view(self.turns@),
                said == said_bytes(tv, i as int),
                said_bytes(tv, tv.len() as int) <= total,
                total <= 4 * usize::MAX + 3,
            decreases self.turns.len() - i,
        {
            proof {
                lemma_said_grows(tv, i + 1, tv.len() as int);
            }
            assert(tv[i as int] == self.turns@[i as int]@);
            let cs = chars_of(self.turns[i].text.as_str());
            let b = utf8_len(&cs);
            said = said + b;
            i = i + 1;
        }
        let ghost fs = folder.files@;
        let mut here: u128 = 0;
        let mut k: usize = 0;
        while k < folder.files.len()
            invariant
                k <= fs.len(),
                fs == folder.files@,
                here == files_bytes(fs, k as int),
                files_bytes(fs, fs.len() as int) <= total,
                total <= 4 * usize::MAX + 3,
            decreases folder.files.len() - k,
        {
            proof {
                lemma_files_grow(fs, k + 1, fs.len() as int);
            }
            let b = lines_weight(folder.files[k].1, 4 * (usize::MAX as u128) + 3);
            here = here + b;
            k = k + 1;
        }
        let est = self.overhead as u128 + (said + here) / 4;
        (est as usize, false)
    }
}

// ------------------------------------------------------------ a frame

/// What was done to the conversation's panel in one frame.
pub struct ChatInput {
    /// Escape was pressed.
    pub escape: bool,
    /// Enter was pressed.
    pub enter: bool,
    /// Tab was pressed.
    pub tab: bool,
    /// STOP was clicked, under an answer on its way.
    pub stop: bool,
    /// A turn, or the whole conversation, was put on the clipboard.
    pub copied: bool,
    /// A change was answered: the turn that offered it, the change, and
    /// whether it was taken.
    pub answered: Option<(usize, Change, bool)>,
}

/// What was done in a frame, as values.
pub struct ChatInputView {
    pub escape: bool,
    pub enter: bool,
    pub tab: bool,
    pub stop: bool,
    pub copied: bool,
    pub answered: Option<(usize, crate::chat::change::Proposal, bool)>,
}

impl View for ChatInput {
    type V = ChatInputView;

    open spec fn view(&self) -> ChatInputView {
        ChatInputView {
            escape: self.escape,
            enter: self.enter,
            tab: self.tab,
            stop: self.stop,
            copied: self.copied,
            answered: match self.answered {
                Some((i, c, taken)) => Some((i, c@, taken)),
                None => None,
            },
        }
    }
}

/// What stands where the next question is typed.
#[derive(PartialEq, Eq, Structural, Debug)]
pub enum Field {
    /// Nothing to type into: an answer is on its way, and STOP is there.
    Answering,
    /// Nothing to type into: a change is waiting to be accepted or rejected.
    Held,
    /// The field, and whether it takes the keyboard this frame.
    Typing(bool),
}

/// What the application is asked to do, as values.
pub enum ChatOutcomeView {
    Nothing,
    Ask,
    Stop,
    Web,
    Save,
    Apply(crate::chat::change::Proposal),
    Close,
}

impl View for Outcome {
    type V = ChatOutcomeView;

    open spec fn view(&self) -> ChatOutcomeView {
        match self {
            Outcome::Nothing => ChatOutcomeView::Nothing,
            Outcome::Ask => ChatOutcomeView::Ask,
            Outcome::Stop => ChatOutcomeView::Stop,
            Outcome::Web => ChatOutcomeView::Web,
            Outcome::Save => ChatOutcomeView::Save,
            Outcome::Apply(c) => ChatOutcomeView::Apply(c@),
            Outcome::Close => ChatOutcomeView::Close,
        }
    }
}

/// What Enter does: a command is run, and asks for what it changed to be
/// written down, or for looking things up to be turned over; anything else
/// is asked, unless an answer is still on its way.
pub open spec fn entered_of(c: ChatView) -> (ChatView, ChatOutcomeView) {
    let (c0, was) = command_of(c, c.draft);
    if was {
        if c0.flip_web {
            (ChatView { flip_web: false, ..c0 }, ChatOutcomeView::Web)
        } else {
            (c0, ChatOutcomeView::Save)
        }
    } else if !c.waiting {
        (commit_of(ChatView { notice: None, ..c }), ChatOutcomeView::Ask)
    } else {
        (c, ChatOutcomeView::Nothing)
    }
}

/// What stands where the next question is typed, and the conversation
/// after: the field is there unless an answer is on its way or a change is
/// waiting, and takes the keyboard when it is asked to, when what is in it
/// was just completed, or when it was not there the frame before.
pub open spec fn field_of(c: ChatView, held: bool) -> (ChatView, Field) {
    if c.waiting {
        (ChatView { had_field: false, grab: false, ..c }, Field::Answering)
    } else if held {
        (ChatView { had_field: false, grab: false, ..c }, Field::Held)
    } else {
        (
            ChatView { had_field: true, grab: false, retype: c.grab && c.retype, ..c },
            Field::Typing(c.grab || c.retype || !c.had_field),
        )
    }
}

/// The keys of a frame, and a copy, and STOP: Enter and Tab do nothing
/// while a change is held; Enter sends what is typed, or runs it as a
/// command; Tab finishes a command as far as the ones it could be agree; a
/// copy says so; STOP gives up on an answer on its way.
pub open spec fn keyed_of(c: ChatView, i: ChatInputView, held: bool) -> (ChatView, ChatOutcomeView) {
    let (c1, o1) = if !held && i.enter && trim(c.draft).len() > 0 {
        entered_of(c)
    } else {
        (c, ChatOutcomeView::Nothing)
    };
    let c2 = if !held && i.tab {
        match crate::chat::complete_of(trim_end(c1.draft)) {
            Some(f) => ChatView { draft: f, retype: true, ..c1 },
            None => c1,
        }
    } else {
        c1
    };
    let c3 = if i.copied {
        ChatView { notice: Some("copied to the clipboard"@), ..c2 }
    } else {
        c2
    };
    (c3, if c3.waiting && i.stop {
        ChatOutcomeView::Stop
    } else {
        o1
    })
}

/// A change answered, settled in the turn that offered it.
pub open spec fn settled_of(c: ChatView, t: int, ch: crate::chat::change::Proposal, taken: bool) -> ChatView {
    ChatView {
        turns: c.turns.update(t, (c.turns[t].0, crate::chat::change::settle_of(c.turns[t].1, ch, taken))),
        ..c
    }
}

/// One frame of the conversation's panel: what it asks of the application,
/// what stands where the next question is typed, and the conversation after.
///
/// Escape closes it and nothing else happens. Then the keys, a copy and
/// STOP, with whether a change is held worked out first; then the field;
/// and a change answered, when it is still open - undecided, with something
/// there for it to act on - is settled in the turn that offered it, and put
/// into the project when it was taken. An answer to any other change is
/// not one: only an open change is offered with ACCEPT and REJECT.
pub open spec fn decide_of(c: ChatView, i: ChatInputView, folder: Folder) -> (ChatView, ChatOutcomeView, Option<Field>) {
    if i.escape {
        (c, ChatOutcomeView::Close, None)
    } else {
        let held = pending_of(c.turns, folder);
        let (c3, o2) = keyed_of(c, i, held);
        let (c4, f) = field_of(c3, held);
        match i.answered {
            Some((t, ch, taken)) if ch.state is None && replacing_of(ch, folder) is Some => (
                settled_of(c4, t as int, ch, taken),
                if taken {
                    ChatOutcomeView::Apply(ch)
                } else {
                    ChatOutcomeView::Save
                },
                Some(f),
            ),
            _ => (c4, o2, Some(f)),
        }
    }
}

/// The line under the field: which project, and either that a change is
/// waiting or which note is being looked at and where the commands are.
pub open spec fn legend_of(c: ChatView, held: bool) -> Seq<char> {
    if held {
        "IN "@ + crate::chat::called_of(c.project) + " - A CHANGE IS WAITING"@
    } else {
        "IN "@ + crate::chat::called_of(c.project) + " - LOOKING AT "@ + crate::strs::upper_of(c.focus)
            + " - /HELP LISTS THE COMMANDS"@
    }
}

/// Nothing is asked while an answer is on its way, or while a change that
/// was offered waits to be accepted or rejected: a change offered is a
/// question back, answered before anything else is asked, and while it
/// waits no turn is added.
pub proof fn law_one_question_at_a_time(c: ChatView, i: ChatInputView, folder: Folder)
    requires
        i.answered matches Some((t, _, _)) ==> t < c.turns.len(),
    ensures
        c.waiting || pending_of(c.turns, folder) ==> !(decide_of(c, i, folder).1 is Ask),
        pending_of(c.turns, folder) ==> decide_of(c, i, folder).0.turns.len() == c.turns.len(),
{
}

impl Chat {
    /// The line under the field, given whether a change is waiting.
    pub fn legend(&self, held: bool) -> (r: String)
        ensures
            r@ == legend_of(self@, held),
    {
        let mut out = chars_of("IN ");
        push_str(&mut out, crate::chat::called(self.project.as_str()).as_str());
        if held {
            push_str(&mut out, " - A CHANGE IS WAITING");
        } else {
            push_str(&mut out, " - LOOKING AT ");
            let focus = crate::strs::uppercase(self.focus.as_str());
            push_str(&mut out, focus.as_str());
            push_str(&mut out, " - /HELP LISTS THE COMMANDS");
        }
        string_of(&out)
    }

    /// What Enter does with what is typed.
    fn entered(&mut self) -> (r: Outcome)
        ensures
            (final(self)@, r@) == entered_of(old(self)@),
    {
        let typed = self.draft.clone();
        if self.command(typed.as_str()) {
            if self.take_flip_web() {
                Outcome::Web
            } else {
                Outcome::Save
            }
        } else if !self.waiting {
            self.notice = None;
            self.commit();
            Outcome::Ask
        } else {
            Outcome::Nothing
        }
    }

    /// Set out the field for the next question, for this frame.
    fn place_field(&mut self, held: bool) -> (r: Field)
        ensures
            (final(self)@, r) == field_of(old(self)@, held),
    {
        let was_there = self.had_field;
        self.had_field = false;
        let f = if self.waiting {
            Field::Answering
        } else if held {
            Field::Held
        } else {
            let take = if self.grab {
                true
            } else {
                let retyped = self.retype;
                self.retype = false;
                retyped || !was_there
            };
            self.had_field = true;
            Field::Typing(take)
        };
        self.grab = false;
        f
    }

    /// The keys of a frame, a copy and STOP.
    fn keyed(&mut self, input: &ChatInput, held: bool) -> (r: Outcome)
        ensures
            (final(self)@, r@) == keyed_of(old(self)@, input@, held),
            final(self)@.turns.len() >= old(self)@.turns.len(),
    {
        let mut outcome = Outcome::Nothing;
        if !held && input.enter && trimmed(&chars_of(self.draft.as_str())).len() > 0 {
            outcome = self.entered();
        }
        if !held && input.tab {
            let typed = trimmed_end(&chars_of(self.draft.as_str()));
            match crate::chat::complete(string_of(&typed).as_str()) {
                Some(finished) => {
                    self.draft = finished;
                    self.retype = true;
                },
                None => {},
            }
        }
        if input.copied {
            self.notice = Some(String::from_str("copied to the clipboard"));
        }
        if self.waiting && input.stop {
            outcome = Outcome::Stop;
        }
        outcome
    }

    /// Settle a change answered in the turn that offered it.
    fn settle_turn(&mut self, t: usize, change: &Change, taken: bool)
        requires
            t < old(self)@.turns.len(),
        ensures
            final(self)@ == settled_of(old(self)@, t as int, change@, taken),
    {
        let ghost before = turns_view(self.turns@);
        let mine = self.turns[t].mine;
        let text = crate::chat::settle(self.turns[t].text.as_str(), change, taken);
        let turn = Turn { mine, text };
        self.turns.set(t, turn);
        assert(turns_view(self.turns@) =~= before.update(
            t as int,
            (before[t as int].0, crate::chat::change::settle_of(before[t as int].1, change@, taken)),
        ));
    }

    /// One frame of the panel: what was done to it, in; what the
    /// application is asked to do, and what stands where the next question
    /// is typed, out.
    pub fn decide(&mut self, input: ChatInput, folder: &Folder) -> (r: (Outcome, Option<Field>))
        requires
            input@.answered matches Some((t, _, _)) ==> t < old(self)@.turns.len(),
        ensures
            (final(self)@, r.0@, r.1) == decide_of(old(self)@, input@, *folder),
    {
        if input.escape {
            return (Outcome::Close, None);
        }
        let held = self.pending(folder);
        let outcome = self.keyed(&input, held);
        let field = self.place_field(held);
        match input.answered {
            Some((t, change, taken)) => {
                if change.state.is_some() || change.replacing(folder).is_none() {
                    return (outcome, Some(field));
                }
                self.settle_turn(t, &change, taken);
                if taken {
                    (Outcome::Apply(change), Some(field))
                } else {
                    (Outcome::Save, Some(field))
                }
            },
            None => (outcome, Some(field)),
        }
    }
}

} // verus!
