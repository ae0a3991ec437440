//! The editor's colon commands: what a line typed after `:` asks for. The
//! doing of it - saving, opening, closing - is the editor's.
use vstd::prelude::*;

use crate::strs::{chars_of, find, find_at, push_str, same, slice, string_of, trim, trimmed};

verus! {

/// What a command line asks for.
#[derive(Clone, PartialEq, Eq, Debug)]
pub enum Command {
    /// `:w` or `:write`: save the note, under this name in the notes folder
    /// when one is given (with `.md` when it has no extension of its own).
    Write(Option<String>),
    /// `:wq` or `:x`: save the note and close it.
    WriteQuit,
    /// `:e`, `:edit`, `:o` or `:open`: open this note, or ask which.
    Open(Option<String>),
    /// `:preview` or `:p`: show the note rendered.
    Preview,
    /// `:source`, `:s` or `:edit!`: show the note as written.
    Source,
    /// `:q` or `:close`: close the note.
    Close,
    /// `:qa` or `:quit`: leave.
    QuitAll,
    /// `:new`: a blank note beside this one.
    New,
    /// `:help`: the keys, on the status line.
    Help,
    /// Nothing typed.
    Nothing,
    /// Some other word, which is not a command.
    Unknown(String),
}

/// A command as values.
pub enum CommandView {
    Write(Option<Seq<char>>),
    WriteQuit,
    Open(Option<Seq<char>>),
    Preview,
    Source,
    Close,
    QuitAll,
    New,
    Help,
    Nothing,
    Unknown(Seq<char>),
}

impl View for Command {
    type V = CommandView;

    open spec fn view(&self) -> CommandView {
        match self {
            Command::Write(n) => CommandView::Write(match n {
                Some(s) => Some(s@),
                None => None,
            }),
            Command::WriteQuit => CommandView::WriteQuit,
            Command::Open(n) => CommandView::Open(match n {
                Some(s) => Some(s@),
                None => None,
            }),
            Command::Preview => CommandView::Preview,
            Command::Source => CommandView::Source,
            Command::Close => CommandView::Close,
            Command::QuitAll => CommandView::QuitAll,
            Command::New => CommandView::New,
            Command::Help => CommandView::Help,
            Command::Nothing => CommandView::Nothing,
            Command::Unknown(w) => CommandView::Unknown(w@),
        }
    }
}

/// The line's first word, and what follows it, both without the spaces
/// round them.
pub open spec fn verb_and_arg(line: Seq<char>) -> (Seq<char>, Seq<char>) {
    let t = trim(line);
    match find(t, seq![' ']) {
        Some(k) => (t.take(k), trim(t.skip(k + 1))),
        None => (t, seq![]),
    }
}

/// A name to save under: as given when it has an extension, else with
/// `.md`.
pub open spec fn save_name(arg: Seq<char>) -> Seq<char> {
    if find(arg, seq!['.']) is Some {
        arg
    } else {
        arg + ".md"@
    }
}

/// A name when there is one.
pub open spec fn given(arg: Seq<char>) -> Option<Seq<char>> {
    if arg.len() == 0 {
        None
    } else {
        Some(arg)
    }
}

/// What a command line asks for, by its first word.
pub open spec fn command_of(line: Seq<char>) -> CommandView {
    let (verb, arg) = verb_and_arg(line);
    if verb == "w"@ || verb == "write"@ {
        CommandView::Write(
            if arg.len() == 0 {
                None
            } else {
                Some(save_name(arg))
            },
        )
    } else if verb == "wq"@ || verb == "x"@ {
        CommandView::WriteQuit
    } else if verb == "e"@ || verb == "edit"@ || verb == "o"@ || verb == "open"@ {
        CommandView::Open(given(arg))
    } else if verb == "preview"@ || verb == "p"@ {
        CommandView::Preview
    } else if verb == "source"@ || verb == "s"@ || verb == "edit!"@ {
        CommandView::Source
    } else if verb == "q"@ || verb == "close"@ {
        CommandView::Close
    } else if verb == "qa"@ || verb == "quit"@ {
        CommandView::QuitAll
    } else if verb == "new"@ {
        CommandView::New
    } else if verb == "help"@ {
        CommandView::Help
    } else if verb.len() == 0 {
        CommandView::Nothing
    } else {
        CommandView::Unknown(verb)
    }
}

/// Whether a word is this one.
fn is(word: &Vec<char>, s: &str) -> (r: bool)
    ensures
        r == (word@ == s@),
{
    same(word, &chars_of(s))
}

/// What a command line asks for: the line typed after `:`.
pub fn command(line: &str) -> (r: Command)
    ensures
        r@ == command_of(line@),
{
    let t = trimmed(&chars_of(line));
    let space = vec![' '];
    assert(space@ =~= seq![' ']);
    let (verb, arg) = match find_at(&t, &space, 0) {
        Some(k) => {
            proof {
                crate::strs::lemma_find_from(t@, space@, 0);
                assert(crate::strs::occurs_at(t@, space@, k as int));
                assert(k + 1 <= t@.len());
            }
            let n = t.len();
            assert(k < n);
            let next: usize = k + 1;
            (slice(&t, 0, k), trimmed(&slice(&t, next, n)))
        },
        None => (t.clone(), Vec::new()),
    };
    proof {
        let (v, a) = verb_and_arg(line@);
        assert(verb@ =~= v);
        assert(arg@ =~= a);
    }
    if is(&verb, "w") || is(&verb, "write") {
        if arg.len() == 0 {
            Command::Write(None)
        } else {
            let dot = vec!['.'];
            assert(dot@ =~= seq!['.']);
            let mut name = arg.clone();
            if find_at(&arg, &dot, 0).is_none() {
                push_str(&mut name, ".md");
            }
            Command::Write(Some(string_of(&name)))
        }
    } else if is(&verb, "wq") || is(&verb, "x") {
        Command::WriteQuit
    } else if is(&verb, "e") || is(&verb, "edit") || is(&verb, "o") || is(&verb, "open") {
        if arg.len() == 0 {
            Command::Open(None)
        } else {
            Command::Open(Some(string_of(&arg)))
        }
    } else if is(&verb, "preview") || is(&verb, "p") {
        Command::Preview
    } else if is(&verb, "source") || is(&verb, "s") || is(&verb, "edit!") {
        Command::Source
    } else if is(&verb, "q") || is(&verb, "close") {
        Command::Close
    } else if is(&verb, "qa") || is(&verb, "quit") {
        Command::QuitAll
    } else if is(&verb, "new") {
        Command::New
    } else if is(&verb, "help") {
        Command::Help
    } else if verb.len() == 0 {
        Command::Nothing
    } else {
        Command::Unknown(string_of(&verb))
    }
}

} // verus!
