//! A markdown note editor's own logic: what its assistant is told and how its
//! answers are read, the changes a conversation proposes to a project, the
//! diff of a suggestion, the calendar and clock its tools answer with, the
//! finder, the indent rules, and the dialogs' decisions - each stated and
//! proved.
use vstd::prelude::*;

pub mod answering;
pub mod assist;
pub mod calc;
pub mod calendar;
pub mod chat;
pub mod clock;
pub mod commands;
pub mod dialog;
pub mod diff;
pub mod digest;
pub mod fetch;
pub mod finder;
pub mod indent;
pub mod llm;
pub mod markdown;
pub mod strs;
pub mod text;

use crate::llm::{Backend, Rehearsal};

verus! {

/// What a menu opened on, and how far it has got: a note or a project, or
/// the confirmation one step on that means it.
#[derive(Clone, PartialEq, Eq, Debug)]
pub enum Context {
    Note(usize),
    SureAboutNote(usize),
    Project(String),
    SureAboutProject(String),
}

/// What renaming is renaming, while a name is being typed for it.
#[derive(Clone, PartialEq, Eq, Debug)]
pub enum Renaming {
    Note(usize),
    Project(String),
}

/// Which of the three panes the keyboard is aimed at.
#[derive(Clone, Copy, PartialEq, Eq, Debug)]
pub enum Pane {
    /// Vim has the keys.
    Editor,
    /// The note list: j/k walk it, Enter or Escape goes back to the editor.
    Notes,
    /// The sidebar's filter field.
    Search,
}

/// The assistant this build has: the rehearsal, which answers without a
/// model. It is handed over as itself, boxed, and goes wherever a
/// `Box<dyn Backend>` is wanted; that way what it is called is known.
pub fn assistant() -> (r: Box<Rehearsal>)
    ensures
        r.called() == "REHEARSAL"@,
{
    Box::new(Rehearsal)
}

} // verus!
