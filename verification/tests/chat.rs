use lib::chat::{
    ago, called, complete, completions, copyable, fence_markers, lookups, manual, one_line, parse,
    Chat, Lookup, Picked, Picker,
};
use lib::chat::change::Folder;
use lib::chat::conversation::{ChatInput, Field};
use lib::chat::{proposals, Filed, Outcome};
use lib::chat::panel::{turns_said, PickerClicks, PickerKey};
use lib::llm::Turn;

fn turn(mine: bool, text: &str) -> Turn {
    Turn { mine, text: text.to_string() }
}

#[test]
fn the_vault_is_called_by_name() {
    assert_eq!(called(""), "THE VAULT");
    assert_eq!(called("work"), "WORK");
}

#[test]
fn how_long_ago() {
    assert_eq!(ago(None), "just now");
    assert_eq!(ago(Some(59)), "just now");
    assert_eq!(ago(Some(120)), "2m ago");
    assert_eq!(ago(Some(7200)), "2h ago");
    assert_eq!(ago(Some(172800)), "2d ago");
}

#[test]
fn the_manual_lists_every_command() {
    assert_eq!(
        manual(),
        "/rename <name>   call this conversation something\n\
         /web             let it look things up, or stop it\n\
         /help            list what can be typed here"
    );
}

#[test]
fn commands_complete_as_far_as_they_agree() {
    assert_eq!(complete("/re"), Some("/rename ".to_string()));
    assert_eq!(complete("/h"), Some("/help".to_string()));
    assert_eq!(complete("/"), Some("/".to_string()));
    assert_eq!(complete("/zz"), None);
    assert_eq!(complete("hello"), None);
    assert_eq!(completions("/rename x").len(), 0);
    let names: Vec<&str> = completions("/").iter().map(|c| c.name).collect();
    assert_eq!(names, vec!["rename", "web", "help"]);
}

#[test]
fn a_transcript_is_read_back_as_turns() {
    let text = "# A chat\n\n## you\n\nhello\n\n## assistant\n\nhi there\n";
    assert_eq!(parse(text), vec![turn(true, "hello"), turn(false, "hi there")]);
    assert_eq!(parse("no turns"), Vec::<Turn>::new());
}

#[test]
fn a_marker_inside_a_turn_is_kept_from_starting_one() {
    assert_eq!(fence_markers("## you"), " ## you");
    assert_eq!(fence_markers("## you said"), "## you said");
    assert_eq!(fence_markers("```\n## you\n```"), "```\n## you\n```");
}

#[test]
fn one_line_of_something() {
    assert_eq!(one_line("\n# Title here\nmore", 46), "Title here");
    assert_eq!(one_line("one two three", 7), "one...");
    assert_eq!(one_line("one two three", 8), "one two...");
}

#[test]
fn what_was_looked_up_is_lifted_out() {
    let reply = "<used tool=\"calc\" arg=\"2+2\">\n4\n</used>\n\nIt is 4.";
    let (prose, used) = lookups(reply);
    assert_eq!(prose, "It is 4.");
    assert_eq!(used.len(), 1);
    assert_eq!(used[0].tool, "calc");
    assert_eq!(used[0].arg, "2+2");
    assert_eq!(used[0].result, "4");
    assert_eq!(used[0].said(), "WORKED OUT 2+2");
    assert_eq!(copyable(&turn(false, reply)), "It is 4.");
    assert_eq!(copyable(&turn(true, "  mine  ")), "mine");
}

#[test]
fn a_lookup_says_what_it_did() {
    let l = |tool: &str, arg: &str| Lookup { tool: tool.into(), arg: arg.into(), result: String::new() };
    assert_eq!(l("date", "today").said(), "CHECKED THE DATE AND TIME");
    assert_eq!(l("date", "12-25").said(), "CHECKED WHEN 12-25 IS");
    assert_eq!(l("fetch", "https://example.com/a/b").said(), "READ EXAMPLE.COM");
    assert_eq!(l("odd", "x").said(), "USED ODD ON X");
}

#[test]
fn the_picker_starts_on_a_new_conversation() {
    let p = Picker::new();
    assert!(matches!(p.chosen(&[]), Picked::Fresh));
    assert!(matches!(p.remove(&[], 0), Picked::Nothing));
}

fn chat() -> Chat {
    Chat::new("proj".to_string(), "a.md".to_string())
}

#[test]
fn a_new_chat_is_called_by_its_first_question() {
    let mut c = chat();
    assert_eq!(c.title(), "NEW CHAT");
    c.draft = "  what is this?  ".to_string();
    c.commit();
    assert_eq!(c.turns, vec![turn(true, "what is this?")]);
    assert!(c.waiting);
    assert_eq!(c.draft, "");
    assert_eq!(c.title(), "what is this?");
}

#[test]
fn nothing_typed_is_not_a_turn() {
    let mut c = chat();
    c.draft = "   ".to_string();
    c.commit();
    assert!(c.turns.is_empty());
    assert!(!c.waiting);
}

#[test]
fn commands_are_run_and_say_what_they_did() {
    let mut c = chat();
    c.draft = "/rename Groceries".to_string();
    assert!(c.command("/rename Groceries"));
    assert_eq!(c.title(), "Groceries");
    assert_eq!(c.notice, Some("renamed to \"Groceries\"".to_string()));
    assert_eq!(c.draft, "");
    assert!(c.command("/rename"));
    assert_eq!(c.notice, Some("rename to what? /rename <name>".to_string()));
    assert!(c.command(" /web "));
    assert!(c.take_flip_web());
    assert!(!c.take_flip_web());
    assert!(c.command("/nope"));
    assert_eq!(c.notice, Some("no command called /nope - /help lists them".to_string()));
    assert!(c.command("/help"));
    assert_eq!(c.notice, Some(manual()));
    assert!(!c.command("hello"));
}

#[test]
fn an_answer_is_filed_and_a_failure_kept() {
    let mut c = chat();
    c.draft = "q".to_string();
    c.commit();
    assert!(c.answered(Ok("  Sure.  ".to_string())));
    assert!(!c.waiting);
    assert_eq!(c.turns.last(), Some(&turn(false, "Sure.")));
    assert!(!c.answered(Err("it broke".to_string())));
    assert_eq!(c.failed, Some("it broke".to_string()));
    assert_eq!(c.turns.len(), 2);
}

#[test]
fn the_transcript_as_filed_and_as_pasted() {
    let mut c = chat();
    c.draft = "q".to_string();
    c.commit();
    c.answered(Ok("<used tool=\"calc\" arg=\"1\">\n1\n</used>\n\nOne.".to_string()));
    assert_eq!(
        c.to_text(),
        "# q\n\n## you\n\nq\n\n## assistant\n\n<used tool=\"calc\" arg=\"1\">\n1\n</used>\n\nOne.\n\n"
    );
    assert_eq!(c.transcript(), "# q\n\n## you\n\nq\n\n## assistant\n\nOne.");
    let again = Chat::opened(std::path::PathBuf::from("/c/q.md"), &c.to_text(), "proj".into(), "a.md".into());
    assert_eq!(again.turns, c.turns);
    assert_eq!(again.title(), "q");
}

#[test]
fn a_filed_chat_keeps_its_name() {
    let c = Chat::opened(
        std::path::PathBuf::from("/c/x.md"),
        "# Named\n\n## you\n\nhello\n",
        "p".into(),
        "f".into(),
    );
    assert_eq!(c.name, Some("Named".to_string()));
    assert_eq!(c.title(), "Named");
    let c = Chat::opened(std::path::PathBuf::from("/c/x.md"), "#   \n## you\n\nhello\n", "p".into(), "f".into());
    assert_eq!(c.name, None);
}

#[test]
fn what_a_file_says_is_remembered() {
    let mut c = chat();
    assert_eq!(c.knows("a.md"), None);
    c.wrote("a.md", Some("one"));
    c.wrote("b.md", Some("two"));
    c.wrote("a.md", Some("three"));
    assert_eq!(c.knows("a.md"), Some("three".to_string()));
    c.wrote("b.md", None);
    assert_eq!(c.knows("b.md"), None);
}

fn files(v: &[(&str, &str)]) -> Vec<(String, String)> {
    v.iter().map(|(a, b)| (a.to_string(), b.to_string())).collect()
}

#[test]
fn a_small_project_is_written_out_again_rather_than_corrected() {
    let mut c = chat();
    let index = "`a.md` A - first";
    let now = files(&[("a.md", "line one\nline two")]);
    let (i, p, moved) = c.context(index, &now);
    assert_eq!(i, index);
    assert_eq!(p, "=== a.md ===\n   1 | line one\n   2 | line two\n\n");
    assert_eq!(moved, None);
    let (i2, p2, moved2) = c.context(index, &now);
    assert_eq!((i2, p2, moved2), (index.to_string(), p.clone(), None));
    let later = files(&[("a.md", "line one\nline 2")]);
    let (i3, p3, moved3) = c.context(index, &later);
    assert_eq!(i3, index);
    assert_eq!(p3, "=== a.md ===\n   1 | line one\n   2 | line 2\n\n");
    assert!(moved3.unwrap().starts_with("STOP."));
    let (_, _, moved4) = c.context(index, &later);
    assert_eq!(moved4, None);
}

#[test]
fn a_large_project_is_corrected_and_its_front_kept() {
    let mut c = chat();
    let index = "`a.md` A - first";
    let long: Vec<String> = (1..=60).map(|i| format!("this is line number {i} of the note")).collect();
    let before = long.join("\n");
    let mut changed = long.clone();
    changed[30] = "this line was changed".to_string();
    let after = changed.join("\n");
    let now = files(&[("a.md", before.as_str())]);
    let (_, p, _) = c.context(index, &now);
    let later = files(&[("a.md", after.as_str())]);
    let (i2, p2, moved) = c.context(index, &later);
    assert_eq!(i2, index);
    assert_eq!(p2, p);
    let moved = moved.unwrap();
    assert!(moved.starts_with("STOP."));
    assert!(moved.contains("In `a.md`"));
    assert!(moved.contains("this line was changed"));
    let (_, p3, moved3) = c.context(index, &later);
    assert_eq!(p3, p);
    assert_eq!(moved3, None);
}

#[test]
fn a_changed_list_of_notes_is_corrected() {
    let mut c = chat();
    let long: Vec<String> = (1..=60).map(|i| format!("this is line number {i} of the note")).collect();
    let text = long.join("\n");
    let now = files(&[("a.md", text.as_str())]);
    let index = "`a.md` A - first\n`b.md` B - second";
    c.context(index, &now);
    let moved_index = "`a.md` A - first\n`b.md` B - changed";
    let (i, _, moved) = c.context(moved_index, &now);
    assert_eq!(i, index);
    assert_eq!(
        moved,
        Some("The list of notes at the top is out of date. These lines of it are different now:\n\n`b.md` B - changed".to_string())
    );
    let (_, _, again) = c.context(moved_index, &now);
    assert_eq!(again, None);
}

#[test]
fn a_filed_chat_reads_back_with_its_markers_fenced_off() {
    let mut c = chat();
    c.draft = "how do I write a heading?".to_string();
    c.commit();
    c.answered(Ok("Like this:\n## you\nand in code:\n```\n## assistant\n```".to_string()));
    c.draft = "## assistant\nthanks".to_string();
    c.commit();
    let back = parse(&c.to_text());
    assert_eq!(
        back,
        vec![
            turn(true, "how do I write a heading?"),
            turn(false, "Like this:\n ## you\nand in code:\n```\n## assistant\n```"),
            turn(true, "## assistant\nthanks"),
        ]
    );
    for (t, b) in c.turns.iter().zip(back.iter()) {
        assert_eq!(b.text, fence_markers(&t.text).trim());
    }
}

#[test]
fn the_weight_is_counted_once_there_is_a_count_and_guessed_before() {
    let mut c = chat();
    c.turns.push(turn(true, "hello"));
    c.turns.push(turn(false, "h\u{e9}llo"));
    let lines = vec!["ab".to_string(), "c".to_string()];
    let folder = Folder { project: String::new(), here: "a.md".to_string(), files: vec![("a.md".to_string(), &lines[..])] };
    assert_eq!(c.weight(&folder), ((5 + 6 + 3 + 2) / 4, false));
    c.overhead = 100;
    assert_eq!(c.weight(&folder), (104, false));
    c.progress.prompt = 1200;
    assert_eq!(c.weight(&folder), (1200, true));
}

fn no_input() -> ChatInput {
    ChatInput { escape: false, enter: false, tab: false, stop: false, copied: false, answered: None }
}

#[test]
fn a_frame_of_the_panel_asks_runs_completes_and_closes() {
    let lines = vec!["x".to_string()];
    let folder = Folder { project: "proj".to_string(), here: "a.md".to_string(), files: vec![("a.md".to_string(), &lines[..])] };
    let mut c = chat();
    let (o, f) = c.decide(no_input(), &folder);
    assert!(matches!(o, Outcome::Nothing));
    assert_eq!(f, Some(Field::Typing(true)));
    let (_, f) = c.decide(no_input(), &folder);
    assert_eq!(f, Some(Field::Typing(false)));
    c.draft = "/re".to_string();
    let (_, f) = c.decide(ChatInput { tab: true, ..no_input() }, &folder);
    assert_eq!(c.draft, "/rename ");
    assert_eq!(f, Some(Field::Typing(true)));
    let (_, f) = c.decide(no_input(), &folder);
    assert_eq!(f, Some(Field::Typing(false)));
    c.draft = "/rename Plans".to_string();
    let (o, _) = c.decide(ChatInput { enter: true, ..no_input() }, &folder);
    assert!(matches!(o, Outcome::Save));
    assert_eq!(c.title(), "Plans");
    c.draft = "/web".to_string();
    let (o, _) = c.decide(ChatInput { enter: true, ..no_input() }, &folder);
    assert!(matches!(o, Outcome::Web));
    c.draft = "what now?".to_string();
    let (o, f) = c.decide(ChatInput { enter: true, ..no_input() }, &folder);
    assert!(matches!(o, Outcome::Ask));
    assert_eq!(f, Some(Field::Answering));
    assert_eq!(c.turns, vec![turn(true, "what now?")]);
    c.draft = "and?".to_string();
    let (o, _) = c.decide(ChatInput { enter: true, ..no_input() }, &folder);
    assert!(matches!(o, Outcome::Nothing));
    assert_eq!(c.turns.len(), 1);
    let (o, _) = c.decide(ChatInput { stop: true, copied: true, ..no_input() }, &folder);
    assert!(matches!(o, Outcome::Stop));
    assert_eq!(c.notice, Some("copied to the clipboard".to_string()));
    let (o, f) = c.decide(ChatInput { escape: true, enter: true, ..no_input() }, &folder);
    assert!(matches!(o, Outcome::Close));
    assert_eq!(f, None);
    assert_eq!(c.legend(false), "IN PROJ - LOOKING AT A.MD - /HELP LISTS THE COMMANDS");
    assert_eq!(c.legend(true), "IN PROJ - A CHANGE IS WAITING");
}

#[test]
fn a_change_offered_holds_the_field_until_it_is_answered() {
    let lines = vec!["x".to_string()];
    let folder = Folder { project: "proj".to_string(), here: "a.md".to_string(), files: vec![("a.md".to_string(), &lines[..])] };
    let mut c = chat();
    c.draft = "change it".to_string();
    c.commit();
    let reply = "Here:\n<edit file=\"a.md\" lines=\"1\">\ny\n</edit>";
    c.answered(Ok(reply.to_string()));
    assert!(c.pending(&folder));
    c.draft = "another".to_string();
    let (o, f) = c.decide(ChatInput { enter: true, ..no_input() }, &folder);
    assert!(matches!(o, Outcome::Nothing));
    assert_eq!(f, Some(Field::Held));
    assert_eq!(c.turns.len(), 2);
    let (_, changes) = proposals(&c.turns[1].text);
    let change = changes[0].clone();
    let (o, _) = c.decide(ChatInput { answered: Some((1, change.clone(), true)), ..no_input() }, &folder);
    match o {
        Outcome::Apply(applied) => assert_eq!(applied, change),
        _ => panic!("expected the change to be applied"),
    }
    assert!(c.turns[1].text.contains("applied"));
    assert!(!c.pending(&folder));
    let settled = lib::chat::Change { state: Some(true), ..change.clone() };
    let before = c.turns.clone();
    let (o, _) = c.decide(ChatInput { answered: Some((1, settled, true)), ..no_input() }, &folder);
    assert!(matches!(o, Outcome::Nothing));
    assert_eq!(c.turns, before);
    let nowhere = lib::chat::Change { file: Some("gone.md".into()), ..change };
    let (o, _) = c.decide(ChatInput { answered: Some((1, nowhere, true)), ..no_input() }, &folder);
    assert!(matches!(o, Outcome::Nothing));
}

fn filed(name: &str, turns: usize) -> Filed {
    Filed {
        path: std::path::PathBuf::from(format!("/c/{name}.md")),
        title: name.to_string(),
        turns,
        when: std::time::SystemTime::UNIX_EPOCH,
    }
}

fn no_clicks() -> PickerClicks {
    PickerClicks { asking: None, kept: false, answered: false, clicked: None }
}

#[test]
fn the_picker_walks_opens_and_asks_before_throwing_away() {
    let chats = vec![filed("one", 1), filed("two", 4)];
    let mut p = Picker::new();
    assert!(matches!(p.frame(&[PickerKey::Enter], false, no_clicks(), &chats), Picked::Nothing));
    assert_eq!(p.foot(&chats), "2 CHATS");
    assert!(matches!(p.frame(&[PickerKey::Up], false, no_clicks(), &chats), Picked::Nothing));
    assert_eq!(p.selected, 2);
    assert!(matches!(p.frame(&[PickerKey::Char('j')], false, no_clicks(), &chats), Picked::Nothing));
    assert_eq!(p.selected, 0);
    assert!(matches!(p.frame(&[PickerKey::Char('d')], false, no_clicks(), &chats), Picked::Nothing));
    assert!(matches!(p.frame(&[PickerKey::Char('n')], true, no_clicks(), &chats), Picked::Nothing));
    assert_eq!(p.selected, 1);
    match p.frame(&[PickerKey::Enter], false, no_clicks(), &chats) {
        Picked::Open(path) => assert_eq!(path, std::path::PathBuf::from("/c/one.md")),
        _ => panic!("expected a conversation to open"),
    }
    p.frame(&[PickerKey::Backspace], false, no_clicks(), &chats);
    assert_eq!(p.foot(&chats), "DELETE \"ONE\" FOR GOOD?");
    assert!(matches!(p.frame(&[PickerKey::Down], false, no_clicks(), &chats), Picked::Nothing));
    assert_eq!(p.selected, 1);
    assert!(matches!(p.frame(&[PickerKey::Escape], false, no_clicks(), &chats), Picked::Nothing));
    assert_eq!(p.foot(&chats), "2 CHATS");
    p.frame(&[], false, PickerClicks { asking: Some(2), ..no_clicks() }, &chats);
    assert_eq!(p.selected, 2);
    match p.frame(&[PickerKey::Char('y')], false, no_clicks(), &chats) {
        Picked::Delete(path) => assert_eq!(path, std::path::PathBuf::from("/c/two.md")),
        _ => panic!("expected a conversation to go"),
    }
    match p.frame(&[], false, PickerClicks { clicked: Some(0), ..no_clicks() }, &chats) {
        Picked::Fresh => {}
        _ => panic!("expected a new conversation"),
    }
    assert!(matches!(p.frame(&[PickerKey::Escape, PickerKey::Down], false, no_clicks(), &chats), Picked::Close));
    assert_eq!(turns_said(1), "1 TURN");
    assert_eq!(turns_said(4), "4 TURNS");
    assert_eq!(Picker::new().foot(&[]), "NOTHING YET");
}

#[test]
fn a_conversation_is_filed_under_its_title_made_a_file_name() {
    assert_eq!(lib::chat::slug("What is this? A Test!"), "what-is-this-a-test");
    assert_eq!(lib::chat::slug("???"), "chat");
    assert_eq!(lib::chat::slug(&"a".repeat(50)), "a".repeat(40));
    assert_eq!(lib::chat::nth_name("plans", 0), "plans.md");
    assert_eq!(lib::chat::nth_name("plans", 2), "plans-2.md");
}
