use lib::chat::applying::{apply_change, carry_out, NoteText, Step};
use lib::chat::{Change, What};

fn note(project: &str, name: &str, lines: &[&str]) -> NoteText {
    NoteText {
        project: project.to_string(),
        name: name.to_string(),
        lines: lines.iter().map(|l| l.to_string()).collect(),
    }
}

fn notes() -> Vec<NoteText> {
    vec![note("p", "a.md", &["one", "two", "three"]), note("p", "b.md", &["x"]), note("q", "c.md", &["y"])]
}

fn change(file: Option<&str>, what: What) -> Change {
    Change { file: file.map(|f| f.to_string()), what, state: None }
}

fn strings(v: &[&str]) -> Vec<String> {
    v.iter().map(|s| s.to_string()).collect()
}

#[test]
fn an_edit_splices_the_lines_it_names_in_the_note_in_front() {
    let r = apply_change(&notes(), "p", "a.md", &change(None, What::Edit { from: 2, to: 3, text: "TWO".into() }));
    assert_eq!(r.steps, vec![Step::Splice("a.md".into(), 1, Some(2), strings(&["TWO"]))]);
    assert_eq!(r.status, "APPLIED");
    assert_eq!(r.focus, Some("a.md".to_string()));
    let past = apply_change(&notes(), "p", "a.md", &change(None, What::Edit { from: 9, to: 9, text: "x".into() }));
    assert!(past.steps.is_empty());
    assert_eq!(past.status, "THOSE LINES ARE NOT THERE");
    let end = apply_change(&notes(), "p", "a.md", &change(None, What::Edit { from: 4, to: 4, text: String::new() }));
    assert_eq!(end.steps, vec![Step::Splice("a.md".into(), 3, None, Vec::new())]);
}

#[test]
fn inserts_deletes_and_writes_reach_the_note_of_their_own_name() {
    let r = apply_change(&notes(), "p", "a.md", &change(Some("p/b.md"), What::Insert { after: 2, text: "new".into() }));
    assert_eq!(r.steps, vec![Step::Insert("b.md".into(), 1, strings(&["new"]))]);
    let r = apply_change(&notes(), "p", "a.md", &change(Some("b.md"), What::Insert { after: 3, text: "x".into() }));
    assert_eq!(r.status, "THAT LINE IS NOT THERE");
    let r = apply_change(&notes(), "p", "a.md", &change(Some("b.md"), What::Delete));
    assert_eq!(r.steps, vec![Step::Remove("b.md".into())]);
    assert_eq!(r.status, "DELETED B.MD");
    let r = apply_change(&notes(), "p", "a.md", &change(Some("z.md"), What::Delete));
    assert_eq!(r.status, "THAT FILE IS NOT THERE");
    let r = apply_change(&notes(), "p", "a.md", &change(Some("n.md"), What::Write { text: "hi\nthere".into() }));
    assert_eq!(r.steps, vec![Step::Create("n.md".into(), "hi\nthere".into())]);
    assert_eq!(r.status, "CREATED N.MD");
    let r = apply_change(&notes(), "p", "a.md", &change(Some("b.md"), What::Write { text: "hi\nthere".into() }));
    assert_eq!(r.steps, vec![Step::Rewrite("b.md".into(), strings(&["hi", "there"]))]);
    assert_eq!(r.status, "REWROTE B.MD");
    let r = apply_change(&notes(), "p", "a.md", &change(Some("b.md"), What::Lay { text: "x".into() }));
    assert!(r.steps.is_empty());
    assert_eq!(r.status, "THAT FILE IS ALREADY THERE - SAY WHICH LINES");
}

#[test]
fn a_merge_writes_the_parts_and_takes_the_others_away_or_does_nothing() {
    let merge = What::Merge { from: strings(&["a.md", "b.md"]), text: String::new() };
    let r = apply_change(&notes(), "p", "a.md", &change(Some("w.md"), merge));
    assert_eq!(
        r.steps,
        vec![
            Step::Create("w.md".into(), "one\ntwo\nthree\n\nx".into()),
            Step::Remove("a.md".into()),
            Step::Remove("b.md".into()),
        ]
    );
    assert_eq!(r.status, "MERGED INTO W.MD");
    let into = What::Merge { from: strings(&["a.md", "b.md"]), text: "both".into() };
    let r = apply_change(&notes(), "p", "a.md", &change(Some("a.md"), into));
    assert_eq!(r.steps, vec![Step::Rewrite("a.md".into(), strings(&["both"])), Step::Remove("b.md".into())]);
    let missing = What::Merge { from: strings(&["a.md", "z.md"]), text: String::new() };
    let r = apply_change(&notes(), "p", "a.md", &change(Some("w.md"), missing));
    assert!(r.steps.is_empty());
    assert_eq!(r.status, "SOME OF THOSE FILES ARE NOT THERE");
}

#[test]
fn a_change_aimed_at_another_project_moves_nothing() {
    let r = apply_change(&notes(), "p", "a.md", &change(Some("q/c.md"), What::Delete));
    assert!(r.steps.is_empty());
    assert_eq!(r.status, "THAT NOTE IS IN Q - OPEN IT TO CHANGE IT");
    assert_eq!(r.focus, None);
}

#[test]
fn merge_parts_are_found_by_their_own_name_as_the_panel_finds_them() {
    let merge = What::Merge { from: strings(&["p/a.md", "p/b.md"]), text: String::new() };
    let r = apply_change(&notes(), "p", "a.md", &change(Some("p/a.md"), merge));
    assert_eq!(r.status, "MERGED INTO A.MD");
    assert_eq!(
        r.steps,
        vec![Step::Rewrite("a.md".into(), strings(&["one", "two", "three", "", "x"])), Step::Remove("b.md".into())]
    );
}

#[test]
fn an_edit_carried_out_puts_its_text_in_place_of_its_lines() {
    let ns = notes();
    let r = apply_change(&ns, "p", "a.md", &change(None, What::Edit { from: 2, to: 9, text: "TWO\n2".into() }));
    let mut lines = ns[0].lines.clone();
    carry_out(&mut lines, &r.steps[0]);
    assert_eq!(lines, strings(&["one", "TWO", "2"]));
    let r = apply_change(&ns, "p", "a.md", &change(None, What::Edit { from: 1, to: 1, text: String::new() }));
    let mut lines = ns[0].lines.clone();
    carry_out(&mut lines, &r.steps[0]);
    assert_eq!(lines, strings(&["two", "three"]));
    let r = apply_change(&ns, "p", "a.md", &change(None, What::Edit { from: 4, to: 4, text: "four".into() }));
    let mut lines = ns[0].lines.clone();
    carry_out(&mut lines, &r.steps[0]);
    assert_eq!(lines, strings(&["one", "two", "three", "four"]));
    let r = apply_change(&ns, "p", "a.md", &change(Some("a.md"), What::Insert { after: 1, text: "x\ny".into() }));
    let mut lines = ns[0].lines.clone();
    carry_out(&mut lines, &r.steps[0]);
    assert_eq!(lines, strings(&["one", "x", "y", "two", "three"]));
}

#[test]
fn conversations_are_filed_under_a_dot_folder_per_project() {
    let vault = std::path::PathBuf::from("/vault");
    assert_eq!(lib::chat::folder(&vault, "bikes"), std::path::PathBuf::from("/vault/.chats/bikes"));
    assert_eq!(lib::chat::folder(&vault, ""), std::path::PathBuf::from("/vault/.chats"));
}

#[test]
fn what_the_conversation_offers_accepting_does_not_refuse() {
    let ns = notes();
    let a = strings(&["one", "two", "three"]);
    let b = strings(&["x"]);
    let folder = lib::chat::change::Folder {
        project: "p".into(),
        here: "a.md".into(),
        files: vec![("a.md".to_string(), &a[..]), ("b.md".to_string(), &b[..])],
    };
    let offered = [
        change(Some("p/a.md"), What::Merge { from: strings(&["p/a.md", "b.md"]), text: String::new() }),
        change(Some("b.md"), What::Edit { from: 2, to: 2, text: "y".into() }),
        change(None, What::Insert { after: 4, text: "end".into() }),
        change(Some("new.md"), What::Lay { text: "hi".into() }),
        change(Some("b.md"), What::Delete),
    ];
    for c in offered.iter() {
        assert!(c.replacing(&folder).is_some());
        let r = apply_change(&ns, "p", "a.md", c);
        assert!(!r.steps.is_empty(), "{}", r.status);
    }
}
