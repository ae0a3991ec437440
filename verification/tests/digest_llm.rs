use lib::llm::{Backend, Quiet, Watcher};
use lib::digest::{around, fingerprint, marked, numbered, offset_of, project, relisted, since, vault, Note};
use lib::llm::{Ask, Assistant, Polled, Progress, Rehearsal, Turn};
use lib::text::Cursor;

fn note(slug: &str, title: &str, lines: &[&str]) -> Note {
    Note {
        slug: slug.to_string(),
        title: title.to_string(),
        lines: lines.iter().map(|s| s.to_string()).collect(),
    }
}

fn files(v: &[(&str, &str)]) -> Vec<(String, String)> {
    v.iter().map(|(a, b)| (a.to_string(), b.to_string())).collect()
}

#[test]
fn every_note_gets_a_line_in_path_order() {
    let notes = vec![
        note("b.md", "Bee", &["# Bee", "", "Bees make honey.", "## Hives", "## Keeping"]),
        note("a.md", "Ant", &["Ants", "====", "", "| table |", "They dig."]),
    ];
    assert_eq!(
        vault(&notes),
        "- `a.md` \"Ant\": They dig.\n- `b.md` \"Bee\": Bees make honey. (sections: Hives, Keeping)"
    );
}

#[test]
fn lines_are_numbered_as_the_editor_numbers_them() {
    assert_eq!(numbered("a\nb"), "   1 | a\n   2 | b\n");
    assert_eq!(numbered("a\n"), "   1 | a\n   2 | \n");
    assert_eq!(
        project(&files(&[("x.md", "hi"), ("y.md", "")])),
        "=== x.md ===\n   1 | hi\n\n=== y.md ===\n   1 | \n\n"
    );
}

#[test]
fn the_same_text_has_the_same_fingerprint() {
    assert_eq!(fingerprint("same"), fingerprint("same"));
    assert_ne!(fingerprint("one"), fingerprint("two"));
}

#[test]
fn nothing_moved_is_nothing_to_say() {
    let now = files(&[("a.md", "x")]);
    assert_eq!(since(&now, &now), None);
}

#[test]
fn what_moved_is_said() {
    let shown = files(&[("a.md", "one\ntwo\nthree"), ("gone.md", "bye")]);
    let now = files(&[("a.md", "one\n2\nthree"), ("new.md", "hello")]);
    let said = since(&shown, &now).unwrap();
    assert!(said.starts_with("STOP. The files below have changed on disk"));
    assert!(said.contains("In `a.md`, "));
    assert!(said.contains(
        "In `a.md`, it now reads, in full:\n\n   1 | one\n   2 | 2\n   3 | three\n\n\nThe file is 3 lines long."
    ));
    assert!(said.contains("`new.md` now contains, in full:\n\n   1 | hello"));
    assert!(said.ends_with("`gone.md` is gone."));
}

#[test]
fn a_line_changed_in_a_long_file_is_given_as_a_hunk() {
    let old: Vec<String> = (1..=30).map(|i| format!("line {i}")).collect();
    let mut new = old.clone();
    new[14] = "X".to_string();
    let shown = files(&[("a.md", old.join("\n").as_str())]);
    let now = files(&[("a.md", new.join("\n").as_str())]);
    let said = since(&shown, &now).unwrap();
    assert!(said.ends_with(
        "In `a.md`, these lines changed:\n\n@@ -13,5 +13,5 @@\n line 13\n line 14\n-line 15\n+X\n line 16\n line 17\n\nThe file is 30 lines long."
    ));
}

#[test]
fn an_unchanged_list_is_not_relisted() {
    let list = "- `a.md` \"A\": first\n- `b.md` \"B\": second";
    assert_eq!(relisted(list, list), None);
}

#[test]
fn a_changed_line_of_the_list_is_given_alone() {
    let before = "- `a.md` \"A\": a fairly long first line of the list\n- `b.md` \"B\": a fairly long second line of the list";
    let after = "- `a.md` \"A\": a fairly long first line of the list\n- `b.md` \"B\": changed";
    assert_eq!(
        relisted(before, after),
        Some(
            "The list of notes at the top is out of date. These lines of it are different now:\n\n- `b.md` \"B\": changed"
                .to_string()
        )
    );
}

#[test]
fn a_note_no_longer_in_the_vault_is_named() {
    let keep = "- `a.md` \"A\": a fairly long first line of the list that stays as it is";
    let before = format!("{keep}\n- `b.md` \"B\": second");
    assert_eq!(
        relisted(&before, keep),
        Some("The list of notes at the top is out of date.\n\nThese notes are no longer in the vault: `b.md`".to_string())
    );
}

#[test]
fn a_list_rewritten_wholesale_is_given_again() {
    let before = "- `a.md` \"A\": one";
    let after = "- `c.md` \"C\": three";
    assert_eq!(
        relisted(before, after),
        Some("The list of notes at the top is out of date. It is now:\n\n- `c.md` \"C\": three".to_string())
    );
}

#[test]
fn the_passage_is_marked_in_its_note() {
    assert_eq!(
        marked("before\npassage\nafter", 7, 14),
        Some("before\n<selection>passage</selection>\nafter".to_string())
    );
    assert_eq!(marked("passage", 0, 7), None);
    assert_eq!(marked("  passage \n", 2, 9), None);
}

#[test]
fn a_long_note_is_kept_to_a_window_of_whole_lines() {
    let line = "x".repeat(99);
    let head: Vec<String> = (0..50).map(|_| line.clone()).collect();
    let whole = format!("{}\nPASSAGE\n{}", head.join("\n"), head.join("\n"));
    let before = head.join("\n").len() + 1;
    let out = marked(&whole, before, before + 7).unwrap();
    assert!(out.starts_with("[...earlier lines not shown...]\n"));
    assert!(out.ends_with("\n[...later lines not shown...]"));
    assert!(out.contains("<selection>PASSAGE</selection>"));
    assert!(out.len() < whole.len());
}

#[test]
fn places_are_byte_offsets() {
    assert_eq!(offset_of("ab\ncd", Cursor { line: 1, col: 1 }), 4);
    assert_eq!(offset_of("ab\ncd", Cursor { line: 0, col: 9 }), 2);
    assert_eq!(offset_of("ab\ncd", Cursor { line: 5, col: 0 }), 5);
    assert_eq!(offset_of("\u{e9}\u{e9}", Cursor { line: 0, col: 1 }), 2);
    assert_eq!(
        around("one\ntwo\nthree", Cursor { line: 1, col: 0 }, Cursor { line: 1, col: 3 }),
        Some("one\n<selection>two</selection>\nthree".to_string())
    );
}

#[test]
fn the_rehearsal_fixes_three_misspellings() {
    let ask = Ask {
        source: "  teh cat adn  the dog".into(),
        request: "Fix".into(),
        turns: Vec::new(),
        within: None,
        file: String::new(),
        vault: String::new(),
        tools: Vec::new(),
        since: None,
        web_off: false,
    };
    assert_eq!(Rehearsal.answer(&ask), Ok("  the cat and the dog".to_string()));
    assert_eq!(Rehearsal.name(), "REHEARSAL");
    assert_eq!(Rehearsal.report(&ask).prompt, 5);
    let same = Ask { source: "fine".into(), ..ask };
    assert_eq!(Rehearsal.answer(&same), Ok("fine (fix)".to_string()));
}

#[test]
fn one_question_at_a_time() {
    let mut a = Assistant::new("REHEARSAL".into());
    assert_eq!(a.name(), "REHEARSAL");
    assert!(!a.busy());
    assert!(a.ask(true));
    assert!(a.busy());
    assert!(!a.ask(true));
    assert!(a.stop());
    assert_eq!(a.partial(Some("half".into())), "half");
    assert_eq!(a.partial(None), "half");
    let p = Progress { written: 3, ..Progress::none() };
    assert_eq!(a.progress(Some(p)).written, 3);
    assert_eq!(a.progress(None).written, 3);
    assert_eq!(a.poll(Polled::Empty), None);
    assert_eq!(a.poll(Polled::Arrived(Ok("done".into()))), Some(Ok("done".to_string())));
    assert!(!a.busy());
    assert_eq!(a.partial(None), "");
    assert!(!a.ask(false));
    assert!(a.gone());
    assert_eq!(a.poll(Polled::Disconnected), Some(Err("the assistant went away".to_string())));
}

#[test]
fn nothing_yet_is_all_zero() {
    let p = Progress::none();
    assert_eq!((p.prompt, p.read, p.written, p.steps), (0, 0, 0, 0));
    assert_eq!(p.elapsed, std::time::Duration::ZERO);
    let _ = Turn { mine: true, text: String::new() };
}

#[test]
fn the_stub_fixes_the_typos_it_is_shown() {
    let ask = Ask {
        source: "teh meeting was ok".into(),
        request: "fix the typos".into(),
        turns: Vec::new(),
        within: None,
        file: String::new(),
        vault: String::new(),
        tools: Vec::new(),
        since: None,
        web_off: false,
    };
    assert_eq!(Rehearsal.answer(&ask), Ok("the meeting was ok".to_string()));
}

#[test]
fn the_rehearsal_as_a_backend_names_itself_and_answers_at_once() {
    let mut b: Box<dyn Backend> = lib::assistant();
    assert_eq!(b.name(), "REHEARSAL");
    assert!(Quiet.carry_on());
    let ask = Ask {
        source: "teh end".into(),
        request: "fix".into(),
        turns: Vec::new(),
        within: None,
        file: String::new(),
        vault: String::new(),
        tools: Vec::new(),
        since: None,
        web_off: false,
    };
    assert_eq!(b.edit(&ask, &mut Quiet), Ok("the end".to_string()));
    let mut r = Rehearsal;
    assert_eq!(Backend::name(&r), "REHEARSAL");
    assert_eq!(r.edit(&ask, &mut Quiet), Ok("the end".to_string()));
}

fn named(v: &[(&str, &str)]) -> Vec<(String, String)> {
    v.iter().map(|(a, b)| (a.to_string(), b.to_string())).collect()
}

#[test]
fn there_is_something_to_say_exactly_when_something_moved() {
    let shown = named(&[("a.md", "one"), ("b.md", "two")]);
    assert_eq!(since(&shown, &named(&[("b.md", "two"), ("a.md", "one")])), None);
    let changed = since(&shown, &named(&[("a.md", "one!"), ("b.md", "two")])).unwrap();
    assert!(changed.starts_with("STOP. The files below have changed on disk"));
    let gone = since(&shown, &named(&[("a.md", "one")])).unwrap();
    assert!(gone.contains("`b.md` is gone."));
    let new = since(&shown, &named(&[("a.md", "one"), ("b.md", "two"), ("c.md", "3")])).unwrap();
    assert!(new.contains("`c.md` now contains, in full:"));
}

#[test]
fn a_list_is_owed_again_exactly_when_it_moved() {
    let list = "`a.md` A - first\n`b.md` B - second";
    assert_eq!(relisted(list, list), None);
    assert_eq!(relisted(list, "`b.md` B - second\n`a.md` A - first"), None);
    assert!(relisted(list, "`a.md` A - first\n`b.md` B - changed").is_some());
    assert!(relisted(list, "`a.md` A - first").is_some());
    assert!(relisted(list, "`a.md` A - first\n`b.md` B - second\nno name here").is_some());
}

#[test]
fn each_file_gone_is_said_gone() {
    let shown = named(&[("a.md", "one"), ("b.md", "two"), ("c.md", "three")]);
    let said = since(&shown, &named(&[("b.md", "two")])).unwrap();
    assert!(said.contains("`a.md` is gone."));
    assert!(said.contains("`c.md` is gone."));
    assert!(!said.contains("`b.md` is gone."));
}
