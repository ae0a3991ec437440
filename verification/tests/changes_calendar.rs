use lib::calendar::{civil_from_days, days_from_civil};
use lib::chat::change::{Change, Folder, Offering, What};
use lib::chat::{as_sent, elsewhere, own_name, proposals, settle, without_bodies};
use lib::clock::{about, day_month, stamp, weekday, Now};
use lib::diff::{is_empty, words, Change as Moved};
use lib::llm::Turn;

fn text(v: Vec<char>) -> String {
    v.into_iter().collect()
}

#[test]
fn days_are_counted_from_the_epoch() {
    assert_eq!(days_from_civil((1970, 1, 1)), 0);
    assert_eq!(days_from_civil((2024, 1, 1)), 19723);
    assert_eq!(days_from_civil((1969, 12, 31)), -1);
    assert_eq!(civil_from_days(0), (1970, 1, 1));
    assert_eq!(civil_from_days(19723), (2024, 1, 1));
    assert_eq!(civil_from_days(-1), (1969, 12, 31));
}

#[test]
fn a_day_counted_and_read_back_is_the_same_day() {
    for ymd in [(2000, 2, 29), (1900, 3, 1), (2026, 12, 25), (1, 1, 1), (-44, 3, 15)] {
        assert_eq!(civil_from_days(days_from_civil(ymd)), ymd);
    }
    for days in [-1_000_000, -1, 0, 59, 60, 365, 1_000_000] {
        assert_eq!(days_from_civil(civil_from_days(days)), days);
    }
}

#[test]
fn weekdays_come_round_every_seven_days() {
    assert_eq!(weekday(0), "Thursday");
    assert_eq!(weekday(-1), "Wednesday");
    assert_eq!(weekday(19723), "Monday");
    assert_eq!(weekday(19723 + 7 * 1000), "Monday");
    assert_eq!(weekday(19723 - 7 * 1000), "Monday");
}

#[test]
fn days_are_written_out() {
    assert_eq!(text(stamp((2025, 12, 25))), "25 December 2025");
    assert_eq!(text(day_month(3, 1)), "1 March");
}

fn now() -> Now {
    Now { year: 2026, month: 8, day: 27, clock: "10:00".into(), zone: "UTC".into() }
}

#[test]
fn today_is_said_in_full() {
    let said = about("today", &now()).unwrap();
    assert!(said.starts_with("Thursday 27 August 2026, and the time is 10:00 (UTC). Do not work out"));
    assert_eq!(about("", &now()), about("now", &now()));
}

#[test]
fn another_day_is_counted_from_today() {
    let said = about("2026-12-25", &now()).unwrap();
    assert!(said.contains("which is 120 days from today"));
    let said = about("2026-08-28", &now()).unwrap();
    assert!(said.contains("which is tomorrow"));
    let said = about("2026-08-26", &now()).unwrap();
    assert!(said.contains("which was yesterday"));
}

#[test]
fn a_day_is_said_with_its_weekday_and_where_it_stands() {
    let said = about("2026-12-25", &now()).unwrap();
    assert!(said.starts_with("25 December 2026 is a Friday, which is 120 days from today"));
    let said = about("2026-08-27", &now()).unwrap();
    assert!(said.starts_with("27 August 2026 is a Thursday, which is today"));
    let said = about("2026-08-26", &now()).unwrap();
    assert!(said.starts_with("26 August 2026 is a Wednesday, which was yesterday"));
    let said = about("2026-08-01", &now()).unwrap();
    assert!(said.starts_with("1 August 2026 is a Saturday, which was 26 days ago"));
    let said = about("1970-01-01", &now()).unwrap();
    assert!(said.starts_with("1 January 1970 is a Thursday, which was "));
}

#[test]
fn a_refusal_says_the_question_back() {
    let err = about("the day after the party", &now()).unwrap_err();
    assert!(err.starts_with("the day after the party is not a date this understands - write it as 2026-12-25"));
}

#[test]
fn a_day_that_is_not_one_is_refused() {
    let err = about("nonsense", &now()).unwrap_err();
    assert!(err.starts_with("nonsense is not a date this understands"));
}

#[test]
fn a_change_of_words_is_a_diff() {
    let pieces = words("the cat sat", "the dog sat");
    let kinds: Vec<(Moved, String)> = pieces.iter().map(|p| (p.change, p.text.clone())).collect();
    assert_eq!(
        kinds,
        vec![
            (Moved::Same, "the".to_string()),
            (Moved::Removed, "cat".to_string()),
            (Moved::Added, "dog".to_string()),
            (Moved::Same, "sat".to_string()),
        ]
    );
    assert!(!is_empty(&pieces));
}

#[test]
fn the_same_text_is_no_change() {
    assert!(is_empty(&words("one two\nthree", "one two\nthree")));
    assert!(is_empty(&words("", "")));
}

#[test]
fn a_diff_spells_out_both_sides() {
    let (a, b) = ("a b c d e", "a x c e f");
    let pieces = words(a, b);
    let side = |skip: Moved| -> Vec<String> {
        pieces
            .iter()
            .filter(|p| p.change != skip)
            .flat_map(|p| p.text.split(' ').map(|w| w.to_string()).collect::<Vec<_>>())
            .collect()
    };
    assert_eq!(side(Moved::Added), a.split(' ').map(|w| w.to_string()).collect::<Vec<_>>());
    assert_eq!(side(Moved::Removed), b.split(' ').map(|w| w.to_string()).collect::<Vec<_>>());
}

#[test]
fn a_name_in_another_project_is_refused() {
    assert_eq!(elsewhere("aquarium/stock.md", "typography"), Some("aquarium".to_string()));
    assert_eq!(elsewhere("typography/stock.md", "typography"), None);
    assert_eq!(elsewhere("stock.md", "typography"), None);
    assert_eq!(own_name("a/b/c.md"), "c.md");
    assert_eq!(own_name(" c.md "), "c.md");
}

#[test]
fn a_block_is_read_out_of_a_reply() {
    let reply = "Sure.\n<edit file=\"a.md\" lines=\"2-3\">\nnew line\n</edit>\nDone.";
    let (prose, changes) = proposals(reply);
    assert_eq!(prose, "Sure.\n\nDone.");
    assert_eq!(
        changes,
        vec![Change {
            file: Some("a.md".to_string()),
            what: What::Edit { from: 2, to: 3, text: "new line".to_string() },
            state: None,
        }]
    );
}

#[test]
fn other_blocks_are_read_too() {
    let reply = "<edit file=\"a.md\" after=\"0\">\ntop\n</edit><write file=\"b.md\">\nall\n</write>";
    let (_, changes) = proposals(reply);
    let whats: Vec<What> = changes.into_iter().map(|c| c.what).collect();
    assert_eq!(
        whats,
        vec![What::Insert { after: 0, text: "top".to_string() }, What::Write { text: "all".to_string() }]
    );
}

#[test]
fn a_write_beside_deletes_is_a_merge() {
    let reply = "<write file=\"week.md\">\nboth\n</write><delete file=\"mon.md\"></delete><delete file=\"tue.md\"></delete>";
    let (_, changes) = proposals(reply);
    assert_eq!(
        changes,
        vec![Change {
            file: Some("week.md".to_string()),
            what: What::Merge { from: vec!["mon.md".to_string(), "tue.md".to_string()], text: "both".to_string() },
            state: None,
        }]
    );
}

#[test]
fn drafts_of_one_change_are_the_last_draft() {
    let reply = "<edit file=\"a.md\" lines=\"1\">\nfirst\n</edit> wait <edit file=\"a.md\" lines=\"1\">\nsecond\n</edit>";
    let (_, changes) = proposals(reply);
    assert_eq!(changes.len(), 1);
    assert_eq!(changes[0].what, What::Edit { from: 1, to: 1, text: "second".to_string() });
}

#[test]
fn a_decision_is_written_into_its_block() {
    let reply = "<edit file=\"a.md\" lines=\"1\">\nx\n</edit>";
    let (_, changes) = proposals(reply);
    let settled = settle(reply, &changes[0], true);
    assert!(settled.contains("applied"));
    let (_, again) = proposals(&settled);
    assert_eq!(again[0].state, Some(true));
}

#[test]
fn what_a_change_replaces_and_becomes() {
    let lines = vec!["one".to_string(), "two".to_string(), "three".to_string()];
    let folder = Folder { project: String::new(), here: "a.md".to_string(), files: vec![("a.md".to_string(), &lines[..])] };
    let edit = Change { file: None, what: What::Edit { from: 2, to: 3, text: "TWO".into() }, state: None };
    assert_eq!(edit.replacing(&folder), Some("two\nthree".to_string()));
    assert_eq!(edit.becoming(&folder), "TWO");
    assert_eq!(edit.tally(&folder), (1, 2));
    let past = Change { file: None, what: What::Edit { from: 9, to: 9, text: "x".into() }, state: None };
    assert_eq!(past.replacing(&folder), None);
    let away = Change { file: Some("other/a.md".into()), what: What::Delete, state: None };
    assert_eq!(away.misplaced(&folder), Some("other".to_string()));
}

#[test]
fn a_conversation_sent_again_keeps_its_words() {
    let turns = vec![
        Turn { mine: true, text: "hello".into() },
        Turn { mine: false, text: "hi".into() },
    ];
    let sent = as_sent(&turns, &[]);
    assert_eq!(sent.len(), 2);
    assert_eq!(sent[0], "hello");
    assert_eq!(sent[1], "hi");
    assert_eq!(without_bodies("plain words"), "plain words");
}

#[test]
fn an_offered_change_shows_its_diff_what_became_of_it_or_why_not() {
    let lines = vec!["one".to_string(), "two".to_string(), "three".to_string()];
    let folder = Folder { project: "home".to_string(), here: "a.md".to_string(), files: vec![("a.md".to_string(), &lines[..])] };
    let edit = Change { file: None, what: What::Edit { from: 2, to: 3, text: "TWO".into() }, state: None };
    match edit.offering(&folder) {
        Offering::Open { before, after } => {
            assert_eq!(before, "two\nthree");
            assert_eq!(after, "TWO");
        }
        _ => panic!("expected a diff"),
    }
    let kept = Change { state: Some(true), ..edit };
    match kept.offering(&folder) {
        Offering::Settled { taken, plus, minus, gist } => {
            assert!(taken);
            assert_eq!((plus, minus), (1, 2));
            assert_eq!(gist, "TWO");
        }
        _ => panic!("expected a decided change"),
    }
    let gone = Change { file: None, what: What::Delete, state: Some(false) };
    match gone.offering(&folder) {
        Offering::Settled { taken, plus, minus, gist } => {
            assert!(!taken);
            assert_eq!((plus, minus), (0, 3));
            assert_eq!(gist, "(the file was taken away)");
        }
        _ => panic!("expected a decided change"),
    }
    let past = Change { file: None, what: What::Edit { from: 9, to: 9, text: "x".into() }, state: None };
    match past.offering(&folder) {
        Offering::Refused(why) => assert_eq!(why, "a.md  LINE 9 - WHICH IS NOT THERE TO CHANGE"),
        _ => panic!("expected a refusal"),
    }
    let laid = Change { file: Some("a.md".into()), what: What::Lay { text: "x".into() }, state: None };
    match laid.offering(&folder) {
        Offering::Refused(why) => assert_eq!(why, "WRITE  a.md - WHICH IS THERE ALREADY, AND NO LINES SAID"),
        _ => panic!("expected a refusal"),
    }
    let away = Change { file: Some("other/a.md".into()), what: What::Delete, state: None };
    match away.offering(&folder) {
        Offering::Refused(why) => assert_eq!(why, "DELETE  other/a.md - IN OTHER - OPEN IT TO CHANGE IT"),
        _ => panic!("expected a refusal"),
    }
}

#[test]
fn a_file_is_found_by_its_own_name() {
    let bikes = vec!["fast".to_string(), "red".to_string()];
    let other = vec!["x".to_string()];
    let folder = Folder {
        project: String::new(),
        here: "bikes.md".to_string(),
        files: vec![("a.md".to_string(), &other[..]), ("bikes.md".to_string(), &bikes[..])],
    };
    assert_eq!(folder.lines(Some(&"typography/bikes.md".to_string())), Some(&bikes[..]));
    assert_eq!(folder.lines(Some(&"bikes.md".to_string())), Some(&bikes[..]));
    assert_eq!(folder.lines(None), Some(&bikes[..]));
    assert_eq!(folder.lines(Some(&"gone.md".to_string())), None);
}

#[test]
fn nothing_changed_exactly_when_the_words_agree() {
    assert!(is_empty(&words("the  cat\nsat", "the cat\nsat")));
    assert!(!is_empty(&words("the cat\nsat", "the cat sat")));
    assert!(!is_empty(&words("the cat", "the dog")));
}

fn one_side(before: &str, after: &str, left_out: Moved) -> Vec<String> {
    words(before, after)
        .iter()
        .filter(|p| p.change != left_out)
        .flat_map(|p| p.text.split(' ').map(|w| w.to_string()).collect::<Vec<_>>())
        .collect()
}

#[test]
fn the_pieces_of_a_diff_spell_both_texts() {
    let before = "the quick  brown fox\njumps over";
    let after = "the slow brown fox\njumps right over it";
    let b: Vec<String> = vec!["the", "quick", "brown", "fox", "\n", "jumps", "over"].into_iter().map(String::from).collect();
    let a: Vec<String> =
        vec!["the", "slow", "brown", "fox", "\n", "jumps", "right", "over", "it"].into_iter().map(String::from).collect();
    assert_eq!(one_side(before, after, Moved::Added), b);
    assert_eq!(one_side(before, after, Moved::Removed), a);
}

#[test]
fn my_turns_only_gain_in_front_what_theirs_could_not_keep() {
    let turns = vec![
        Turn { mine: true, text: "fix a".into() },
        Turn { mine: false, text: "Here:\n<edit file=\"a.md\" lines=\"1\">\ny\n</edit>".into() },
        Turn { mine: true, text: "thanks".into() },
        Turn { mine: true, text: "and again".into() },
    ];
    let sent = as_sent(&turns, &[("a.md".to_string(), "x".to_string())]);
    assert_eq!(sent.len(), 4);
    assert_eq!(sent[0], "fix a");
    assert!(sent[2].ends_with("thanks"));
    assert_eq!(sent[3], "and again");
}

#[test]
fn the_pieces_keep_as_many_words_as_the_texts_share() {
    let pieces = words("a b c d e", "a x c e y");
    let kept: usize = pieces
        .iter()
        .filter(|p| p.change == Moved::Same)
        .map(|p| p.text.split(' ').count())
        .sum();
    // a, c and e are the longest run the two have in common.
    assert_eq!(kept, 3);
}

#[test]
fn a_date_in_figures_is_read_without_padding() {
    let said = about("2026-8-27", &now()).unwrap();
    assert!(said.starts_with("27 August 2026 is a Thursday, which is today"));
    let said = about("2027-1-1", &now()).unwrap();
    assert!(said.starts_with("1 January 2027 is a Friday, which is 127 days from today"));
}
