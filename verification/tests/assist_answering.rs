use lib::answering::{Answering, Next};
use lib::assist::{one_line, rows, Assist, Clicked, Outcome, Phase};
use lib::diff::{words, Change};
use lib::llm::{calls, called, to_ascii, without_machinery, Ask, Tool, Turn, Used};
use lib::text::Cursor;

fn at(line: usize, col: usize) -> Cursor {
    Cursor { line, col }
}

fn none_clicked() -> Clicked {
    Clicked { ask: false, apply: false, reject: false, cancel: false }
}

fn opened() -> Assist {
    Assist::new(at(1, 0), at(3, 2), "teh cat".to_string())
}

#[test]
fn the_assistant_opens_asking_under_the_selection() {
    let a = opened();
    assert_eq!(a.anchor(), 3);
    assert!(!a.waiting());
    assert_eq!(a.headline("CTRL-ENTER"), "ASK FOR A CHANGE, ENTER TO SEND");
}

#[test]
fn enter_sends_what_is_typed() {
    let mut a = opened();
    a.request = "fix it".to_string();
    let keys = a.pressed(false, true, false);
    assert!(keys.submit && !keys.keep && !keys.escape);
    match a.decide(keys, none_clicked()) {
        Outcome::Ask(ask) => {
            assert_eq!(ask.source, "teh cat");
            assert_eq!(ask.request, "fix it");
            assert!(ask.turns.is_empty() && ask.tools.is_empty() && ask.since.is_none());
        }
        _ => panic!("expected a question"),
    }
    assert!(a.waiting());
    assert_eq!(a.asked, "fix it");
    assert_eq!(a.request, "");
    assert_eq!(a.headline("CTRL-ENTER"), "WORKING ON IT");
}

#[test]
fn nothing_is_sent_when_nothing_is_typed() {
    let mut a = opened();
    a.request = "   ".to_string();
    let keys = a.pressed(false, true, false);
    assert!(!keys.submit);
    assert!(matches!(a.decide(keys, none_clicked()), Outcome::Nothing));
    assert!(!a.waiting());
}

#[test]
fn a_suggestion_is_kept_only_when_asked_to() {
    let mut a = opened();
    a.request = "fix".to_string();
    let keys = a.pressed(false, true, false);
    a.decide(keys, none_clicked());
    a.answered(Ok("the cat".to_string()));
    assert!(matches!(a.phase, Phase::Reviewing { .. }));
    assert_eq!(a.headline("CTRL-ENTER"), "SUGGESTED - CTRL-ENTER KEEPS IT");
    let idle = a.pressed(false, false, false);
    assert!(matches!(a.decide(idle, none_clicked()), Outcome::Nothing));
    let keep = a.pressed(false, true, true);
    match a.decide(keep, none_clicked()) {
        Outcome::Apply(text) => assert_eq!(text, "the cat"),
        _ => panic!("expected the suggestion"),
    }
    let idle = a.pressed(false, false, false);
    let reject = Clicked { reject: true, apply: true, ..none_clicked() };
    assert!(matches!(a.decide(idle, reject), Outcome::Close));
}

#[test]
fn a_follow_up_asks_about_the_suggestion() {
    let mut a = opened();
    a.answered(Ok("the cat".to_string()));
    a.request = "shorter".to_string();
    let ask = a.send();
    assert_eq!(ask.source, "the cat");
    assert_eq!(ask.request, "shorter");
}

#[test]
fn escape_closes_whatever_else_happens() {
    let mut a = opened();
    a.request = "x".to_string();
    let keys = a.pressed(true, true, false);
    let all = Clicked { ask: true, apply: true, reject: false, cancel: false };
    assert!(matches!(a.decide(keys, all), Outcome::Close));
    assert!(!a.waiting());
}

#[test]
fn an_answer_that_changes_nothing_is_a_failure_and_the_question_comes_back() {
    let mut a = opened();
    a.request = "fix".to_string();
    a.send();
    a.answered(Ok("teh cat".to_string()));
    assert!(matches!(&a.phase, Phase::Failed(why) if why == "no change suggested - try a more specific instruction"));
    assert_eq!(a.request, "fix");
    assert_eq!(a.asked, "");
    assert_eq!(a.headline("X"), "NO CHANGE SUGGESTED - TRY A MORE SPECIFIC INSTRUCTION");
}

#[test]
fn a_failed_answer_is_shown() {
    let mut a = opened();
    a.answered(Err("boom".to_string()));
    assert_eq!(a.headline("X"), "BOOM");
}

#[test]
fn the_grab_is_taken_once() {
    let mut a = opened();
    assert!(a.take_grab());
    assert!(!a.take_grab());
}

#[test]
fn the_selection_is_named_on_one_line() {
    assert_eq!(one_line("hello world\nsecond"), "EDITING \"HELLO WORLD\"");
    assert_eq!(
        one_line("  abcdefghijklmnopqrstuvwxyz0123  "),
        "EDITING \"ABCDEFGHIJKLMNOPQRSTUVWXYZ01...\""
    );
    assert_eq!(one_line(""), "EDITING \"\"");
}

#[test]
fn a_diff_is_laid_out_in_rows() {
    let pieces = words("the cat sat", "the dog sat");
    let all = rows(&pieces, 80);
    assert_eq!(all.len(), 1);
    let row: Vec<(Change, String)> = all[0].clone();
    let text: Vec<String> = row.iter().map(|(_, t)| t.clone()).collect();
    assert_eq!(text.join(" "), "the cat dog sat");
    let narrow = rows(&pieces, 4);
    assert!(narrow.len() > 1);
    for r in &narrow {
        assert!(!r.is_empty());
    }
}

fn calc() -> Tool {
    Tool { name: "calc", about: "works out a sum", takes: ("expression", "the sum") }
}

fn question(text: &str, tools: Vec<Tool>, since: Option<String>) -> Ask {
    Ask {
        source: String::new(),
        request: String::new(),
        turns: vec![Turn { mine: true, text: text.to_string() }],
        within: None,
        file: "a.md".to_string(),
        vault: String::new(),
        tools,
        since,
        web_off: false,
    }
}

const CALL: &str = "<function=calc><parameter=expression>2+2</parameter></function>";

#[test]
fn a_reply_that_calls_nothing_is_the_answer() {
    let (mut a, first) = Answering::start(question("hi", vec![calc()], None));
    assert_eq!(first.turns.len(), 1);
    match a.heard(Ok("Hello.".to_string()), false) {
        Next::Done(Ok(text)) => assert_eq!(text, "Hello."),
        _ => panic!("expected the answer"),
    }
}

#[test]
fn what_moved_goes_in_front_of_the_question_once() {
    let (_, first) = Answering::start(question("hi", vec![], Some("MOVED".to_string())));
    assert_eq!(first.turns[0].text, "MOVED\n\n---\n\nhi");
    assert!(first.since.is_none());
}

#[test]
fn a_tool_is_run_and_its_answer_put_back() {
    let (mut a, _) = Answering::start(question("what is 2+2", vec![calc()], None));
    let run = match a.heard(Ok(CALL.to_string()), false) {
        Next::Run(v) => v,
        _ => panic!("expected a call to run"),
    };
    assert_eq!(run, vec![("calc".to_string(), "2+2".to_string())]);
    let again = a.ran(vec!["4".to_string()]);
    assert_eq!(again.turns.len(), 3);
    assert_eq!(again.turns[1].text, CALL);
    assert!(!again.turns[1].mine);
    assert_eq!(again.turns[2].text, "<tool_response>\n4\n</tool_response>");
    assert!(again.turns[2].mine);
    assert_eq!(again.tools.len(), 1);
    match a.heard(Ok("It is 4.".to_string()), false) {
        Next::Done(Ok(text)) => {
            assert_eq!(text, "<used tool=\"calc\" arg=\"2+2\">\n4\n</used>\n\nIt is 4.")
        }
        _ => panic!("expected the answer"),
    }
}

#[test]
fn a_call_asked_again_is_not_run_again() {
    let (mut a, _) = Answering::start(question("what is 2+2", vec![calc()], None));
    a.heard(Ok(CALL.to_string()), false);
    a.ran(vec!["4".to_string()]);
    let told = match a.heard(Ok(CALL.to_string()), false) {
        Next::Ask(ask) => ask,
        _ => panic!("expected to be asked to answer"),
    };
    assert!(told.tools.is_empty());
    assert!(told.turns.last().unwrap().text.starts_with("You have already looked that up"));
    match a.heard(Ok(String::new()), false) {
        Next::Done(Ok(text)) => assert_eq!(
            text,
            "<used tool=\"calc\" arg=\"2+2\">\n4\n</used>\n\nI looked those up but could not put an answer together."
        ),
        _ => panic!("expected the answer"),
    }
}

#[test]
fn a_stopped_answer_is_what_it_had_got_to() {
    let (mut a, _) = Answering::start(question("q", vec![calc()], None));
    match a.heard(Ok(format!("Half of it {CALL}")), true) {
        Next::Done(Ok(text)) => assert_eq!(text, "Half of it"),
        _ => panic!("expected the answer"),
    }
}

#[test]
fn a_failure_is_the_answer() {
    let (mut a, _) = Answering::start(question("q", vec![], None));
    match a.heard(Err("gone".to_string()), false) {
        Next::Done(Err(e)) => assert_eq!(e, "gone"),
        _ => panic!("expected the failure"),
    }
}

#[test]
fn nothing_said_is_said_so() {
    let (mut a, _) = Answering::start(question("q", vec![], None));
    match a.heard(Ok("   ".to_string()), false) {
        Next::Done(Ok(text)) => assert_eq!(text, "It did not answer."),
        _ => panic!("expected the answer"),
    }
}

#[test]
fn calls_are_read_in_order() {
    let two = format!("{CALL} and <function=date><parameter=when>today</parameter></function>");
    assert_eq!(
        calls(&two),
        vec![("calc".to_string(), "2+2".to_string()), ("date".to_string(), "today".to_string())]
    );
    assert_eq!(called(&two), Some(("calc".to_string(), "2+2".to_string())));
    assert_eq!(called("no call here"), None);
}

#[test]
fn machinery_is_taken_out_and_prose_kept() {
    assert_eq!(without_machinery(&format!("let me check {CALL} done")), "let me check  done");
    assert_eq!(without_machinery("plain"), "plain");
}

#[test]
fn text_is_put_into_ascii() {
    assert_eq!(to_ascii("\u{201c}hi\u{201d} \u{2014} ok\u{2026}"), "\"hi\" -- ok...");
    assert_eq!(to_ascii("caf\u{e9} 2\u{d7}3"), "caf\u{e9} 2x3");
}

#[test]
fn a_lookup_is_written_as_a_block() {
    let u = Used { tool: "calc".into(), arg: "say \"hi\"".into(), result: "4".into() };
    assert_eq!(u.written(), "<used tool=\"calc\" arg=\"say 'hi'\">\n4\n</used>\n\n");
}

#[test]
fn the_block_is_as_tall_as_what_it_shows() {
    let a = opened();
    assert_eq!(a.height(400, 14, 7), 3 + 14 + 2 + 14 + 3 + 15 + 3);
    let source: Vec<String> = (1..=15).map(|i| format!("line {i}")).collect();
    let mut changed = source.clone();
    changed[0] = "first".to_string();
    let mut b = Assist::new(at(0, 0), at(14, 6), source.join("\n"));
    b.answered(Ok(changed.join("\n")));
    assert!(matches!(b.phase, Phase::Reviewing { .. }));
    assert_eq!(b.height(400, 14, 7), 3 + 14 + 2 + 11 * 14 + 3 + 15 + 3);
    let mut c = opened();
    c.answered(Ok("the cat".to_string()));
    assert_eq!(c.height(400, 14, 7), 3 + 14 + 2 + 14 + 3 + 15 + 3);
}
