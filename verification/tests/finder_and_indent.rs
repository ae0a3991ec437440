use lib::finder::{fuzzy, search, Candidate, Finder, FinderKey, Found, On};
use lib::indent::{in_code, opened, shifted, step, Opened};
use lib::markdown::{item_marker, Marker};

fn lines(v: &[&str]) -> Vec<String> {
    v.iter().map(|s| s.to_string()).collect()
}

fn chars(s: &str) -> Vec<char> {
    s.chars().collect()
}

#[test]
fn fuzzy_finds_a_subsequence_and_scores_it() {
    // m at the start of a word, d alone, s after a dash, h right after s.
    assert_eq!(fuzzy("markdown-showcase", "mdsh"), Some((26, vec![0, 4, 9, 10])));
}

#[test]
fn fuzzy_is_nothing_when_a_letter_is_missing() {
    assert_eq!(fuzzy("abc", "x"), None);
    assert_eq!(fuzzy("abc", "ca"), None);
}

#[test]
fn fuzzy_ignores_case() {
    let (score, at) = fuzzy("Markdown", "MD").unwrap();
    assert_eq!(at, vec![0, 4]);
    // 1 + 4 for the start, 1 for the d, 10 - 2 for the length.
    assert_eq!(score, 14);
}

#[test]
fn the_lit_letters_spell_the_query() {
    let text = "Bike Notes On The Road";
    let (_, at) = fuzzy(text, "BNtr").unwrap();
    let hay = chars(text);
    let lit: String = at.iter().map(|&i| hay[i].to_ascii_lowercase()).collect();
    assert_eq!(lit, "bntr");
    assert!(at.windows(2).all(|w| w[0] < w[1]));
    assert_eq!(at, vec![0, 5, 7, 18]);
}

#[test]
fn search_ranks_the_best_first_and_prefers_the_title() {
    let notes = vec![
        Candidate { title: "Shopping list".into(), file: "shop.md".into() },
        Candidate { title: "Markdown showcase".into(), file: "markdown-showcase.md".into() },
    ];
    let hits = search(&notes, "mdsh");
    assert_eq!(hits.len(), 1);
    assert_eq!(hits[0].note, 1);
    assert_eq!(hits[0].score, 26);
    assert_eq!(hits[0].on, On::Title);
}

#[test]
fn search_with_an_empty_query_lists_every_note_in_order() {
    let notes = vec![
        Candidate { title: "b".into(), file: "b.md".into() },
        Candidate { title: "a".into(), file: "a.md".into() },
    ];
    let hits = search(&notes, "   ");
    let order: Vec<usize> = hits.iter().map(|h| h.note).collect();
    assert_eq!(order, vec![0, 1]);
    assert!(hits.iter().all(|h| h.score == 0 && h.at.is_empty()));
}

#[test]
fn search_matches_a_filename_without_its_extension() {
    let notes = vec![Candidate { title: "zzz".into(), file: "plan.md".into() }];
    let hits = search(&notes, "md");
    assert!(hits.is_empty());
    let hits = search(&notes, "plan");
    assert_eq!(hits.len(), 1);
    assert_eq!(hits[0].on, On::File);
}

#[test]
fn finder_steps_round_from_either_end() {
    let mut f = Finder::new();
    assert_eq!(f.selected, 0);
    f.step(-1, 3);
    assert_eq!(f.selected, 2);
    f.step(1, 3);
    assert_eq!(f.selected, 0);
    f.step(1, 0);
    assert_eq!(f.selected, 0);
}

#[test]
fn a_list_item_carries_its_marker_down() {
    let ls = lines(&["- item"]);
    assert_eq!(opened(&ls, 0, 6), Opened::With("- ".into()));
    let ls = lines(&["  * deeper"]);
    assert_eq!(opened(&ls, 0, 10), Opened::With("  * ".into()));
}

#[test]
fn an_emptied_item_ends_the_list() {
    let ls = lines(&["- "]);
    assert_eq!(opened(&ls, 0, 2), Opened::Ending);
}

#[test]
fn numbers_count_on_and_keep_their_punctuation() {
    let ls = lines(&["1. first"]);
    assert_eq!(opened(&ls, 0, 8), Opened::With("2. ".into()));
    let ls = lines(&["9) ninth"]);
    assert_eq!(opened(&ls, 0, 8), Opened::With("10) ".into()));
}

#[test]
fn a_task_continues_unticked() {
    let ls = lines(&["- [x] done"]);
    assert_eq!(opened(&ls, 0, 10), Opened::With("- [ ] ".into()));
}

#[test]
fn splitting_inside_the_marker_carries_nothing() {
    let ls = lines(&["- item"]);
    assert_eq!(opened(&ls, 0, 1), Opened::Plain);
}

#[test]
fn a_quote_carries_its_markers_down() {
    let ls = lines(&["> quoted"]);
    assert_eq!(opened(&ls, 0, 8), Opened::With("> ".into()));
    let ls = lines(&["> - item"]);
    assert_eq!(opened(&ls, 0, 8), Opened::With("> - ".into()));
    let ls = lines(&["> - "]);
    assert_eq!(opened(&ls, 0, 4), Opened::With("> ".into()));
}

#[test]
fn plain_prose_keeps_its_indent_only() {
    let ls = lines(&["plain"]);
    assert_eq!(opened(&ls, 0, 5), Opened::Plain);
    let ls = lines(&["   indented"]);
    assert_eq!(opened(&ls, 0, 11), Opened::With("   ".into()));
    assert_eq!(opened(&ls, 0, 1), Opened::Plain);
    assert_eq!(opened(&ls, 5, 0), Opened::Plain);
}

#[test]
fn code_indents_after_a_line_that_opens_a_block() {
    let ls = lines(&["```", "def f():"]);
    assert!(in_code(&ls, 1));
    assert!(!in_code(&ls, 0));
    assert_eq!(step(&ls, 1), 4);
    assert_eq!(step(&ls, 0), 2);
    assert_eq!(opened(&ls, 1, 8), Opened::With("    ".into()));
    let ls = lines(&["```", "    x = 1"]);
    assert_eq!(opened(&ls, 1, 9), Opened::With("    ".into()));
    let ls = lines(&["```", "x = 1"]);
    assert_eq!(opened(&ls, 1, 5), Opened::Plain);
}

#[test]
fn shifting_in_and_out() {
    assert_eq!(shifted("text", false, 2), ("  text".to_string(), 2));
    assert_eq!(shifted("   text", true, 2), (" text".to_string(), -2));
    assert_eq!(shifted(" text", true, 4), ("text".to_string(), -1));
    assert_eq!(shifted("\tx", true, 4), ("x".to_string(), -1));
    assert_eq!(shifted("x", true, 4), ("x".to_string(), 0));
}

#[test]
fn shifting_in_then_out_gives_the_line_back() {
    for line in ["a", "  b", "\tc", ""] {
        let (moved, by) = shifted(line, false, 4);
        let (back, by_back) = shifted(&moved, true, 4);
        assert_eq!(back, line);
        assert_eq!(by + by_back, 0);
    }
}

#[test]
fn list_markers_are_read() {
    assert_eq!(item_marker(&chars("  - a")), Some((Marker::Bullet, 4)));
    assert_eq!(item_marker(&chars("12) x")), Some((Marker::Number(12), 4)));
    assert_eq!(item_marker(&chars("* [X] y")), Some((Marker::Task(true), 6)));
    assert_eq!(item_marker(&chars("+ [ ] y")), Some((Marker::Task(false), 6)));
    assert_eq!(item_marker(&chars("-x")), None);
    assert_eq!(item_marker(&chars("1234567890. x")), None);
    assert_eq!(item_marker(&chars("text")), None);
}

#[test]
fn the_finder_walks_opens_and_starts_over_on_a_new_query() {
    let notes = vec![
        Candidate { title: "alpha".into(), file: "a.md".into() },
        Candidate { title: "beta".into(), file: "b.md".into() },
        Candidate { title: "gamma".into(), file: "c.md".into() },
    ];
    let mut f = Finder::new();
    assert_eq!(f.frame(&[FinderKey::Enter, FinderKey::Escape], false, String::new(), None, &notes), Found::Nothing);
    assert_eq!(f.frame(&[FinderKey::Down, FinderKey::Down], false, String::new(), None, &notes), Found::Nothing);
    assert_eq!(f.selected, 2);
    assert_eq!(f.frame(&[FinderKey::Char('n')], true, String::new(), None, &notes), Found::Nothing);
    assert_eq!(f.selected, 0);
    assert_eq!(f.frame(&[FinderKey::Up], false, String::new(), None, &notes), Found::Nothing);
    assert_eq!(f.selected, 2);
    assert_eq!(f.frame(&[FinderKey::Enter], false, String::new(), None, &notes), Found::Open(2));
    assert_eq!(f.frame(&[], false, "bet".into(), None, &notes), Found::Nothing);
    assert_eq!(f.selected, 0);
    assert_eq!(f.query, "bet");
    assert_eq!(f.frame(&[FinderKey::Enter], false, "bet".into(), None, &notes), Found::Open(1));
    // A click is on a row of the hits: the first row is beta's, and there
    // is no second row.
    assert_eq!(f.frame(&[], false, "bet".into(), Some(0), &notes), Found::Open(1));
    assert_eq!(f.frame(&[], false, "bet".into(), Some(1), &notes), Found::Nothing);
    assert_eq!(f.frame(&[FinderKey::Escape], false, "bet".into(), None, &notes), Found::Close);
}

#[test]
fn a_click_with_no_hits_opens_nothing() {
    let mut f = Finder::new();
    assert_eq!(f.frame(&[], false, String::new(), Some(7), &[]), Found::Nothing);
    assert_eq!(f.frame(&[], false, String::new(), Some(0), &[]), Found::Nothing);
}
