use std::path::PathBuf;

use lib::calc::{parse_expr, scan, Expr, Token};
use lib::dialog::{shorten_path, DialogClicks, DialogKey, DialogKind, DialogResult, FileDialog, Listed};
use lib::fetch::{gave_up, megabytes};

fn num(s: &str) -> Token {
    Token::Number(s.to_string())
}

#[test]
fn a_sum_is_read_into_tokens() {
    assert_eq!(
        scan("2 + 3*4"),
        Ok(vec![num("2"), Token::Sign('+'), num("3"), Token::Sign('*'), num("4")])
    );
}

#[test]
fn grouping_marks_and_other_spellings_are_read() {
    assert_eq!(scan("1_000 × 2"), Ok(vec![num("1000"), Token::Sign('*'), num("2")]));
    assert_eq!(scan("9 ÷ .5"), Ok(vec![num("9"), Token::Sign('/'), num(".5")]));
    assert_eq!(
        scan("[1,2]"),
        Ok(vec![Token::Open, num("1"), Token::Comma, num("2"), Token::Close])
    );
}

#[test]
fn names_are_read_in_lowercase() {
    assert_eq!(
        scan("Sqrt(16)"),
        Ok(vec![Token::Name("sqrt".into()), Token::Open, num("16"), Token::Close])
    );
    assert_eq!(scan("log_2 8"), Ok(vec![Token::Name("log_2".into()), num("8")]));
}

#[test]
fn what_cannot_be_read_is_said() {
    assert_eq!(scan("1.2.3"), Err("1.2.3 is not a number".to_string()));
    assert_eq!(scan("."), Err(". is not a number".to_string()));
    assert_eq!(scan("2 $ 3"), Err("$ is not something this can work out".to_string()));
    assert_eq!(scan("   "), Err("there is nothing here to work out".to_string()));
    assert_eq!(scan(""), Err("there is nothing here to work out".to_string()));
}

#[test]
fn an_underscore_not_before_a_digit_ends_the_number() {
    assert_eq!(scan("1_"), Err("_ is not something this can work out".to_string()));
}

#[test]
fn sizes_in_megabytes() {
    assert_eq!(megabytes(2_500_000), "2 MB");
    assert_eq!(megabytes(999_999), "0 MB");
    assert_eq!(megabytes(u64::MAX), "18446744073709 MB");
}

#[test]
fn a_download_that_gave_up_says_why() {
    assert_eq!(gave_up(Some(22)), "the hub refused the request");
    assert_eq!(gave_up(Some(6)), "could not reach the hub");
    assert_eq!(gave_up(Some(7)), "curl gave up with code 7");
    assert_eq!(gave_up(Some(-3)), "curl gave up with code -3");
    assert_eq!(gave_up(None), "the download was interrupted");
}

fn listing() -> Vec<Listed> {
    vec![
        Listed { name: "b.md".into(), path: PathBuf::from("/notes/b.md"), is_dir: false },
        Listed { name: ".hidden".into(), path: PathBuf::from("/notes/.hidden"), is_dir: true },
        Listed { name: "A.txt".into(), path: PathBuf::from("/notes/A.txt"), is_dir: false },
        Listed { name: "sub".into(), path: PathBuf::from("/notes/sub"), is_dir: true },
        Listed { name: "c.png".into(), path: PathBuf::from("/notes/c.png"), is_dir: false },
        Listed { name: "noext".into(), path: PathBuf::from("/notes/noext"), is_dir: false },
    ]
}

fn labels(d: &FileDialog) -> Vec<String> {
    d.entries().iter().map(|e| e.label.clone()).collect()
}

#[test]
fn a_folder_lists_its_folders_then_its_notes() {
    let mut d = FileDialog::new(DialogKind::Open, PathBuf::from("/notes"), "");
    assert!(d.stale());
    d.listed(Some(PathBuf::from("/")), Ok(listing()));
    assert!(!d.stale());
    assert_eq!(labels(&d), vec!["../", "sub/", "A.txt", "b.md"]);
    assert_eq!(d.error(), None);
    assert_eq!(d.selected(), 0);
}

#[test]
fn a_folder_that_cannot_be_read_says_so() {
    let mut d = FileDialog::new(DialogKind::Open, PathBuf::from("/notes"), "");
    d.listed(None, Err("denied".into()));
    assert!(d.entries().is_empty());
    assert_eq!(d.error(), Some("CANNOT READ DIR: denied".to_string()));
}

#[test]
fn the_keys_walk_the_rows_round() {
    let mut d = FileDialog::new(DialogKind::Open, PathBuf::from("/notes"), "");
    d.listed(Some(PathBuf::from("/")), Ok(listing()));
    assert!(d.opening());
    assert!(!d.opening());
    assert_eq!(d.key(DialogKey::Down), None);
    assert_eq!(d.selected(), 1);
    d.key(DialogKey::Up);
    d.key(DialogKey::Up);
    assert_eq!(d.selected(), 3);
    d.key(DialogKey::Char('j'));
    assert_eq!(d.selected(), 0);
    assert_eq!(d.key(DialogKey::Escape), Some(DialogResult::Cancel));
}

#[test]
fn a_note_is_opened_and_a_folder_is_gone_into() {
    let mut d = FileDialog::new(DialogKind::Open, PathBuf::from("/notes"), "");
    d.listed(Some(PathBuf::from("/")), Ok(listing()));
    assert_eq!(d.enter(3), Some(DialogResult::Open(PathBuf::from("/notes/b.md"))));
    assert_eq!(d.enter(9), None);
    assert_eq!(d.click(1), None);
    assert_eq!(d.selected(), 1);
    assert_eq!(d.click(1), None);
    assert_eq!(d.dir(), &PathBuf::from("/notes/sub"));
    assert!(d.stale());
    assert!(d.entries().is_empty());
}

#[test]
fn saving_takes_a_name_and_gives_it_an_extension() {
    let mut d = FileDialog::new(DialogKind::Save, PathBuf::from("/notes"), "  todo ");
    d.listed(None, Ok(Vec::new()));
    assert_eq!(d.confirm(), Some(DialogResult::Save(PathBuf::from("/notes/todo.md"))));
    d.filename = "list.txt".into();
    assert_eq!(d.key(DialogKey::Enter), Some(DialogResult::Save(PathBuf::from("/notes/list.txt"))));
    d.filename = "   ".into();
    assert_eq!(d.confirm(), None);
    assert_eq!(d.error(), Some("NAME REQUIRED".to_string()));
}

#[test]
fn saving_over_a_listed_note_takes_its_name() {
    let mut d = FileDialog::new(DialogKind::Save, PathBuf::from("/notes"), "");
    d.listed(None, Ok(listing()));
    assert_eq!(labels(&d), vec!["sub/", "A.txt", "b.md"]);
    assert_eq!(d.enter(2), None);
    assert_eq!(d.filename, "b.md");
    d.key(DialogKey::Char('j'));
    assert_eq!(d.selected(), 0);
}

#[test]
fn up_goes_to_the_folder_above() {
    let mut d = FileDialog::new(DialogKind::Open, PathBuf::from("/notes/sub"), "");
    d.listed(None, Ok(Vec::new()));
    d.up();
    assert_eq!(d.dir(), &PathBuf::from("/notes"));
    assert!(d.stale());
    assert_eq!(d.parent(), Some(PathBuf::from("/")));
}

#[test]
fn long_paths_lose_their_front() {
    assert_eq!(shorten_path("/a/very/long/path", 10), "...NG/PATH");
    assert_eq!(shorten_path("abc", 10), "ABC");
    assert_eq!(shorten_path("abcdef", 2), "...");
}

fn no_clicks() -> DialogClicks {
    DialogClicks { row: None, up: false, cancel: false, confirm: false }
}

#[test]
fn the_dialog_ignores_the_keys_of_the_frame_it_opens_on() {
    let mut d = FileDialog::new(DialogKind::Open, PathBuf::from("/notes"), "");
    d.listed(None, Ok(listing()));
    assert_eq!(d.frame(&[DialogKey::Enter, DialogKey::Escape, DialogKey::Down], no_clicks()), None);
    assert_eq!(d.selected(), 0);
    assert_eq!(d.frame(&[DialogKey::Down, DialogKey::Char('j')], no_clicks()), None);
    assert_eq!(d.selected(), 2);
    assert_eq!(d.frame(&[DialogKey::Escape, DialogKey::Up, DialogKey::Down], no_clicks()), Some(DialogResult::Cancel));
    assert_eq!(d.frame(&[DialogKey::Enter], no_clicks()), Some(DialogResult::Open(PathBuf::from("/notes/b.md"))));
    assert_eq!(d.frame(&[], DialogClicks { row: Some(1), ..no_clicks() }), None);
    assert_eq!(d.selected(), 1);
    assert_eq!(d.frame(&[], DialogClicks { row: Some(1), ..no_clicks() }), Some(DialogResult::Open(PathBuf::from("/notes/A.txt"))));
    assert_eq!(d.frame(&[], DialogClicks { cancel: true, ..no_clicks() }), Some(DialogResult::Cancel));
}

#[test]
fn saving_joins_the_name_to_the_folder() {
    let mut d = FileDialog::new(DialogKind::Save, PathBuf::from("/notes"), "plan");
    d.frame(&[], no_clicks());
    assert_eq!(d.frame(&[DialogKey::Enter], no_clicks()), Some(DialogResult::Save(PathBuf::from("/notes/plan.md"))));
    assert_eq!(d.key(DialogKey::Enter), Some(DialogResult::Save(PathBuf::from("/notes/plan.md"))));
    assert_eq!(d.frame(&[], DialogClicks { confirm: true, ..no_clicks() }), Some(DialogResult::Save(PathBuf::from("/notes/plan.md"))));
}

fn n(s: &str) -> Box<Expr> {
    Box::new(Expr::Number(s.to_string()))
}

#[test]
fn sums_are_read_below_products_below_powers_which_bind_to_the_right() {
    let (t, used, ok) = parse_expr(&scan("1+2*3").unwrap());
    assert!(ok);
    assert_eq!(used, 5);
    assert_eq!(t, Expr::Bin('+', n("1"), Box::new(Expr::Bin('*', n("2"), n("3")))));
    let (t, _, _) = parse_expr(&scan("2^3^2").unwrap());
    assert_eq!(t, Expr::Bin('^', n("2"), Box::new(Expr::Bin('^', n("3"), n("2")))));
    let (t, _, _) = parse_expr(&scan("-2^2").unwrap());
    assert_eq!(t, Expr::Neg(Box::new(Expr::Bin('^', n("2"), n("2")))));
    let (t, _, _) = parse_expr(&scan("8-3-1").unwrap());
    assert_eq!(t, Expr::Bin('-', Box::new(Expr::Bin('-', n("8"), n("3"))), n("1")));
}

#[test]
fn calls_constants_brackets_and_what_cannot_be_read() {
    let (t, _, ok) = parse_expr(&scan("max(1, pi)").unwrap());
    assert!(ok);
    assert_eq!(
        t,
        Expr::Call(
            "max".into(),
            Box::new(Expr::More(n("1"), Box::new(Expr::More(Box::new(Expr::Constant("pi".into())), Box::new(Expr::End))))),
            true
        )
    );
    let (t, used, ok) = parse_expr(&scan("(1").unwrap());
    assert!(!ok);
    assert_eq!(used, 2);
    assert_eq!(t, Expr::Unclosed(n("1")));
    let (t, _, ok) = parse_expr(&scan("1+").unwrap());
    assert!(!ok);
    assert_eq!(t, Expr::Bin('+', n("1"), Box::new(Expr::Broken("something is missing here".into()))));
    let (_, used, ok) = parse_expr(&scan("1 2").unwrap());
    assert!(ok);
    assert_eq!(used, 1);
}
