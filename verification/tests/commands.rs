use lib::commands::{command, Command};

#[test]
fn a_write_takes_a_name_and_gives_it_an_extension() {
    assert_eq!(command("w"), Command::Write(None));
    assert_eq!(command("w notes"), Command::Write(Some("notes.md".into())));
    assert_eq!(command("write  list.txt "), Command::Write(Some("list.txt".into())));
    assert_eq!(command("wq"), Command::WriteQuit);
    assert_eq!(command("x"), Command::WriteQuit);
}

#[test]
fn an_open_takes_a_name_or_asks_for_one() {
    assert_eq!(command(" e  rendering.md "), Command::Open(Some("rendering.md".into())));
    assert_eq!(command("open"), Command::Open(None));
    assert_eq!(command("o a b"), Command::Open(Some("a b".into())));
}

#[test]
fn the_other_verbs_and_what_is_not_one() {
    assert_eq!(command("preview"), Command::Preview);
    assert_eq!(command("p"), Command::Preview);
    assert_eq!(command("source"), Command::Source);
    assert_eq!(command("edit!"), Command::Source);
    assert_eq!(command("q"), Command::Close);
    assert_eq!(command("close"), Command::Close);
    assert_eq!(command("qa"), Command::QuitAll);
    assert_eq!(command("quit"), Command::QuitAll);
    assert_eq!(command("new"), Command::New);
    assert_eq!(command("help"), Command::Help);
    assert_eq!(command("   "), Command::Nothing);
    assert_eq!(command("zz top"), Command::Unknown("zz".into()));
}
