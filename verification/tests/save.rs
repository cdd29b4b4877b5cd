use rustgo::basic::error::decimal;
use rustgo::basic::save::{split_lines, SIGNATURE};
use rustgo::basic::{BoardSize, Cmd, Game, GoError, Player, Stone};

fn lines(text: &str) -> Vec<String> {
    split_lines(text)
}

#[test]
fn a_text_is_split_at_every_end_of_line() {
    let cases = [
        "",
        "\n",
        "\n\n",
        "a",
        "a\n",
        "\na",
        "a\nb",
        "a\n\nb\n",
        "mapleque/rustgo\n19\nstart\naa\npass\n",
        "line with blanks \r\n\ttab\n",
        "\u{e9}t\u{e9}\n\u{4e16}\u{754c}\n\n\u{1f600}",
        "\u{e9}",
        "\n\u{e9}\n",
    ];
    for text in cases {
        let expected: Vec<String> = text.split('\n').map(|l| l.to_string()).collect();
        assert_eq!(split_lines(text), expected);
    }
    assert_eq!(split_lines("a\nb"), vec!["a", "b"]);
    assert_eq!(split_lines("a\n"), vec!["a", ""]);
    assert_eq!(split_lines(""), vec![""]);
}

#[test]
fn a_game_is_written_line_by_line() {
    let mut g = Game::new(BoardSize::Normal);
    assert_eq!(g.dump(), "mapleque/rustgo\n19\nstart\n");
    g.next(Cmd::Step("aa".to_string())).unwrap();
    g.next(Cmd::Pass).unwrap();
    g.next(Cmd::Step("ss".to_string())).unwrap();
    assert_eq!(g.dump(), "mapleque/rustgo\n19\nstart\naa\npass\nss\n");
    // only the line of play that leads to where the game stands is written
    g.undo().unwrap();
    g.undo().unwrap();
    g.next(Cmd::Step("bb".to_string())).unwrap();
    assert_eq!(g.dump(), "mapleque/rustgo\n19\nstart\naa\nbb\n");
    assert_eq!(Game::new(BoardSize::Medium).dump(), "mapleque/rustgo\n13\nstart\n");
    assert_eq!(Game::new(BoardSize::Small).dump(), "mapleque/rustgo\n9\nstart\n");
    assert_eq!(SIGNATURE, "mapleque/rustgo");
}

#[test]
fn a_written_game_is_read_again() {
    let mut g = Game::new(BoardSize::Small);
    for text in ["aa", "ba"] {
        g.next(Cmd::Step(text.to_string())).unwrap();
    }
    g.next(Cmd::Pass).unwrap();
    g.next(Cmd::Step("ab".to_string())).unwrap();
    let h = Game::load(lines(&g.dump())).unwrap();
    assert_eq!(h.step_count(), 4);
    assert_eq!(h.next_player(), Player::Black);
    assert_eq!(h.board().size(), BoardSize::Small);
    for y in 1..=9 {
        for x in 1..=9 {
            assert_eq!(h.board().at(x, y), g.board().at(x, y));
        }
    }
    assert_eq!(h.board().at(1, 1), Ok(Stone::Empty));
    assert_eq!(h.board().at(2, 1), Ok(Stone::White));
    assert_eq!(h.dump(), g.dump());
}

#[test]
fn the_head_of_a_saved_game_is_checked() {
    let err = |text: &str| Game::load(lines(text)).map(|_| ());
    assert_eq!(err(""), Err(GoError::InvalidSaveFile { line: 2 }));
    assert_eq!(err("mapleque/rustgo\n19"), Err(GoError::InvalidSaveFile { line: 3 }));
    assert_eq!(err("x\ny"), Err(GoError::InvalidSaveFile { line: 3 }));
    assert_eq!(Game::load(vec![]).map(|_| ()), Err(GoError::InvalidSaveFile { line: 1 }));
    assert_eq!(err("rustgo\n19\nstart\n"), Err(GoError::InvalidSaveFile { line: 1 }));
    assert_eq!(err("mapleque/rustgo\n7\nstart\n"), Err(GoError::InvalidSaveFile { line: 2 }));
    assert_eq!(err("mapleque/rustgo\n 9\nstart\n"), Err(GoError::InvalidSaveFile { line: 2 }));
    assert_eq!(err("mapleque/rustgo\n9\nStart\n"), Err(GoError::InvalidSaveFile { line: 3 }));
    assert_eq!(err("mapleque/rustgo\n9\n\nstart\n"), Err(GoError::InvalidSaveFile { line: 3 }));
    assert_eq!(err("mapleque/rustgo\n9\nstart"), Ok(()));
    assert_eq!(err("mapleque/rustgo\n9\nstart\n"), Ok(()));
    assert_eq!(err("mapleque/rustgo\n13\nstart\n\n\nmm\n\n"), Ok(()));
}

#[test]
fn a_turn_that_cannot_be_played_stops_the_reading() {
    let err = |text: &str| Game::load(lines(text)).map(|_| ());
    assert_eq!(err("mapleque/rustgo\n9\nstart\naa\naa\n"), Err(GoError::NotEmpty { x: 1, y: 1 }));
    assert_eq!(err("mapleque/rustgo\n9\nstart\njj\n"), Err(GoError::OutOfBounds { x: 10, y: 10 }));
    assert_eq!(err("mapleque/rustgo\n9\nstart\naa\nstart\n"), Err(GoError::InvalidCommand));
    assert_eq!(err("mapleque/rustgo\n9\nstart\naa \n"), Err(GoError::InvalidCommand));
    assert_eq!(
        err("mapleque/rustgo\n9\nstart\npass\nba\npass\nab\naa\nbb\n"),
        Err(GoError::Suicide { x: 1, y: 1 })
    );
    assert_eq!(
        err("mapleque/rustgo\n9\nstart\nba\nca\nab\ndb\nbc\ncc\npass\nbb\ncb\nbb\n"),
        Err(GoError::KoViolation { x: 2, y: 2 })
    );
    // the first mistake is the one that is told
    assert_eq!(err("mapleque/rustgo\n9\nstart\nzz\naa\naa\n"), Err(GoError::OutOfBounds { x: 26, y: 26 }));
    // on 19 lines the same words are good turns
    let g = Game::load(lines("mapleque/rustgo\n19\nstart\njj\npass\nss\n")).unwrap();
    assert_eq!(g.step_count(), 3);
    assert_eq!(g.board().at(10, 10), Ok(Stone::Black));
    assert_eq!(g.board().at(19, 19), Ok(Stone::Black));
    assert_eq!(g.next_player(), Player::White);
}

#[test]
fn every_reason_is_told_in_words() {
    assert_eq!(GoError::OutOfBounds { x: 0, y: 20 }.message(), "point (0, 20) is not on the board");
    assert_eq!(GoError::NotEmpty { x: 3, y: 19 }.message(), "this position (3,19) is not empty");
    assert_eq!(GoError::Suicide { x: 1, y: 1 }.message(), "this point (1,1) has no liberty");
    assert_eq!(GoError::KoViolation { x: 10, y: 9 }.message(), "this point (10,9) has same scene before");
    assert_eq!(GoError::InvalidCommand.message(), "invalid cmd");
    assert_eq!(GoError::NoUndo.message(), "can not undo");
    assert_eq!(GoError::NoRedo { index: 12 }.message(), "no redo steps 12");
    assert_eq!(GoError::InvalidSaveFile { line: 2 }.message(), "invalid dump file at line 2");
    assert_eq!(
        GoError::OutOfBounds { x: usize::MAX, y: 1000 }.message(),
        format!("point ({}, 1000) is not on the board", usize::MAX)
    );
}

#[test]
fn numbers_are_written_in_decimal() {
    for n in [0usize, 1, 9, 10, 11, 99, 100, 101, 360, 361, 1000, 65535, 1234567890] {
        assert_eq!(decimal(n), n.to_string());
    }
    assert_eq!(decimal(usize::MAX), usize::MAX.to_string());
}
