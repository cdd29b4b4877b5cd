use rustgo::basic::{Board, BoardSize, Cmd, Game, Stone};

#[test]
fn an_empty_board_of_nine_lines_is_drawn() {
    let b = Board::new(BoardSize::Small);
    let expected = "  a b c d e f g h i \n\
                    a . . . . . . . . . a\n\
                    b . . . . . . . . . b\n\
                    c . . 。. 。. 。. . c\n\
                    d . . . . . . . . . d\n\
                    e . . 。. 。. 。. . e\n\
                    f . . . . . . . . . f\n\
                    g . . 。. 。. 。. . g\n\
                    h . . . . . . . . . h\n\
                    i . . . . . . . . . i\n  a b c d e f g h i \n";
    assert_eq!(b.render(), expected);
}

#[test]
fn stones_cover_the_marks() {
    let mut b = Board::new(BoardSize::Small);
    b.add(Stone::Black, 3, 3).unwrap();
    b.add(Stone::White, 5, 3).unwrap();
    b.add(Stone::Black, 1, 1).unwrap();
    b.add(Stone::White, 9, 9).unwrap();
    let text = b.render();
    let rows: Vec<&str> = text.split('\n').collect();
    assert_eq!(rows.len(), 12);
    assert_eq!(rows[0], "  a b c d e f g h i ");
    assert_eq!(rows[1], "a x . . . . . . . . a");
    assert_eq!(rows[3], "c . . x . o . 。. . c");
    assert_eq!(rows[9], "i . . . . . . . . o i");
    assert_eq!(rows[10], "  a b c d e f g h i ");
    assert_eq!(rows[11], "");
}

#[test]
fn the_larger_boards_are_drawn_with_their_letters() {
    let text = Board::new(BoardSize::Normal).render();
    let rows: Vec<&str> = text.split('\n').collect();
    assert_eq!(rows.len(), 22);
    assert_eq!(rows[0], "  a b c d e f g h i j k l m n o p q r s ");
    assert_eq!(rows[1], "a . . . . . . . . . . . . . . . . . . . a");
    assert_eq!(rows[4], "d . . . 。. . . . . 。. . . . . 。. . . d");
    assert_eq!(rows[19], "s . . . . . . . . . . . . . . . . . . . s");
    assert_eq!(rows[20], rows[0]);
    let text = Board::new(BoardSize::Medium).render();
    let rows: Vec<&str> = text.split('\n').collect();
    assert_eq!(rows.len(), 16);
    assert_eq!(rows[0], "  a b c d e f g h i j k l m ");
    assert_eq!(rows[7], "g . . . 。. . 。. . 。. . . g");
    assert_eq!(rows[13], "m . . . . . . . . . . . . . m");
}

#[test]
fn the_game_is_drawn_with_the_player_to_move() {
    let mut g = Game::new(BoardSize::Small);
    let board = g.board().render();
    assert_eq!(g.render(), format!("\nWhite(o)   [0] > Black(x)\n\n{}", board));
    g.next(Cmd::Pass).unwrap();
    assert_eq!(g.render(), format!("\nWhite(o) < [1]   Black(x)\n\n{}", board));
    let g = Game::new(BoardSize::Medium);
    assert!(g.render().starts_with("\n  White(o)   [0] > Black(x)\n\n  a b"));
    let mut g = Game::new(BoardSize::Normal);
    for _ in 0..12 {
        g.next(Cmd::Pass).unwrap();
    }
    assert!(g.render().starts_with("\n        White(o)   [12] > Black(x)\n\n  a b"));
}

#[test]
fn signs_and_words() {
    assert_eq!(Stone::Empty.text(), ".");
    assert_eq!(Stone::Black.text(), "x");
    assert_eq!(Stone::White.text(), "o");
    assert_eq!(Cmd::Start.text(), "start");
    assert_eq!(Cmd::Pass.text(), "pass");
    assert_eq!(Cmd::Step("qd".to_string()).text(), "qd");
}
