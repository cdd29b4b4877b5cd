use rustgo::basic::{unzip_board, zip_board, Board, BoardSize, BoardZip, GoError, Stone};

fn cell(g: &Board, i: usize) -> Stone {
    let (x, y) = g.index_to_point(i).unwrap();
    g.at(x, y).unwrap()
}

#[test]
fn each_mode_has_correct_star_position() {
    let g = Board::new(BoardSize::Normal);
    // star points
    assert!(g.is_star_position(4, 4).unwrap());
    assert!(g.is_star_position(4, 10).unwrap());
    assert!(g.is_star_position(4, 16).unwrap());
    assert!(g.is_star_position(10, 4).unwrap());
    assert!(g.is_star_position(10, 10).unwrap());
    assert!(g.is_star_position(10, 16).unwrap());
    assert!(g.is_star_position(16, 4).unwrap());
    assert!(g.is_star_position(16, 10).unwrap());
    assert!(g.is_star_position(16, 16).unwrap());
    // not star points
    assert!(!g.is_star_position(1, 1).unwrap());
    assert!(!g.is_star_position(3, 3).unwrap());
    assert!(!g.is_star_position(7, 7).unwrap());
    let g = Board::new(BoardSize::Medium);
    // star points
    assert!(g.is_star_position(4, 4).unwrap());
    assert!(g.is_star_position(4, 7).unwrap());
    assert!(g.is_star_position(4, 10).unwrap());
    assert!(g.is_star_position(7, 4).unwrap());
    assert!(g.is_star_position(7, 7).unwrap());
    assert!(g.is_star_position(7, 10).unwrap());
    assert!(g.is_star_position(10, 4).unwrap());
    assert!(g.is_star_position(10, 7).unwrap());
    assert!(g.is_star_position(10, 10).unwrap());
    // not star points
    assert!(!g.is_star_position(1, 1).unwrap());
    assert!(!g.is_star_position(3, 3).unwrap());
    assert!(!g.is_star_position(5, 5).unwrap());
    let g = Board::new(BoardSize::Small);
    // star points
    assert!(g.is_star_position(3, 3).unwrap());
    assert!(g.is_star_position(3, 5).unwrap());
    assert!(g.is_star_position(3, 7).unwrap());
    assert!(g.is_star_position(5, 3).unwrap());
    assert!(g.is_star_position(5, 5).unwrap());
    assert!(g.is_star_position(5, 7).unwrap());
    assert!(g.is_star_position(7, 3).unwrap());
    assert!(g.is_star_position(7, 5).unwrap());
    assert!(g.is_star_position(7, 7).unwrap());
    // not star points
    assert!(!g.is_star_position(1, 1).unwrap());
    assert!(!g.is_star_position(4, 4).unwrap());
}

#[test]
fn each_mode_has_correct_add_position() {
    let mut g = Board::new(BoardSize::Normal);
    g.add(Stone::Black, 1, 1).unwrap();
    assert!(cell(&g, 0) == Stone::Black);
    assert!(cell(&g, 1) == Stone::Empty);
    g.add(Stone::White, 2, 1).unwrap();
    assert!(cell(&g, 1) == Stone::White);
    assert!(cell(&g, 2) == Stone::Empty);
    assert!(cell(&g, 19) == Stone::Empty);
    g.add(Stone::Black, 1, 2).unwrap();
    assert!(cell(&g, 0) == Stone::Black);
    assert!(cell(&g, 1) == Stone::White);
    assert!(cell(&g, 19) == Stone::Black);
    g.add(Stone::White, 19, 19).unwrap();
    assert!(cell(&g, 0) == Stone::Black);
    assert!(cell(&g, 1) == Stone::White);
    assert!(cell(&g, 19) == Stone::Black);
    assert!(cell(&g, 360) == Stone::White);
    g.del(1, 2).unwrap();
    assert!(cell(&g, 19) == Stone::Empty);
    for i in 2..359 {
        if cell(&g, i) != Stone::Empty {
            println!("index {} is not empty", i);
        }
        assert!(cell(&g, i) == Stone::Empty);
    }
}

#[test]
fn zip_and_unzip() {
    let mut g1 = Board::new(BoardSize::Normal);
    g1.add(Stone::Black, 1, 1).unwrap();
    assert!(cell(&g1, 0) == Stone::Black);
    let mut g2 = Board::new(BoardSize::Normal);
    g2.add(Stone::Black, 1, 1).unwrap();
    let z1 = zip_board(&g1);
    let z2 = zip_board(&g2);
    assert!(z1 == z2);
    let uz1 = unzip_board(&z1);
    println!("{:?}", uz1);
    assert!(cell(&uz1, 0) == Stone::Black);
    assert!(cell(&uz1, 1) == Stone::Empty);
}

#[test]
fn new_board_is_empty_in_every_size() {
    for (size, lines) in [(BoardSize::Normal, 19), (BoardSize::Medium, 13), (BoardSize::Small, 9)] {
        let g = Board::new(size);
        assert_eq!(g.size(), size);
        assert_eq!(g.lines(), lines);
        for y in 1..=lines {
            for x in 1..=lines {
                assert_eq!(g.at(x, y), Ok(Stone::Empty));
                assert_eq!(g.is(x, y, Stone::Empty), Ok(true));
                assert_eq!(g.is(x, y, Stone::Black), Ok(false));
            }
        }
    }
}

#[test]
fn points_outside_the_board_are_refused() {
    let mut g = Board::new(BoardSize::Small);
    for (x, y) in [(0, 1), (1, 0), (10, 1), (1, 10), (0, 0), (10, 10), (usize::MAX, 3)] {
        assert_eq!(g.at(x, y), Err(GoError::OutOfBounds { x, y }));
        assert_eq!(g.is(x, y, Stone::Empty), Err(GoError::OutOfBounds { x, y }));
        assert_eq!(g.add(Stone::Black, x, y), Err(GoError::OutOfBounds { x, y }));
        assert_eq!(g.del(x, y), Err(GoError::OutOfBounds { x, y }));
        assert_eq!(g.is_star_position(x, y), Err(GoError::OutOfBounds { x, y }));
        assert_eq!(g.point_to_index(x, y), Err(GoError::OutOfBounds { x, y }));
    }
    // the corners are on the board
    assert_eq!(g.add(Stone::White, 9, 9), Ok(()));
    assert_eq!(g.at(9, 9), Ok(Stone::White));
    assert_eq!(g.add(Stone::Black, 1, 1), Ok(()));
    assert_eq!(g.at(1, 1), Ok(Stone::Black));
    // a 13 line board ends at 13
    let g = Board::new(BoardSize::Medium);
    assert_eq!(g.at(13, 13), Ok(Stone::Empty));
    assert_eq!(g.at(14, 13), Err(GoError::OutOfBounds { x: 14, y: 13 }));
}

#[test]
fn add_and_del_change_one_point_only() {
    let mut g = Board::new(BoardSize::Small);
    g.add(Stone::Black, 4, 6).unwrap();
    for y in 1..=9 {
        for x in 1..=9 {
            let expected = if (x, y) == (4, 6) { Stone::Black } else { Stone::Empty };
            assert_eq!(g.at(x, y), Ok(expected));
        }
    }
    // a stone is replaced without complaint
    g.add(Stone::White, 4, 6).unwrap();
    assert_eq!(g.at(4, 6), Ok(Stone::White));
    g.del(4, 6).unwrap();
    assert_eq!(g.at(4, 6), Ok(Stone::Empty));
    // taking from an empty point is accepted too
    assert_eq!(g.del(4, 6), Ok(()));
}

#[test]
fn index_and_point_are_inverse() {
    let g = Board::new(BoardSize::Medium);
    assert_eq!(g.point_to_index(1, 1), Ok(0));
    assert_eq!(g.point_to_index(13, 1), Ok(12));
    assert_eq!(g.point_to_index(1, 2), Ok(13));
    assert_eq!(g.point_to_index(13, 13), Ok(168));
    assert_eq!(g.index_to_point(0), Ok((1, 1)));
    assert_eq!(g.index_to_point(12), Ok((13, 1)));
    assert_eq!(g.index_to_point(13), Ok((1, 2)));
    assert_eq!(g.index_to_point(168), Ok((13, 13)));
    assert_eq!(g.index_to_point(169), Err(GoError::OutOfBounds { x: 1, y: 14 }));
    for i in 0..169 {
        let (x, y) = g.index_to_point(i).unwrap();
        assert_eq!(g.point_to_index(x, y), Ok(i));
    }
}

#[test]
fn stones_of_different_colours_are_opposite() {
    assert!(Stone::Black.is_opposite(Stone::White));
    assert!(Stone::White.is_opposite(Stone::Black));
    assert!(!Stone::Black.is_opposite(Stone::Black));
    assert!(!Stone::White.is_opposite(Stone::White));
    assert!(!Stone::Empty.is_opposite(Stone::Black));
    assert!(!Stone::Black.is_opposite(Stone::Empty));
    assert!(!Stone::Empty.is_opposite(Stone::Empty));
    assert_eq!(Stone::Black.another(), Stone::White);
    assert_eq!(Stone::White.another(), Stone::Black);
    assert_eq!(Stone::Empty.another(), Stone::Empty);
}

#[test]
fn codes_have_the_documented_layout() {
    // the first point of a word stands in its two highest bits
    let mut g = Board::new(BoardSize::Small);
    assert_eq!(zip_board(&g), BoardZip::SmallBoardZip(0, 0));
    g.add(Stone::Black, 1, 1).unwrap();
    assert_eq!(zip_board(&g), BoardZip::SmallBoardZip(1u128 << 126, 0));
    g.add(Stone::White, 1, 1).unwrap();
    assert_eq!(zip_board(&g), BoardZip::SmallBoardZip(2u128 << 126, 0));
    // point 64 (from 1) is (1, 8) on 9 lines: the last of the first word
    g.add(Stone::Black, 1, 8).unwrap();
    assert_eq!(zip_board(&g), BoardZip::SmallBoardZip((2u128 << 126) + 1, 0));
    // point 65 is (2, 8): the first of the second word, which has 17 points
    g.add(Stone::White, 2, 8).unwrap();
    assert_eq!(zip_board(&g), BoardZip::SmallBoardZip((2u128 << 126) + 1, 2u64 << 32));
    // the last point of the board stands in the two lowest bits
    g.add(Stone::Black, 9, 9).unwrap();
    assert_eq!(zip_board(&g), BoardZip::SmallBoardZip((2u128 << 126) + 1, (2u64 << 32) + 1));

    let mut g = Board::new(BoardSize::Medium);
    g.add(Stone::White, 13, 13).unwrap();
    g.add(Stone::Black, 12, 5).unwrap(); // place 63 from 0
    g.add(Stone::Black, 13, 5).unwrap(); // place 64 from 0
    assert_eq!(zip_board(&g), BoardZip::MediumBoardZip(1, 1u128 << 126, 2));

    let mut g = Board::new(BoardSize::Normal);
    g.add(Stone::White, 19, 19).unwrap();
    g.add(Stone::Black, 17, 17).unwrap(); // place 320 from 0: first of the last word
    assert_eq!(zip_board(&g), BoardZip::NormalBoardZip(0, 0, 0, 0, 0, (1u128 << 80) + 2));
}

#[test]
fn unzip_reads_the_unused_pattern_as_empty() {
    let b = unzip_board(&BoardZip::SmallBoardZip(u128::MAX, u64::MAX));
    assert_eq!(b.size(), BoardSize::Small);
    for y in 1..=9 {
        for x in 1..=9 {
            assert_eq!(b.at(x, y), Ok(Stone::Empty));
        }
    }
    // bits above the points of the last word are not looked at
    let b = unzip_board(&BoardZip::SmallBoardZip(0, (1u64 << 63) + 2));
    assert_eq!(b.at(9, 9), Ok(Stone::White));
    assert_eq!(b.at(2, 8), Ok(Stone::Empty));
    let b = unzip_board(&BoardZip::MediumBoardZip(3, 1, 7));
    assert_eq!(b.size(), BoardSize::Medium);
    assert_eq!(b.at(12, 5), Ok(Stone::Empty));
    assert_eq!(b.at(11, 10), Ok(Stone::Black));
    assert_eq!(b.at(12, 13), Ok(Stone::Black));
    assert_eq!(b.at(13, 13), Ok(Stone::Empty));
}

fn scattered(size: BoardSize, lines: usize, seed: usize) -> Board {
    let mut b = Board::new(size);
    for y in 1..=lines {
        for x in 1..=lines {
            let stone = match (x * 7 + y * 13 + seed) % 3 {
                0 => Stone::Empty,
                1 => Stone::Black,
                _ => Stone::White,
            };
            b.add(stone, x, y).unwrap();
        }
    }
    b
}

#[test]
fn unzip_after_zip_gives_the_board_back() {
    for (size, lines) in [(BoardSize::Normal, 19), (BoardSize::Medium, 13), (BoardSize::Small, 9)] {
        for seed in 0..5 {
            let b = scattered(size, lines, seed);
            let back = unzip_board(&zip_board(&b));
            assert_eq!(back.size(), size);
            for y in 1..=lines {
                for x in 1..=lines {
                    assert_eq!(back.at(x, y), b.at(x, y));
                }
            }
            assert_eq!(zip_board(&back), zip_board(&b));
        }
    }
}

#[test]
fn equal_boards_have_equal_codes_and_others_do_not() {
    let a = scattered(BoardSize::Small, 9, 1);
    let b = scattered(BoardSize::Small, 9, 1);
    assert_eq!(zip_board(&a), zip_board(&b));
    // every single point tells two boards apart
    for y in 1..=9 {
        for x in 1..=9 {
            let mut c = scattered(BoardSize::Small, 9, 1);
            let other = match c.at(x, y).unwrap() {
                Stone::Empty => Stone::Black,
                Stone::Black => Stone::White,
                Stone::White => Stone::Empty,
            };
            c.add(other, x, y).unwrap();
            assert_ne!(zip_board(&a), zip_board(&c));
        }
    }
    // so does the size
    assert_ne!(zip_board(&Board::new(BoardSize::Small)), zip_board(&Board::new(BoardSize::Medium)));
    assert_ne!(zip_board(&Board::new(BoardSize::Medium)), zip_board(&Board::new(BoardSize::Normal)));
}
