use rustgo::basic::{
    calc_liberty, check_if_empty, check_if_never_repeat_with_new_stone, get_block, neighbour_at,
    remove_block, remove_lose_liberty_stones, zip_board, Board, BoardSize, GoError, Point, Stone,
};

#[test]
fn test_neighbour_at() {
    let b = Board::new(BoardSize::Small);
    let ret = neighbour_at(&b, 1, 1);
    assert!(ret.len() == 2);
    assert!(ret[0] == Point::new(Stone::Empty, 2, 1));
    assert!(ret[1] == Point::new(Stone::Empty, 1, 2));
    let ret = neighbour_at(&b, 1, 2);
    assert!(ret.len() == 3);
    assert!(ret[0] == Point::new(Stone::Empty, 2, 2));
    assert!(ret[1] == Point::new(Stone::Empty, 1, 1));
    assert!(ret[2] == Point::new(Stone::Empty, 1, 3));
    let ret = neighbour_at(&b, 2, 2);
    assert!(ret.len() == 4);
    assert!(ret[0] == Point::new(Stone::Empty, 1, 2));
    assert!(ret[1] == Point::new(Stone::Empty, 3, 2));
    assert!(ret[2] == Point::new(Stone::Empty, 2, 1));
    assert!(ret[3] == Point::new(Stone::Empty, 2, 3));
}

#[test]
fn test_remove_block() {
    let mut b = Board::new(BoardSize::Small);
    b.add(Stone::Black, 1, 1).unwrap();
    b.add(Stone::Black, 1, 2).unwrap();
    b.add(Stone::White, 2, 1).unwrap();
    b.add(Stone::White, 2, 2).unwrap();
    b.add(Stone::White, 1, 3).unwrap();
    remove_block(&mut b, 1, 1);
    assert!(b.is(1, 1, Stone::Empty).unwrap());
    assert!(b.is(1, 2, Stone::Empty).unwrap());
    assert!(b.is(2, 1, Stone::White).unwrap());
    assert!(b.is(2, 2, Stone::White).unwrap());
    assert!(b.is(1, 3, Stone::White).unwrap());
    remove_block(&mut b, 1, 3);
    assert!(b.is(1, 1, Stone::Empty).unwrap());
    assert!(b.is(1, 2, Stone::Empty).unwrap());
    assert!(b.is(2, 1, Stone::White).unwrap());
    assert!(b.is(2, 2, Stone::White).unwrap());
    assert!(b.is(1, 3, Stone::Empty).unwrap());
    remove_block(&mut b, 2, 2);
    assert!(b.is(1, 1, Stone::Empty).unwrap());
    assert!(b.is(1, 2, Stone::Empty).unwrap());
    assert!(b.is(2, 1, Stone::Empty).unwrap());
    assert!(b.is(2, 2, Stone::Empty).unwrap());
    assert!(b.is(1, 3, Stone::Empty).unwrap());
}

#[test]
fn test_calc_liberty() {
    let mut b = Board::new(BoardSize::Small);
    b.add(Stone::Black, 1, 1).unwrap();
    assert!(calc_liberty(&b, 1, 1) == 2);
    b.add(Stone::Black, 1, 2).unwrap();
    assert!(calc_liberty(&b, 1, 1) == 3);
    b.add(Stone::White, 2, 1).unwrap();
    assert!(calc_liberty(&b, 1, 1) == 2);
    b.add(Stone::Black, 2, 3).unwrap();
    assert!(calc_liberty(&b, 1, 1) == 2);
}

#[test]
fn test_remove_lose_liberty_stones() {
    let mut b = Board::new(BoardSize::Small);
    b.add(Stone::Black, 1, 1).unwrap();
    b.add(Stone::White, 2, 1).unwrap();
    b.add(Stone::White, 1, 2).unwrap();
    remove_lose_liberty_stones(&mut b, 1, 2).unwrap();
    assert!(b.is(1, 1, Stone::Empty).unwrap());
    b.add(Stone::Black, 2, 2).unwrap();
    b.add(Stone::Black, 1, 3).unwrap();
    b.add(Stone::Black, 1, 1).unwrap();
    remove_lose_liberty_stones(&mut b, 1, 1).unwrap();
    assert!(b.is(1, 1, Stone::Black).unwrap());
    assert!(b.is(1, 2, Stone::Empty).unwrap());
}

#[test]
fn test_check_if_never_repeat_with_new_stone() {
    let mut b = Board::new(BoardSize::Small);
    let mut his = vec![zip_board(&b)];
    b.add(Stone::Black, 1, 1).unwrap();
    his.push(zip_board(&b));
    b.add(Stone::White, 4, 1).unwrap();
    his.push(zip_board(&b));
    b.add(Stone::Black, 3, 1).unwrap();
    his.push(zip_board(&b));
    b.add(Stone::White, 3, 2).unwrap();
    his.push(zip_board(&b));
    b.add(Stone::Black, 2, 2).unwrap();
    his.push(zip_board(&b));
    b.add(Stone::White, 2, 1).unwrap();
    b.del(3, 1).unwrap();
    his.push(zip_board(&b));

    match check_if_never_repeat_with_new_stone(&b, Stone::Black, 3, 1, his) {
        Ok(_) => assert!(false),
        Err(err) => {
            assert!(err == GoError::KoViolation { x: 3, y: 1 });
            assert!(err.message() == "this point (3,1) has same scene before");
        }
    }
}

fn board_from(rows: &[&str]) -> Board {
    let size = match rows.len() {
        9 => BoardSize::Small,
        13 => BoardSize::Medium,
        _ => BoardSize::Normal,
    };
    let mut b = Board::new(size);
    for (j, row) in rows.iter().enumerate() {
        for (i, c) in row.chars().enumerate() {
            let stone = match c {
                'x' => Stone::Black,
                'o' => Stone::White,
                _ => Stone::Empty,
            };
            b.add(stone, i + 1, j + 1).unwrap();
        }
    }
    b
}

fn rows_of(b: &Board) -> Vec<String> {
    let n = b.lines();
    (1..=n)
        .map(|y| {
            (1..=n)
                .map(|x| match b.at(x, y).unwrap() {
                    Stone::Empty => '.',
                    Stone::Black => 'x',
                    Stone::White => 'o',
                })
                .collect()
        })
        .collect()
}

fn points_of(block: &[Point]) -> Vec<(usize, usize)> {
    let mut v: Vec<(usize, usize)> = block.iter().map(|p| (p.x, p.y)).collect();
    v.sort();
    v
}

#[test]
fn neighbours_at_the_far_corner_and_outside() {
    let mut b = Board::new(BoardSize::Small);
    b.add(Stone::Black, 8, 9).unwrap();
    b.add(Stone::White, 9, 8).unwrap();
    assert_eq!(
        neighbour_at(&b, 9, 9),
        vec![Point::new(Stone::Black, 8, 9), Point::new(Stone::White, 9, 8)]
    );
    // a point beside the board has the points of the edge next to it
    assert_eq!(neighbour_at(&b, 0, 1), vec![Point::new(Stone::Empty, 1, 1)]);
    assert_eq!(neighbour_at(&b, 10, 9), vec![Point::new(Stone::Empty, 9, 9)]);
    assert_eq!(neighbour_at(&b, 0, 0), vec![]);
    assert_eq!(neighbour_at(&b, usize::MAX, usize::MAX), vec![]);
}

#[test]
fn a_block_is_everything_that_a_chain_reaches() {
    // a winding chain of black stones that only a full search follows
    let b = board_from(&[
        "xxx......",
        "..x......",
        "x.x.xxx..",
        "x.x.x.x..",
        "x.xxx.x..",
        "x.....x..",
        "xxxxxxx..",
        ".........",
        "x........",
    ]);
    let block = get_block(&b, 1, 1);
    assert_eq!(block[0], Point::new(Stone::Black, 1, 1));
    assert!(block.iter().all(|p| p.stone == Stone::Black));
    let mut expected = vec![];
    for y in 1..=7 {
        for x in 1..=9 {
            if b.at(x, y).unwrap() == Stone::Black {
                expected.push((x, y));
            }
        }
    }
    expected.sort();
    assert_eq!(points_of(&block), expected);
    assert_eq!(block.len(), 27);
    // the lone stone below is a block of its own
    assert_eq!(get_block(&b, 1, 9), vec![Point::new(Stone::Black, 1, 9)]);
    // every stone of the chain gives the same block
    assert_eq!(points_of(&get_block(&b, 5, 3)), expected);
    // empty points form blocks too
    let inner = get_block(&b, 2, 2);
    assert_eq!(points_of(&inner), vec![(1, 2), (2, 2), (2, 3), (2, 4), (2, 5), (2, 6), (3, 6), (4, 6), (5, 6), (6, 4), (6, 5), (6, 6)]);
}

#[test]
fn liberties_are_counted_once_each() {
    // the empty point (2, 2) touches three stones of the block and counts once
    let b = board_from(&[
        "xxx......",
        "x.x......",
        ".........",
        ".........",
        ".........",
        ".........",
        ".........",
        ".........",
        ".........",
    ]);
    // (2, 2), (4, 1), (4, 2), (1, 3), (3, 3)
    assert_eq!(calc_liberty(&b, 2, 1), 5);
    let b = board_from(&[
        "xxx......",
        "x.x......",
        "xxx......",
        ".........",
        ".........",
        ".........",
        ".........",
        ".........",
        ".........",
    ]);
    // (2, 2), (4, 1), (4, 2), (4, 3), (1, 4), (2, 4), (3, 4)
    assert_eq!(calc_liberty(&b, 1, 1), 7);
    assert_eq!(calc_liberty(&b, 3, 3), 7);
    // a stone in the middle of an empty board has four, at the edge three, in the corner two
    let mut b = Board::new(BoardSize::Normal);
    b.add(Stone::White, 10, 10).unwrap();
    b.add(Stone::White, 1, 10).unwrap();
    b.add(Stone::White, 19, 19).unwrap();
    assert_eq!(calc_liberty(&b, 10, 10), 4);
    assert_eq!(calc_liberty(&b, 1, 10), 3);
    assert_eq!(calc_liberty(&b, 19, 19), 2);
    // a surrounded block has none
    let b = board_from(&[
        "xo.......",
        "xo.......",
        "o........",
        ".........",
        ".........",
        ".........",
        ".........",
        ".........",
        ".........",
    ]);
    assert_eq!(calc_liberty(&b, 1, 1), 0);
    assert_eq!(calc_liberty(&b, 1, 2), 0);
}

#[test]
fn capture_in_the_corner() {
    let mut b = Board::new(BoardSize::Small);
    b.add(Stone::Black, 1, 1).unwrap();
    b.add(Stone::White, 2, 1).unwrap();
    b.add(Stone::White, 1, 2).unwrap();
    assert_eq!(calc_liberty(&b, 1, 1), 0);
    assert_eq!(remove_lose_liberty_stones(&mut b, 1, 2), Ok(()));
    assert_eq!(b.at(1, 1), Ok(Stone::Empty));
    assert_eq!(b.at(2, 1), Ok(Stone::White));
    assert_eq!(b.at(1, 2), Ok(Stone::White));
}

#[test]
fn suicide_is_refused_and_changes_nothing() {
    let mut b = Board::new(BoardSize::Small);
    b.add(Stone::White, 2, 1).unwrap();
    b.add(Stone::White, 1, 2).unwrap();
    let before = rows_of(&b);
    // through the whole check: the board that is handed in stays as it is
    assert_eq!(
        check_if_never_repeat_with_new_stone(&b, Stone::Black, 1, 1, vec![]).map(|_| ()),
        Err(GoError::Suicide { x: 1, y: 1 })
    );
    assert_eq!(rows_of(&b), before);
    // on a board where the stone already stands
    b.add(Stone::Black, 1, 1).unwrap();
    let before = rows_of(&b);
    assert_eq!(remove_lose_liberty_stones(&mut b, 1, 1), Err(GoError::Suicide { x: 1, y: 1 }));
    assert_eq!(rows_of(&b), before);
    // a block of two that fills its own last liberty
    let mut b = board_from(&[
        "x.o......",
        "oo.......",
        ".........",
        ".........",
        ".........",
        ".........",
        ".........",
        ".........",
        ".........",
    ]);
    let before = rows_of(&b);
    assert_eq!(
        check_if_never_repeat_with_new_stone(&b, Stone::Black, 2, 1, vec![]).map(|_| ()),
        Err(GoError::Suicide { x: 2, y: 1 })
    );
    assert_eq!(rows_of(&b), before);
    // white may fill it: it captures
    let nb = check_if_never_repeat_with_new_stone(&b, Stone::White, 2, 1, vec![]).unwrap();
    assert_eq!(rows_of(&nb)[0], ".oo......");
    b.add(Stone::Black, 2, 1).unwrap();
    assert_eq!(remove_lose_liberty_stones(&mut b, 2, 1), Err(GoError::Suicide { x: 2, y: 1 }));
}

#[test]
fn a_stone_without_liberty_that_captures_stays() {
    // black at (1, 1) has no liberty of its own but takes the white stone at (2, 1)
    let b = board_from(&[
        ".ox......",
        "ox.......",
        ".........",
        ".........",
        ".........",
        ".........",
        ".........",
        ".........",
        ".........",
    ]);
    let nb = check_if_never_repeat_with_new_stone(&b, Stone::Black, 1, 1, vec![]).unwrap();
    assert_eq!(rows_of(&nb)[0], "x.x......");
    assert_eq!(rows_of(&nb)[1], "ox.......");
    assert_eq!(rows_of(&b)[0], ".ox......");
}

#[test]
fn several_groups_are_captured_at_once() {
    // the black stone at (2, 2) takes the last liberty of four white stones
    let b = board_from(&[
        "xox......",
        "o.ox.....",
        "xox......",
        ".x.......",
        ".........",
        ".........",
        ".........",
        ".........",
        ".........",
    ]);
    let nb = check_if_never_repeat_with_new_stone(&b, Stone::Black, 2, 2, vec![]).unwrap();
    assert_eq!(
        rows_of(&nb),
        vec![
            "x.x......", ".x.x.....", "x.x......", ".x.......", ".........", ".........",
            ".........", ".........", ".........",
        ]
    );
}

#[test]
fn a_large_group_is_captured_whole() {
    let b = board_from(&[
        "oooox....",
        "oxxox....",
        "oooox....",
        "xxx.x....",
        "....x....",
        ".........",
        ".........",
        ".........",
        ".........",
    ]);
    // white has one liberty left, at (4, 4)
    assert_eq!(calc_liberty(&b, 1, 1), 1);
    let nb = check_if_never_repeat_with_new_stone(&b, Stone::Black, 4, 4, vec![]).unwrap();
    assert_eq!(
        rows_of(&nb),
        vec![
            "....x....", ".xx.x....", "....x....", "xxxxx....", "....x....", ".........",
            ".........", ".........", ".........",
        ]
    );
}

#[test]
fn an_empty_point_is_asked_for() {
    let mut b = Board::new(BoardSize::Small);
    b.add(Stone::White, 3, 3).unwrap();
    assert_eq!(check_if_empty(&b, 2, 3), Ok(()));
    assert_eq!(check_if_empty(&b, 3, 3), Err(GoError::NotEmpty { x: 3, y: 3 }));
    assert_eq!(check_if_empty(&b, 0, 3), Err(GoError::OutOfBounds { x: 0, y: 3 }));
    assert_eq!(check_if_empty(&b, 3, 10), Err(GoError::OutOfBounds { x: 3, y: 10 }));
}

#[test]
fn the_stone_is_put_before_it_captures() {
    let b = Board::new(BoardSize::Small);
    let nb = check_if_never_repeat_with_new_stone(&b, Stone::White, 5, 5, vec![]).unwrap();
    assert_eq!(nb.at(5, 5), Ok(Stone::White));
    assert_eq!(b.at(5, 5), Ok(Stone::Empty));
    assert_eq!(
        check_if_never_repeat_with_new_stone(&b, Stone::White, 10, 5, vec![]).map(|_| ()),
        Err(GoError::OutOfBounds { x: 10, y: 5 })
    );
    assert_eq!(
        remove_lose_liberty_stones(&mut Board::new(BoardSize::Small), 0, 5),
        Err(GoError::OutOfBounds { x: 0, y: 5 })
    );
    // the position that would come is looked for in all of the history
    let first = zip_board(&nb);
    let other = zip_board(&b);
    assert_eq!(
        check_if_never_repeat_with_new_stone(&b, Stone::White, 5, 5, vec![first, other]).map(|_| ()),
        Err(GoError::KoViolation { x: 5, y: 5 })
    );
    assert_eq!(
        check_if_never_repeat_with_new_stone(&b, Stone::White, 5, 5, vec![other, other, first])
            .map(|_| ()),
        Err(GoError::KoViolation { x: 5, y: 5 })
    );
    assert!(check_if_never_repeat_with_new_stone(&b, Stone::White, 5, 5, vec![other]).is_ok());
}
