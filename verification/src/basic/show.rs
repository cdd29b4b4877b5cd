//! The board and the game as text for a terminal.

use vstd::prelude::*;
use vstd::string::*;
use crate::basic::board::{Board, BoardView, Stone};
use crate::basic::error::{decimal, spec_decimal};
use crate::basic::game::{Game, GameView, Player};

verus! {

/// The letter that names column or row `i`, counted from 0.
pub open spec fn letter(i: int) -> Seq<char> {
    if i == 0 {
        "a"@
    } else if i == 1 {
        "b"@
    } else if i == 2 {
        "c"@
    } else if i == 3 {
        "d"@
    } else if i == 4 {
        "e"@
    } else if i == 5 {
        "f"@
    } else if i == 6 {
        "g"@
    } else if i == 7 {
        "h"@
    } else if i == 8 {
        "i"@
    } else if i == 9 {
        "j"@
    } else if i == 10 {
        "k"@
    } else if i == 11 {
        "l"@
    } else if i == 12 {
        "m"@
    } else if i == 13 {
        "n"@
    } else if i == 14 {
        "o"@
    } else if i == 15 {
        "p"@
    } else if i == 16 {
        "q"@
    } else if i == 17 {
        "r"@
    } else {
        "s"@
    }
}

/// The line of letters above and below the board: the letters of the first
/// `n` columns, a blank after each.
pub open spec fn letters_text(n: int) -> Seq<char>
    decreases n,
{
    if n <= 0 {
        Seq::empty()
    } else {
        letters_text(n - 1) + letter(n - 1) + " "@
    }
}

/// The sign for what a point holds.
pub open spec fn stone_text(stone: Stone) -> Seq<char> {
    match stone {
        Stone::Empty => "."@,
        Stone::Black => "x"@,
        Stone::White => "o"@,
    }
}

/// The point `(x, y)` as it is drawn: a wide mark for an empty marked point,
/// else the sign of what it holds and a blank.
pub open spec fn cell_text(b: BoardView, x: int, y: int) -> Seq<char> {
    if b.star(x, y) && b.at(x, y) == Stone::Empty {
        "。"@
    } else {
        stone_text(b.at(x, y)) + " "@
    }
}

/// The first `n` points of row `y` as they are drawn.
pub open spec fn cells_text(b: BoardView, y: int, n: int) -> Seq<char>
    decreases n,
{
    if n <= 0 {
        Seq::empty()
    } else {
        cells_text(b, y, n - 1) + cell_text(b, n, y)
    }
}

/// Row `y` as it is drawn: on a new line its letter, its points, its letter again.
pub open spec fn row_text(b: BoardView, y: int) -> Seq<char> {
    "\n"@ + letter(y - 1) + " "@ + cells_text(b, y, b.size as int) + letter(y - 1)
}

/// The first `n` rows as they are drawn.
pub open spec fn rows_text(b: BoardView, n: int) -> Seq<char>
    decreases n,
{
    if n <= 0 {
        Seq::empty()
    } else {
        rows_text(b, n - 1) + row_text(b, n)
    }
}

/// The board as it is drawn: the letters of the columns, the rows, the letters again.
pub open spec fn board_text(b: BoardView) -> Seq<char> {
    "  "@ + letters_text(b.size as int) + rows_text(b, b.size as int) + "\n"@ + "  "@
        + letters_text(b.size as int) + "\n"@
}

/// What is put before the line of the players so that it stands in the middle.
pub open spec fn indent_text(size: nat) -> Seq<char> {
    if size == 19 {
        "        "@
    } else if size == 13 {
        "  "@
    } else {
        ""@
    }
}

/// The game as it is drawn: the players with a mark at the one to move and
/// the count of turns between them, then the board.
pub open spec fn game_text(g: GameView) -> Seq<char> {
    "\n"@ + indent_text(g.board.size) + (match g.player {
        Player::Black => "White(o)   ["@ + spec_decimal(g.step_count()) + "] > Black(x)"@,
        Player::White => "White(o) < ["@ + spec_decimal(g.step_count()) + "]   Black(x)"@,
    }) + "\n"@ + "\n"@ + board_text(g.board)
}

/// The letter that names column or row `i`, counted from 0.
fn letter_text(i: usize) -> (s: &'static str)
    ensures
        s@ == letter(i as int),
{
    match i {
        0 => "a",
        1 => "b",
        2 => "c",
        3 => "d",
        4 => "e",
        5 => "f",
        6 => "g",
        7 => "h",
        8 => "i",
        9 => "j",
        10 => "k",
        11 => "l",
        12 => "m",
        13 => "n",
        14 => "o",
        15 => "p",
        16 => "q",
        17 => "r",
        _ => "s",
    }
}

/// Appends the line of letters above and below the board.
fn append_letters(data: &mut String, n: usize)
    ensures
        final(data)@ == old(data)@ + letters_text(n as int),
{
    let ghost start = data@;
    for i in 0..n
        invariant
            data@ == start + letters_text(i as int),
    {
        data.append(letter_text(i));
        data.append(" ");
        assert(data@ =~= start + letters_text(i + 1));
    }
}

impl Stone {
    /// The sign for what a point holds.
    pub fn text(self) -> (s: &'static str)
        ensures
            s@ == stone_text(self),
    {
        match self {
            Stone::Empty => ".",
            Stone::Black => "x",
            Stone::White => "o",
        }
    }
}

impl Board {
    /// Appends row `y` as it is drawn.
    fn append_row(&self, data: &mut String, y: usize)
        requires
            self.wf(),
            1 <= y <= self@.size,
        ensures
            final(data)@ == old(data)@ + row_text(self@, y as int),
    {
        let ghost start = data@;
        let n = self.lines();
        data.append("\n");
        data.append(letter_text(y - 1));
        data.append(" ");
        let ghost head = data@;
        for i in 0..n
            invariant
                self.wf(),
                n == self@.size,
                1 <= y <= self@.size,
                head == start + "\n"@ + letter(y - 1) + " "@,
                data@ == head + cells_text(self@, y as int, i as int),
        {
            let x = i + 1;
            let v = self.at(x, y).unwrap();
            let star = self.is_star_position(x, y).unwrap();
            if star && v == Stone::Empty {
                data.append("。");
            } else {
                data.append(v.text());
                data.append(" ");
            }
            assert(data@ =~= head + cells_text(self@, y as int, i + 1));
        }
        data.append(letter_text(y - 1));
        assert(data@ =~= start + row_text(self@, y as int));
    }

    /// The board as it is drawn.
    pub fn render(&self) -> (data: String)
        requires
            self.wf(),
        ensures
            data@ == board_text(self@),
    {
        let n = self.lines();
        let mut data = String::from_str("  ");
        append_letters(&mut data, n);
        let ghost head = data@;
        for j in 0..n
            invariant
                self.wf(),
                n == self@.size,
                head == "  "@ + letters_text(n as int),
                data@ == head + rows_text(self@, j as int),
        {
            self.append_row(&mut data, j + 1);
            assert(data@ =~= head + rows_text(self@, j + 1));
        }
        data.append("\n");
        data.append("  ");
        append_letters(&mut data, n);
        data.append("\n");
        assert(data@ =~= board_text(self@));
        data
    }
}

impl Game {
    /// The game as it is drawn.
    pub fn render(&self) -> (data: String)
        requires
            self.wf(),
        ensures
            data@ == game_text(self@),
    {
        let mut data = String::from_str("\n");
        match self.board().lines() {
            19 => data.append("        "),
            13 => data.append("  "),
            _ => data.append(""),
        }
        let count = decimal(self.step_count());
        match self.next_player() {
            Player::Black => {
                data.append("White(o)   [");
                data.append(count.as_str());
                data.append("] > Black(x)");
            },
            Player::White => {
                data.append("White(o) < [");
                data.append(count.as_str());
                data.append("]   Black(x)");
            },
        }
        data.append("\n");
        data.append("\n");
        data.append(self.board().render().as_str());
        assert(data@ =~= game_text(self@));
        data
    }
}

} // verus!
