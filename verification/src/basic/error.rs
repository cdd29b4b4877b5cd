//! The reasons for which a request to the engine is refused.

use vstd::prelude::*;
use vstd::string::*;

verus! {

/// Why a request was refused. A refused request changes nothing.
#[derive(Clone, Copy, Debug, PartialEq, Eq, Structural)]
pub enum GoError {
    /// The point `(x, y)` does not lie on the board.
    OutOfBounds { x: usize, y: usize },
    /// The point `(x, y)` already holds a stone.
    NotEmpty { x: usize, y: usize },
    /// A stone at `(x, y)` would have no liberty and capture nothing.
    Suicide { x: usize, y: usize },
    /// A stone at `(x, y)` would bring back an earlier position of this line of play.
    KoViolation { x: usize, y: usize },
    /// The command is not a pass and does not name a point by two letters.
    InvalidCommand,
    /// There is no move to take back.
    NoUndo,
    /// No move was recorded under this number at the current position.
    NoRedo { index: usize },
    /// The saved game is malformed at this line (counted from 1).
    InvalidSaveFile { line: usize },
}

/// The character for a digit.
pub open spec fn spec_digit(d: nat) -> char {
    if d == 0 {
        '0'
    } else if d == 1 {
        '1'
    } else if d == 2 {
        '2'
    } else if d == 3 {
        '3'
    } else if d == 4 {
        '4'
    } else if d == 5 {
        '5'
    } else if d == 6 {
        '6'
    } else if d == 7 {
        '7'
    } else if d == 8 {
        '8'
    } else {
        '9'
    }
}

/// A number written in decimal digits, without leading zeros.
pub open spec fn spec_decimal(n: nat) -> Seq<char>
    decreases n,
{
    if n < 10 {
        seq![spec_digit(n)]
    } else {
        spec_decimal(n / 10).push(spec_digit(n % 10))
    }
}

/// The text of one digit.
fn digit_text(d: usize) -> (s: &'static str)
    requires
        d < 10,
    ensures
        s@ == seq![spec_digit(d as nat)],
{
    proof {
        reveal_strlit("0");
        reveal_strlit("1");
        reveal_strlit("2");
        reveal_strlit("3");
        reveal_strlit("4");
        reveal_strlit("5");
        reveal_strlit("6");
        reveal_strlit("7");
        reveal_strlit("8");
        reveal_strlit("9");
    }
    let s = match d {
        0 => "0",
        1 => "1",
        2 => "2",
        3 => "3",
        4 => "4",
        5 => "5",
        6 => "6",
        7 => "7",
        8 => "8",
        _ => "9",
    };
    assert(s@ =~= seq![spec_digit(d as nat)]);
    s
}

/// Writes a number in decimal digits.
pub fn decimal(n: usize) -> (s: String)
    ensures
        s@ == spec_decimal(n as nat),
    decreases n,
{
    if n < 10 {
        String::from_str(digit_text(n))
    } else {
        let mut s = decimal(n / 10);
        s.append(digit_text(n % 10));
        assert(s@ =~= spec_decimal(n as nat));
        s
    }
}

impl GoError {
    /// The reason in words.
    pub open spec fn spec_message(self) -> Seq<char> {
        match self {
            GoError::OutOfBounds { x, y } => "point ("@ + spec_decimal(x as nat) + ", "@
                + spec_decimal(y as nat) + ") is not on the board"@,
            GoError::NotEmpty { x, y } => "this position ("@ + spec_decimal(x as nat) + ","@
                + spec_decimal(y as nat) + ") is not empty"@,
            GoError::Suicide { x, y } => "this point ("@ + spec_decimal(x as nat) + ","@
                + spec_decimal(y as nat) + ") has no liberty"@,
            GoError::KoViolation { x, y } => "this point ("@ + spec_decimal(x as nat) + ","@
                + spec_decimal(y as nat) + ") has same scene before"@,
            GoError::InvalidCommand => "invalid cmd"@,
            GoError::NoUndo => "can not undo"@,
            GoError::NoRedo { index } => "no redo steps "@ + spec_decimal(index as nat),
            GoError::InvalidSaveFile { line } => "invalid dump file at line "@ + spec_decimal(
                line as nat,
            ),
        }
    }

    /// The reason in words.
    pub fn message(&self) -> (s: String)
        ensures
            s@ == self.spec_message(),
    {
        match self {
            GoError::OutOfBounds { x, y } => point_text(
                "point (",
                *x,
                ", ",
                *y,
                ") is not on the board",
            ),
            GoError::NotEmpty { x, y } => point_text("this position (", *x, ",", *y, ") is not empty"),
            GoError::Suicide { x, y } => point_text("this point (", *x, ",", *y, ") has no liberty"),
            GoError::KoViolation { x, y } => point_text(
                "this point (",
                *x,
                ",",
                *y,
                ") has same scene before",
            ),
            GoError::InvalidCommand => String::from_str("invalid cmd"),
            GoError::NoUndo => String::from_str("can not undo"),
            GoError::NoRedo { index } => {
                let mut s = String::from_str("no redo steps ");
                s.append(decimal(*index).as_str());
                s
            },
            GoError::InvalidSaveFile { line } => {
                let mut s = String::from_str("invalid dump file at line ");
                s.append(decimal(*line).as_str());
                s
            },
        }
    }
}

/// The two numbers with the three pieces of text around and between them.
fn point_text(before: &str, x: usize, between: &str, y: usize, after: &str) -> (s: String)
    ensures
        s@ == before@ + spec_decimal(x as nat) + between@ + spec_decimal(y as nat) + after@,
{
    let mut s = String::from_str(before);
    s.append(decimal(x).as_str());
    s.append(between);
    s.append(decimal(y).as_str());
    s.append(after);
    s
}

} // verus!
