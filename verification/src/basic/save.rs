//! Saved games: a game written down line by line, and read again.
//!
//! The first line names the format, the second gives the number of lines of
//! the board, the third is `start`, and each line after it is one turn in the
//! order of play: `pass`, or the two letters of the point.

use vstd::prelude::*;
use vstd::string::*;
use crate::basic::board::BoardSize;
use crate::basic::error::GoError;
use crate::basic::game::{lemma_start_wf, Cmd, Game, GameView};

verus! {

/// The first line of every saved game.
pub const SIGNATURE: &'static str = "mapleque/rustgo";

/// The character that ends a line.
pub const NEWLINE: char = '\n';

/// The lines of a text: what stands between the ends of lines, so that a
/// text has one line more than ends of lines, the last one after the last end.
pub open spec fn split_text(s: Seq<char>) -> Seq<Seq<char>>
    decreases s.len(),
{
    if s.len() == 0 {
        seq![Seq::empty()]
    } else {
        let before = split_text(s.drop_last());
        if s.last() == NEWLINE {
            before.push(Seq::empty())
        } else {
            before.drop_last().push(before.last().push(s.last()))
        }
    }
}

/// The texts of lines.
pub open spec fn texts(lines: Seq<String>) -> Seq<Seq<char>> {
    Seq::new(lines.len(), |i: int| lines[i]@)
}

/// How the lines of the first `i` characters grow by the next character: if
/// they had `done` and a last line from `start` on, and the next one ends a
/// line, the last line is done and an empty one follows it; else the last
/// line is one longer.
proof fn lemma_split_next(s: Seq<char>, i: int, done: Seq<Seq<char>>, start: int)
    requires
        0 <= start <= i < s.len(),
        split_text(s.take(i)) == done.push(s.subrange(start, i)),
    ensures
        s[i] == NEWLINE ==> split_text(s.take(i + 1)) == done.push(s.subrange(start, i)).push(
            s.subrange(i + 1, i + 1),
        ),
        s[i] != NEWLINE ==> split_text(s.take(i + 1)) == done.push(s.subrange(start, i + 1)),
{
    let now = s.take(i + 1);
    assert(now.drop_last() =~= s.take(i));
    assert(now.last() == s[i]);
    let before = done.push(s.subrange(start, i));
    assert(before.drop_last() =~= done);
    assert(before.last() == s.subrange(start, i));
    assert(s.subrange(start, i).push(s[i]) =~= s.subrange(start, i + 1));
    assert(s.subrange(i + 1, i + 1) =~= Seq::<char>::empty());
}

/// The lines of a text that holds nothing but the first 128 characters.
fn split_ascii(data: &str) -> (lines: Vec<String>)
    requires
        data.is_ascii(),
    ensures
        texts(lines@) == split_text(data@),
{
    let n = data.unicode_len();
    let mut lines: Vec<String> = Vec::new();
    let mut start: usize = 0;
    proof {
        assert(data@.take(0) =~= Seq::<char>::empty());
        assert(texts(lines@).push(data@.subrange(0, 0)) =~= seq![Seq::<char>::empty()]);
    }
    for i in 0..n
        invariant
            data.is_ascii(),
            n == data@.len(),
            0 <= start <= i,
            split_text(data@.take(i as int)) == texts(lines@).push(
                data@.subrange(start as int, i as int),
            ),
    {
        proof {
            lemma_split_next(data@, i as int, texts(lines@), start as int);
        }
        let ghost done = texts(lines@);
        if data.get_ascii(i) == 10 {
            let line = data.substring_ascii(start, i);
            lines.push(String::from_str(line));
            start = i + 1;
            assert(texts(lines@) =~= done.push(line@));
        }
    }
    lines.push(String::from_str(data.substring_ascii(start, n)));
    proof {
        assert(data@.take(n as int) =~= data@);
        assert(texts(lines@) =~= split_text(data@));
    }
    lines
}

/// The lines of any text.
fn split_chars(data: &str) -> (lines: Vec<String>)
    ensures
        texts(lines@) == split_text(data@),
{
    let n = data.unicode_len();
    let mut lines: Vec<String> = Vec::new();
    let mut start: usize = 0;
    proof {
        assert(data@.take(0) =~= Seq::<char>::empty());
        assert(texts(lines@).push(data@.subrange(0, 0)) =~= seq![Seq::<char>::empty()]);
    }
    for i in 0..n
        invariant
            n == data@.len(),
            0 <= start <= i,
            split_text(data@.take(i as int)) == texts(lines@).push(
                data@.subrange(start as int, i as int),
            ),
    {
        proof {
            lemma_split_next(data@, i as int, texts(lines@), start as int);
        }
        let ghost done = texts(lines@);
        if data.get_char(i) == NEWLINE {
            let line = data.substring_char(start, i);
            lines.push(String::from_str(line));
            start = i + 1;
            assert(texts(lines@) =~= done.push(line@));
        }
    }
    lines.push(String::from_str(data.substring_char(start, n)));
    proof {
        assert(data@.take(n as int) =~= data@);
        assert(texts(lines@) =~= split_text(data@));
    }
    lines
}

/// The lines of a text. A text that holds nothing but the first 128
/// characters, as every saved game does, is gone through once.
pub fn split_lines(data: &str) -> (lines: Vec<String>)
    ensures
        texts(lines@) == split_text(data@),
{
    if data.is_ascii() {
        split_ascii(data)
    } else {
        split_chars(data)
    }
}

/// How a command is written in a saved game.
pub open spec fn cmd_text(cmd: Cmd) -> Seq<char> {
    match cmd {
        Cmd::Start => "start"@,
        Cmd::Pass => "pass"@,
        Cmd::Step(p) => p@,
    }
}

/// The commands written one to a line.
pub open spec fn cmds_text(cmds: Seq<Cmd>) -> Seq<char>
    decreases cmds.len(),
{
    if cmds.len() == 0 {
        Seq::empty()
    } else {
        cmds_text(cmds.drop_last()) + cmd_text(cmds.last()) + "\n"@
    }
}

/// How the size of the board is written in a saved game.
pub open spec fn size_text(size: nat) -> Seq<char> {
    if size == 19 {
        "19"@
    } else if size == 13 {
        "13"@
    } else {
        "9"@
    }
}

/// The size of the board that a line of a saved game gives, if it gives one.
pub open spec fn line_size(line: Seq<char>) -> Option<BoardSize> {
    if line == "19"@ {
        Some(BoardSize::Normal)
    } else if line == "13"@ {
        Some(BoardSize::Medium)
    } else if line == "9"@ {
        Some(BoardSize::Small)
    } else {
        None
    }
}

/// The turn that a line of a saved game stands for; an empty line stands for none.
pub open spec fn line_cmd(line: String) -> Option<Cmd> {
    if line@ == "pass"@ {
        Some(Cmd::Pass)
    } else if line@.len() == 0 {
        None
    } else {
        Some(Cmd::Step(line))
    }
}

/// The game after the turn, if any, that the line stands for, or why it cannot be played.
#[verifier::opaque]
pub open spec fn play_line(g: GameView, line: String) -> Result<GameView, GoError> {
    match line_cmd(line) {
        None => Ok(g),
        Some(cmd) => g.next(cmd),
    }
}

/// The game after the turns that the lines stand for, or why the first of
/// them that cannot be played cannot.
pub open spec fn replay_lines(g: GameView, lines: Seq<String>) -> Result<GameView, GoError>
    decreases lines.len(),
{
    if lines.len() == 0 {
        Ok(g)
    } else {
        match replay_lines(g, lines.drop_last()) {
            Err(e) => Err(e),
            Ok(h) => play_line(h, lines.last()),
        }
    }
}

/// The game that the lines of a saved game give, or what is wrong with them:
/// the line at which the head is malformed, or why a turn cannot be played.
pub open spec fn spec_load(lines: Seq<String>) -> Result<GameView, GoError> {
    if lines.len() < 3 {
        Err(GoError::InvalidSaveFile { line: (lines.len() + 1) as usize })
    } else if lines[0]@ != SIGNATURE@ {
        Err(GoError::InvalidSaveFile { line: 1 })
    } else if line_size(lines[1]@) is None {
        Err(GoError::InvalidSaveFile { line: 2 })
    } else if lines[2]@ != "start"@ {
        Err(GoError::InvalidSaveFile { line: 3 })
    } else {
        replay_lines(GameView::start(line_size(lines[1]@)->Some_0.lines()), lines.skip(3))
    }
}

/// The text of the saved game: the head, then the commands from the
/// beginning to where the game stands.
pub open spec fn spec_dump(g: GameView) -> Seq<char> {
    SIGNATURE@ + "\n"@ + size_text(g.board.size) + "\n"@ + cmds_text(g.commands())
}

/// Whether the line is this text.
fn is_text(line: &String, text: &str) -> (r: bool)
    ensures
        r == (line@ == text@),
{
    let other = String::from_str(text);
    *line == other
}

impl Cmd {
    /// How the command is written in a saved game.
    pub fn text(&self) -> (s: String)
        ensures
            s@ == cmd_text(*self),
    {
        match self {
            Cmd::Start => String::from_str("start"),
            Cmd::Pass => String::from_str("pass"),
            Cmd::Step(p) => p.clone(),
        }
    }
}

/// The size of the board that a line of a saved game gives, if it gives one.
fn size_of_line(line: &String) -> (r: Option<BoardSize>)
    ensures
        r == line_size(line@),
{
    if is_text(line, "19") {
        Some(BoardSize::Normal)
    } else if is_text(line, "13") {
        Some(BoardSize::Medium)
    } else if is_text(line, "9") {
        Some(BoardSize::Small)
    } else {
        None
    }
}

impl Game {
    /// Plays a saved game again from its lines.
    pub fn load(lines: Vec<String>) -> (r: Result<Game, GoError>)
        ensures
            spec_load(lines@) is Ok ==> r is Ok && r->Ok_0.wf() && r->Ok_0@ == spec_load(
                lines@,
            )->Ok_0,
            spec_load(lines@) is Err ==> r is Err && r->Err_0 == spec_load(lines@)->Err_0,
    {
        if lines.len() < 3 {
            return Err(GoError::InvalidSaveFile { line: lines.len() + 1 });
        }
        if !is_text(&lines[0], SIGNATURE) {
            return Err(GoError::InvalidSaveFile { line: 1 });
        }
        let size = match size_of_line(&lines[1]) {
            Some(size) => size,
            None => {
                return Err(GoError::InvalidSaveFile { line: 2 });
            },
        };
        if !is_text(&lines[2], "start") {
            return Err(GoError::InvalidSaveFile { line: 3 });
        }
        let mut g = Game::new(size);
        let ghost first = g@;
        let ghost body = lines@.skip(3);
        proof {
            lemma_start_wf(size.lines());
            assert(body.take(0) =~= Seq::<String>::empty());
        }
        for i in 3..lines.len()
            invariant
                g.wf(),
                body == lines@.skip(3),
                spec_load(lines@) == replay_lines(first, body),
                replay_lines(first, body.take(i - 3)) == Ok::<GameView, GoError>(g@),
        {
            let line = lines[i].clone();
            let ghost before = g@;
            proof {
                assert(body.take(i + 1 - 3).drop_last() =~= body.take(i - 3));
                assert(body.take(i + 1 - 3).last() == line);
            }
            match g.play_line(line) {
                Ok(()) => {},
                Err(e) => {
                    proof {
                        lemma_replay_fails(first, body, i + 1 - 3);
                    }
                    return Err(e);
                },
            }
        }
        proof {
            assert(body.take(lines@.len() - 3) =~= body);
        }
        Ok(g)
    }

    /// Plays the turn, if any, that a line of a saved game stands for.
    fn play_line(&mut self, line: String) -> (r: Result<(), GoError>)
        requires
            old(self).wf(),
        ensures
            final(self).wf(),
            play_line(old(self)@, line) is Ok ==> r is Ok && final(self)@ == play_line(
                old(self)@,
                line,
            )->Ok_0,
            play_line(old(self)@, line) is Err ==> r == Err::<(), GoError>(
                play_line(old(self)@, line)->Err_0,
            ),
    {
        reveal(play_line);
        if is_text(&line, "pass") {
            self.next(Cmd::Pass)
        } else if line.as_str().unicode_len() == 0 {
            Ok(())
        } else {
            self.next(Cmd::Step(line))
        }
    }

    /// The text of the saved game.
    pub fn dump(&self) -> (data: String)
        requires
            self.wf(),
        ensures
            data@ == spec_dump(self@),
    {
        let mut data = String::from_str(SIGNATURE);
        data.append("\n");
        match self.board().size() {
            BoardSize::Normal => data.append("19"),
            BoardSize::Medium => data.append("13"),
            BoardSize::Small => data.append("9"),
        }
        data.append("\n");
        let ghost head = data@;
        let list = self.list_ancestors_commands();
        proof {
            assert(list@.take(0) =~= Seq::<Cmd>::empty());
        }
        for i in 0..list.len()
            invariant
                list@ == self@.commands(),
                head == SIGNATURE@ + "\n"@ + size_text(self@.board.size) + "\n"@,
                data@ == head + cmds_text(list@.take(i as int)),
        {
            proof {
                assert(list@.take(i + 1).drop_last() =~= list@.take(i as int));
                assert(list@.take(i + 1).last() == list@[i as int]);
            }
            data.append(list[i].text().as_str());
            data.append("\n");
            assert(data@ =~= head + cmds_text(list@.take(i + 1)));
        }
        proof {
            assert(list@.take(list@.len() as int) =~= list@);
        }
        data
    }
}

/// Once a turn cannot be played, the lines after it are not looked at.
proof fn lemma_replay_fails(g: GameView, lines: Seq<String>, n: int)
    requires
        0 <= n <= lines.len(),
        replay_lines(g, lines.take(n)) is Err,
    ensures
        replay_lines(g, lines) == replay_lines(g, lines.take(n)),
    decreases lines.len() - n,
{
    if n < lines.len() {
        assert(lines.take(n + 1).drop_last() =~= lines.take(n));
        lemma_replay_fails(g, lines, n + 1);
    } else {
        assert(lines.take(n) =~= lines);
    }
}

} // verus!
