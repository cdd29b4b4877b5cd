//! A game: the board, whose turn it is, and every line of play tried so far.

use vstd::prelude::*;
use vstd::string::StrSliceExecFns;
use crate::basic::board::{Board, BoardSize, BoardView, Stone};
use crate::basic::error::GoError;
use crate::basic::rule::{
    check_if_empty, check_if_never_repeat_with_new_stone, is_suicide, lemma_play_wf, play,
};
use crate::basic::zip::{lemma_unzip_zip, spec_unzip, spec_zip, unzip_board, zip_board, BoardZip};
use crate::util::linked_tree::{
    is_ancestor, lemma_add_child_wf, lemma_lineage_contains, lemma_new_tree_wf, lineage, node_wf,
    spec_add_child, spec_new_tree, tree_wf, LinkedTree, LinkedTreeOperation, NodeView,
};

verus! {

/// The two players.
#[derive(Clone, Copy, Debug, PartialEq, Eq, Structural)]
pub enum Player {
    Black,
    White,
}

impl Player {
    /// The other player.
    pub open spec fn other(self) -> Player {
        match self {
            Player::Black => Player::White,
            Player::White => Player::Black,
        }
    }

    /// The colour that the player puts on the board.
    pub open spec fn stone(self) -> Stone {
        match self {
            Player::Black => Stone::Black,
            Player::White => Stone::White,
        }
    }
}

/// What is recorded of a turn.
#[derive(Debug)]
pub enum Cmd {
    /// The beginning of a game; it is recorded at the root and cannot be played.
    Start,
    /// The player puts no stone.
    Pass,
    /// The player puts a stone on the point that two letters name: the
    /// column, then the row, `a` for the first.
    Step(String),
}

impl Clone for Cmd {
    fn clone(&self) -> (r: Cmd)
        ensures
            r == *self,
    {
        match self {
            Cmd::Start => Cmd::Start,
            Cmd::Pass => Cmd::Pass,
            Cmd::Step(p) => Cmd::Step(p.clone()),
        }
    }
}

/// The letter that names the first column and the first row.
pub const FIRST_LETTER: char = 'a';

/// The point that the text of a move names, if it is two letters from `a` on.
pub open spec fn spec_cmd_to_point(s: Seq<char>) -> Option<(int, int)> {
    if s.len() == 2 && s[0] >= FIRST_LETTER && s[1] >= FIRST_LETTER {
        Some((s[0] as int - FIRST_LETTER as int + 1, s[1] as int - FIRST_LETTER as int + 1))
    } else {
        None
    }
}

impl Cmd {
    /// The point, as column and row from 1, that the text of a move names:
    /// two characters, each giving its place in the alphabet from `a` on.
    pub fn cmd_to_point(cmd: String) -> (r: Result<(usize, usize), GoError>)
        ensures
            spec_cmd_to_point(cmd@) is None ==> r == Err::<(usize, usize), GoError>(
                GoError::InvalidCommand,
            ),
            spec_cmd_to_point(cmd@) is Some ==> r is Ok && r->Ok_0.0 == spec_cmd_to_point(
                cmd@,
            )->Some_0.0 && r->Ok_0.1 == spec_cmd_to_point(cmd@)->Some_0.1,
    {
        let text = cmd.as_str();
        if text.unicode_len() != 2 {
            return Err(GoError::InvalidCommand);
        }
        let c0 = text.get_char(0);
        let c1 = text.get_char(1);
        if c0 < FIRST_LETTER || c1 < FIRST_LETTER {
            return Err(GoError::InvalidCommand);
        }
        let x = c0 as usize - FIRST_LETTER as usize + 1;
        let y = c1 as usize - FIRST_LETTER as usize + 1;
        Ok((x, y))
    }
}

/// A game as a mathematical value: the board, who plays next, the tree of
/// the commands and the tree of the board codes, and the node of each at
/// which the game stands.
pub struct GameView {
    pub board: BoardView,
    pub player: Player,
    pub cmds: Seq<NodeView<Cmd>>,
    pub zips: Seq<NodeView<BoardZip>>,
    pub cur: int,
    pub zip_cur: int,
}

/// Whether `zip` is the code of a board of `size` lines.
pub open spec fn is_code(zip: BoardZip, size: nat) -> bool {
    &&& spec_unzip(zip).wf()
    &&& spec_unzip(zip).size == size
    &&& spec_zip(spec_unzip(zip)) == zip
}

impl GameView {
    /// The two trees have the same shape and the game stands at the same node
    /// of both; each code is that of a board of this size, and the code at
    /// the current node is that of the board.
    pub open spec fn wf(self) -> bool {
        &&& self.board.wf()
        &&& tree_wf(self.cmds)
        &&& tree_wf(self.zips)
        &&& self.cmds.len() == self.zips.len()
        &&& forall|i: int|
            0 <= i < self.cmds.len() ==> (#[trigger] self.cmds[i]).parent == self.zips[i].parent
                && self.cmds[i].children == self.zips[i].children
        &&& 0 <= self.cur < self.cmds.len()
        &&& self.zip_cur == self.cur
        &&& forall|i: int|
            0 <= i < self.zips.len() ==> is_code((#[trigger] self.zips[i]).val, self.board.size)
        &&& spec_unzip(self.zips[self.cur].val) == self.board
    }

    /// A game on an empty board of `size` lines, Black to play.
    pub open spec fn start(size: nat) -> GameView {
        GameView {
            board: BoardView::empty(size),
            player: Player::Black,
            cmds: spec_new_tree(Cmd::Start),
            zips: spec_new_tree(spec_zip(BoardView::empty(size))),
            cur: 0,
            zip_cur: 0,
        }
    }

    /// How many turns lead from the beginning to where the game stands.
    pub open spec fn step_count(self) -> nat {
        self.cmds[self.cur].deepth
    }

    /// The boards, as codes, from the beginning to where the game stands.
    pub open spec fn positions(self) -> Seq<BoardZip> {
        lineage(self.zips, self.zip_cur)
    }

    /// The commands from the beginning to where the game stands.
    pub open spec fn commands(self) -> Seq<Cmd> {
        lineage(self.cmds, self.cur)
    }

    /// The turns recorded after the current one, in the order in which they were first played.
    pub open spec fn redo_list(self) -> Seq<Cmd> {
        Seq::new(
            self.cmds[self.cur].children.len(),
            |i: int| self.cmds[self.cmds[self.cur].children[i]].val,
        )
    }

    /// The game after a turn that left `board`: the turn is recorded as a new
    /// last child of the current node, the game stands there, and the other
    /// player is next.
    pub open spec fn record(self, cmd: Cmd, board: BoardView) -> GameView {
        GameView {
            board,
            player: self.player.other(),
            cmds: spec_add_child(self.cmds, self.cur, cmd),
            zips: spec_add_child(self.zips, self.zip_cur, spec_zip(board)),
            cur: self.cmds.len() as int,
            zip_cur: self.zips.len() as int,
        }
    }

    /// The board after the player to move has put a stone on the point that
    /// `text` names, or why the stone cannot be put: the text names no point;
    /// the point is not on the board; it is not empty; the stone would stand
    /// without a liberty and capture nothing; the board would be one that the
    /// game has passed through on the way to where it stands.
    pub open spec fn step(self, text: Seq<char>) -> Result<BoardView, GoError> {
        match spec_cmd_to_point(text) {
            None => Err(GoError::InvalidCommand),
            Some((x, y)) => {
                let stone = self.player.stone();
                if !self.board.on_board(x, y) {
                    Err(GoError::OutOfBounds { x: x as usize, y: y as usize })
                } else if self.board.at(x, y) != Stone::Empty {
                    Err(GoError::NotEmpty { x: x as usize, y: y as usize })
                } else if is_suicide(self.board.put(x, y, stone), x, y) {
                    Err(GoError::Suicide { x: x as usize, y: y as usize })
                } else if self.positions().contains(spec_zip(play(self.board, stone, x, y))) {
                    Err(GoError::KoViolation { x: x as usize, y: y as usize })
                } else {
                    Ok(play(self.board, stone, x, y))
                }
            },
        }
    }

    /// The game after the turn `cmd`, or why the turn cannot be played.
    pub open spec fn next(self, cmd: Cmd) -> Result<GameView, GoError> {
        match cmd {
            Cmd::Start => Err(GoError::InvalidCommand),
            Cmd::Pass => Ok(self.record(cmd, self.board)),
            Cmd::Step(text) => match self.step(text@) {
                Ok(board) => Ok(self.record(cmd, board)),
                Err(e) => Err(e),
            },
        }
    }

    /// The game standing at the node `n`, reached by one turn forward or back.
    pub open spec fn moved_to(self, n: int) -> GameView {
        GameView {
            board: spec_unzip(self.zips[n].val),
            player: self.player.other(),
            cur: n,
            zip_cur: n,
            ..self
        }
    }

    /// The game with the last turn taken back, if there is one.
    pub open spec fn undo(self) -> Result<GameView, GoError> {
        match self.cmds[self.cur].parent {
            None => Err(GoError::NoUndo),
            Some(p) => Ok(self.moved_to(p)),
        }
    }

    /// The game with the recorded turn number `index` played again, if there is one.
    pub open spec fn redo(self, index: int) -> Result<GameView, GoError> {
        if 0 <= index < self.cmds[self.cur].children.len() {
            Ok(self.moved_to(self.cmds[self.cur].children[index]))
        } else {
            Err(GoError::NoRedo { index: index as usize })
        }
    }
}

/// A game of Go with every line of play that was tried: a turn taken back
/// stays recorded and can be played again.
pub struct Game {
    current_board: Board,
    current_player: Player,
    cmd_history: LinkedTree<Cmd>,
    zip_history: LinkedTree<BoardZip>,
    current_cmd: usize,
    current_zip_board: usize,
}

impl View for Game {
    type V = GameView;

    closed spec fn view(&self) -> GameView {
        GameView {
            board: self.current_board@,
            player: self.current_player,
            cmds: self.cmd_history@,
            zips: self.zip_history@,
            cur: self.current_cmd as int,
            zip_cur: self.current_zip_board as int,
        }
    }
}

impl Game {
    /// What always holds of a game.
    pub open spec fn wf(&self) -> bool {
        self@.wf()
    }

    /// A new game on an empty board, Black to play.
    pub fn new(size: BoardSize) -> (r: Game)
        ensures
            r.wf(),
            r@ == GameView::start(size.lines()),
    {
        let cmd_history = LinkedTree::new_tree(Cmd::Start);
        let b = Board::new(size.clone());
        let zb = zip_board(&b);
        let zb_history = LinkedTree::new_tree(zb);
        proof {
            lemma_start_wf(size.lines());
        }
        Game {
            current_board: b,
            current_player: Player::Black,
            current_cmd: cmd_history.root(),
            current_zip_board: zb_history.root(),
            cmd_history,
            zip_history: zb_history,
        }
    }

    /// The board as it stands.
    pub fn board(&self) -> (r: &Board)
        requires
            self.wf(),
        ensures
            r.wf(),
            r@ == self@.board,
    {
        &self.current_board
    }

    /// Plays the turn `cmd` and records it; a turn that cannot be played changes nothing.
    pub fn next(&mut self, cmd: Cmd) -> (r: Result<(), GoError>)
        requires
            old(self).wf(),
        ensures
            final(self).wf(),
            old(self)@.next(cmd) is Ok ==> r is Ok && final(self)@ == old(self)@.next(cmd)->Ok_0,
            old(self)@.next(cmd) is Err ==> r == Err::<(), GoError>(old(self)@.next(cmd)->Err_0)
                && *final(self) == *old(self),
    {
        match cmd.clone() {
            Cmd::Pass => self.change_player()?,
            Cmd::Step(p) => self.step(p)?,
            _ => {
                return Err(GoError::InvalidCommand);
            },
        };
        proof {
            lemma_next_wf(old(self)@, cmd);
        }
        self.add_cmd_history(cmd);
        self.add_board_history();
        Ok(())
    }

    /// Takes the last turn back: the game stands where it stood before it.
    pub fn undo(&mut self) -> (r: Result<(), GoError>)
        requires
            old(self).wf(),
        ensures
            final(self).wf(),
            old(self)@.undo() is Ok ==> r is Ok && final(self)@ == old(self)@.undo()->Ok_0,
            old(self)@.undo() is Err ==> r == Err::<(), GoError>(GoError::NoUndo) && *final(self)
                == *old(self),
    {
        if self.cmd_history.parent(self.current_cmd).is_none() {
            return Err(GoError::NoUndo);
        }
        proof {
            assert(node_wf(self@.cmds, self@.cur));
            assert(node_wf(self@.zips, self@.cur));
            lemma_moved_wf(self@, self@.cmds[self@.cur].parent->Some_0);
        }
        self.current_cmd = self.cmd_history.parent(self.current_cmd).unwrap();
        self.current_zip_board = self.zip_history.parent(self.current_zip_board).unwrap();
        self.current_board = unzip_board(self.zip_history.val(self.current_zip_board));
        self.change_player()
    }

    /// Plays again the turn that was recorded as number `index` (from 0) after the current one.
    pub fn redo(&mut self, index: usize) -> (r: Result<(), GoError>)
        requires
            old(self).wf(),
        ensures
            final(self).wf(),
            old(self)@.redo(index as int) is Ok ==> r is Ok && final(self)@ == old(self)@.redo(
                index as int,
            )->Ok_0,
            old(self)@.redo(index as int) is Err ==> r == Err::<(), GoError>(
                GoError::NoRedo { index },
            ) && *final(self) == *old(self),
    {
        if index >= self.cmd_history.child_len(self.current_cmd) {
            return Err(GoError::NoRedo { index });
        }
        proof {
            assert(node_wf(self@.cmds, self@.cur));
            assert(node_wf(self@.zips, self@.cur));
            lemma_moved_wf(self@, self@.cmds[self@.cur].children[index as int]);
        }
        self.current_cmd = self.cmd_history.child(self.current_cmd, index).unwrap();
        self.current_zip_board = self.zip_history.child(self.current_zip_board, index).unwrap();
        self.current_board = unzip_board(self.zip_history.val(self.current_zip_board));
        self.change_player()
    }

    /// The turns recorded after the current one, in the order in which they were first played.
    pub fn redo_list(&self) -> (ret: Vec<Cmd>)
        requires
            self.wf(),
        ensures
            ret@ == self@.redo_list(),
    {
        let mut ret: Vec<Cmd> = vec![];
        let n = self.cmd_history.child_len(self.current_cmd);
        for i in 0..n
            invariant
                self.wf(),
                n == self@.cmds[self@.cur].children.len(),
                ret@ == self@.redo_list().take(i as int),
        {
            proof {
                assert(node_wf(self@.cmds, self@.cur));
            }
            let cmd = self.cmd_history.child(self.current_cmd, i).unwrap();
            ret.push(self.cmd_history.val(cmd).clone());
            assert(ret@ =~= self@.redo_list().take(i + 1));
        }
        assert(self@.redo_list().take(n as int) =~= self@.redo_list());
        ret
    }

    /// The commands from the beginning to where the game stands, `Start` first.
    pub fn list_ancestors_commands(&self) -> (r: Vec<Cmd>)
        requires
            self.wf(),
        ensures
            r@ == self@.commands(),
    {
        let list = self.cmd_history.list_parents(self.current_cmd);
        let mut r: Vec<Cmd> = Vec::new();
        for i in 0..list.len()
            invariant
                list@.len() == self@.commands().len(),
                forall|j: int| 0 <= j < list@.len() ==> *(#[trigger] list@[j]) == self@.commands()[j],
                r@ == self@.commands().take(i as int),
        {
            r.push(list[i].clone());
            assert(r@ =~= self@.commands().take(i + 1));
        }
        assert(self@.commands().take(list@.len() as int) =~= self@.commands());
        r
    }

    /// How many turns lead from the beginning to where the game stands.
    pub fn step_count(&self) -> (r: usize)
        requires
            self.wf(),
        ensures
            r == self@.step_count(),
    {
        self.cmd_history.deepth(self.current_cmd)
    }

    /// Who plays next.
    pub fn next_player(&self) -> (r: Player)
        ensures
            r == self@.player,
    {
        self.current_player.clone()
    }

    /// Records the command as a new last child of the current node and moves there.
    fn add_cmd_history(&mut self, cmd: Cmd)
        requires
            tree_wf(old(self)@.cmds),
            0 <= old(self)@.cur < old(self)@.cmds.len(),
        ensures
            final(self)@ == (GameView {
                cmds: spec_add_child(old(self)@.cmds, old(self)@.cur, cmd),
                cur: old(self)@.cmds.len() as int,
                ..old(self)@
            }),
    {
        let node = self.cmd_history.add_child(self.current_cmd, cmd);
        self.current_cmd = node;
    }

    /// Records the code of the board as a new last child of the current node and moves there.
    fn add_board_history(&mut self)
        requires
            old(self)@.board.wf(),
            tree_wf(old(self)@.zips),
            0 <= old(self)@.zip_cur < old(self)@.zips.len(),
        ensures
            final(self)@ == (GameView {
                zips: spec_add_child(
                    old(self)@.zips,
                    old(self)@.zip_cur,
                    spec_zip(old(self)@.board),
                ),
                zip_cur: old(self)@.zips.len() as int,
                ..old(self)@
            }),
    {
        let zb = zip_board(&self.current_board);
        let node = self.zip_history.add_child(self.current_zip_board, zb);
        self.current_zip_board = node;
    }

    /// Gives the turn to the other player.
    fn change_player(&mut self) -> (r: Result<(), GoError>)
        ensures
            r is Ok,
            final(self)@ == (GameView { player: old(self)@.player.other(), ..old(self)@ }),
    {
        match self.current_player {
            Player::Black => self.current_player = Player::White,
            Player::White => self.current_player = Player::Black,
        };
        Ok(())
    }

    /// The boards, as codes, from the beginning to where the game stands.
    fn positions(&self) -> (r: Vec<BoardZip>)
        requires
            self.wf(),
        ensures
            r@ == self@.positions(),
    {
        let list = self.zip_history.list_parents(self.current_zip_board);
        let mut r: Vec<BoardZip> = Vec::new();
        for i in 0..list.len()
            invariant
                list@.len() == self@.positions().len(),
                forall|j: int| 0 <= j < list@.len() ==> *(#[trigger] list@[j]) == self@.positions()[j],
                r@ == self@.positions().take(i as int),
        {
            r.push(*list[i]);
            assert(r@ =~= self@.positions().take(i + 1));
        }
        assert(self@.positions().take(list@.len() as int) =~= self@.positions());
        r
    }

    /// Puts a stone of the player to move on the point that `cmd` names, if the
    /// rules allow it, and gives the turn to the other player.
    fn step(&mut self, cmd: String) -> (r: Result<(), GoError>)
        requires
            old(self).wf(),
        ensures
            old(self)@.step(cmd@) is Ok ==> r is Ok && final(self)@ == (GameView {
                board: old(self)@.step(cmd@)->Ok_0,
                player: old(self)@.player.other(),
                ..old(self)@
            }),
            old(self)@.step(cmd@) is Err ==> r == Err::<(), GoError>(old(self)@.step(cmd@)->Err_0)
                && *final(self) == *old(self),
    {
        let (x, y) = Cmd::cmd_to_point(cmd)?;
        let stone = match self.current_player {
            Player::Black => Stone::Black,
            Player::White => Stone::White,
        };
        check_if_empty(&self.current_board, x, y)?;
        self.current_board = check_if_never_repeat_with_new_stone(
            &self.current_board,
            stone,
            x,
            y,
            self.positions(),
        )?;
        self.change_player()
    }
}

/// A new game is as a game must be.
pub proof fn lemma_start_wf(size: nat)
    requires
        size == 9 || size == 13 || size == 19,
    ensures
        GameView::start(size).wf(),
{
    let g = GameView::start(size);
    lemma_new_tree_wf(Cmd::Start);
    lemma_new_tree_wf(spec_zip(BoardView::empty(size)));
    lemma_unzip_zip(BoardView::empty(size));
}

/// A turn that can be played leaves a game as a game must be.
pub proof fn lemma_next_wf(g: GameView, cmd: Cmd)
    requires
        g.wf(),
        g.next(cmd) is Ok,
    ensures
        g.next(cmd)->Ok_0.wf(),
{
    let g2 = g.next(cmd)->Ok_0;
    let board = g2.board;
    match cmd {
        Cmd::Step(text) => {
            let (x, y) = spec_cmd_to_point(text@)->Some_0;
            lemma_play_wf(g.board, g.player.stone(), x, y);
        },
        _ => {},
    }
    lemma_add_child_wf(g.cmds, g.cur, cmd);
    lemma_add_child_wf(g.zips, g.zip_cur, spec_zip(board));
    lemma_unzip_zip(board);
    assert forall|i: int| 0 <= i < g2.cmds.len() implies (#[trigger] g2.cmds[i]).parent
        == g2.zips[i].parent && g2.cmds[i].children == g2.zips[i].children by {
        if i < g.cmds.len() {
            assert(g.cmds[i].parent == g.zips[i].parent);
        }
    }
    assert forall|i: int| 0 <= i < g2.zips.len() implies is_code(
        (#[trigger] g2.zips[i]).val,
        g2.board.size,
    ) by {
        if i < g.zips.len() {
            assert(is_code(g.zips[i].val, g.board.size));
        }
    }
}

/// A game that is moved to one of its nodes is as a game must be.
pub proof fn lemma_moved_wf(g: GameView, n: int)
    requires
        g.wf(),
        0 <= n < g.cmds.len(),
    ensures
        g.moved_to(n).wf(),
{
    assert(is_code(g.zips[n].val, g.board.size));
}

/// Every turn that is played adds one to the count of turns.
pub proof fn lemma_next_counts(g: GameView, cmd: Cmd)
    requires
        g.wf(),
        g.next(cmd) is Ok,
    ensures
        g.next(cmd)->Ok_0.step_count() == g.step_count() + 1,
        g.next(cmd)->Ok_0.player == g.player.other(),
{
}

/// A new game has no turn behind it and none recorded after it.
pub proof fn lemma_start_counts(size: nat)
    ensures
        GameView::start(size).step_count() == 0,
        GameView::start(size).redo_list() == Seq::<Cmd>::empty(),
        GameView::start(size).undo() == Err::<GameView, GoError>(GoError::NoUndo),
{
    assert(GameView::start(size).redo_list() =~= Seq::<Cmd>::empty());
}

impl GameView {
    /// The game after the turns `cmds`, one after the other, or why the first
    /// of them that cannot be played cannot.
    pub open spec fn replay(self, cmds: Seq<Cmd>) -> Result<GameView, GoError>
        decreases cmds.len(),
    {
        if cmds.len() == 0 {
            Ok(self)
        } else {
            match self.replay(cmds.drop_last()) {
                Ok(g) => g.next(cmds.last()),
                Err(e) => Err(e),
            }
        }
    }
}

/// After any number of turns the count of turns has grown by that number.
pub proof fn lemma_replay_counts(g: GameView, cmds: Seq<Cmd>)
    requires
        g.wf(),
        g.replay(cmds) is Ok,
    ensures
        g.replay(cmds)->Ok_0.wf(),
        g.replay(cmds)->Ok_0.step_count() == g.step_count() + cmds.len(),
    decreases cmds.len(),
{
    if cmds.len() > 0 {
        lemma_replay_counts(g, cmds.drop_last());
        let before = g.replay(cmds.drop_last())->Ok_0;
        lemma_next_wf(before, cmds.last());
        lemma_next_counts(before, cmds.last());
    }
}

/// Taking a turn back takes one from the count of turns and gives the turn to the other player.
pub proof fn lemma_undo_counts(g: GameView)
    requires
        g.wf(),
        g.undo() is Ok,
    ensures
        g.undo()->Ok_0.wf(),
        g.undo()->Ok_0.step_count() == g.step_count() - 1,
        g.undo()->Ok_0.player == g.player.other(),
{
    assert(node_wf(g.cmds, g.cur));
    lemma_moved_wf(g, g.cmds[g.cur].parent->Some_0);
}

/// A turn that was played can be taken back, and then board, player and
/// count of turns are what they were before the turn.
pub proof fn lemma_undo_next(g: GameView, cmd: Cmd)
    requires
        g.wf(),
        g.next(cmd) is Ok,
    ensures
        g.next(cmd)->Ok_0.undo() is Ok,
        g.next(cmd)->Ok_0.undo()->Ok_0.board == g.board,
        g.next(cmd)->Ok_0.undo()->Ok_0.player == g.player,
        g.next(cmd)->Ok_0.undo()->Ok_0.cur == g.cur,
        g.next(cmd)->Ok_0.undo()->Ok_0.step_count() == g.step_count(),
        g.next(cmd)->Ok_0.undo()->Ok_0.cmds == g.next(cmd)->Ok_0.cmds,
        g.next(cmd)->Ok_0.undo()->Ok_0.zips == g.next(cmd)->Ok_0.zips,
{
}

/// A turn that was taken back can be played again, and the game is then
/// exactly what it was: the turn is found among those recorded after the
/// position before it, and it is number 0 if it is the only one.
pub proof fn lemma_redo_undo(g: GameView) -> (index: int)
    requires
        g.wf(),
        g.undo() is Ok,
    ensures
        0 <= index < g.undo()->Ok_0.redo_list().len(),
        g.undo()->Ok_0.redo(index) == Ok::<GameView, GoError>(g),
        g.undo()->Ok_0.redo_list().len() == 1 ==> index == 0,
{
    let p = g.cmds[g.cur].parent->Some_0;
    assert(node_wf(g.cmds, g.cur));
    assert(node_wf(g.cmds, p));
    assert(g.cmds[p].children.contains(g.cur));
    let index = choose|k: int| 0 <= k < g.cmds[p].children.len() && g.cmds[p].children[k] == g.cur;
    let back = g.undo()->Ok_0;
    assert(back.redo(index)->Ok_0 == g);
    index
}

/// After a turn was played and taken back, it is the last of the turns
/// recorded there; playing it again gives exactly the game as it was after
/// the turn, where no turn is recorded yet.
pub proof fn lemma_redo_undo_next(g: GameView, cmd: Cmd)
    requires
        g.wf(),
        g.next(cmd) is Ok,
    ensures
        g.next(cmd)->Ok_0.undo() is Ok,
        g.next(cmd)->Ok_0.undo()->Ok_0.redo_list() == g.redo_list().push(cmd),
        g.next(cmd)->Ok_0.undo()->Ok_0.redo(g.redo_list().len() as int) == g.next(cmd),
        g.next(cmd)->Ok_0.redo_list() == Seq::<Cmd>::empty(),
{
    let g1 = g.next(cmd)->Ok_0;
    let g2 = g1.undo()->Ok_0;
    lemma_next_wf(g, cmd);
    assert(node_wf(g.cmds, g.cur));
    assert(g1.redo_list() =~= Seq::<Cmd>::empty());
    assert(g2.redo_list() =~= g.redo_list().push(cmd)) by {
        assert(g2.cmds[g2.cur].children == g.cmds[g.cur].children.push(g.cmds.len() as int));
        assert forall|i: int| 0 <= i < g2.redo_list().len() implies g2.redo_list()[i]
            == g.redo_list().push(cmd)[i] by {
            if i < g.redo_list().len() {
                assert(g2.cmds[g2.cur].children[i] == g.cmds[g.cur].children[i]);
            }
        }
    }
    let k = g.redo_list().len() as int;
    assert(g2.cmds[g2.cur].children[k] == g.cmds.len());
    assert(g2.redo(k)->Ok_0 == g1);
}

/// After a turn was taken back and another played and taken back, both are
/// recorded at the position they started from, the first before the second,
/// and each can be played again by its number.
pub proof fn lemma_branches(g: GameView, first: Cmd, second: Cmd)
    requires
        g.wf(),
        g.next(first) is Ok,
        g.next(first)->Ok_0.undo()->Ok_0.next(second) is Ok,
    ensures
        g.next(first)->Ok_0.undo() is Ok,
        g.next(first)->Ok_0.undo()->Ok_0.next(second)->Ok_0.undo() is Ok,
        ({
            let after_first = g.next(first)->Ok_0;
            let after_second = after_first.undo()->Ok_0.next(second)->Ok_0;
            let back = after_second.undo()->Ok_0;
            let k = g.redo_list().len() as int;
            &&& back.wf()
            &&& back.board == g.board
            &&& back.player == g.player
            &&& back.step_count() == g.step_count()
            &&& back.redo_list() == g.redo_list().push(first).push(second)
            &&& back.redo(k) is Ok
            &&& back.redo(k)->Ok_0.board == after_first.board
            &&& back.redo(k)->Ok_0.player == after_first.player
            &&& back.redo(k + 1) == Ok::<GameView, GoError>(after_second)
        }),
{
    let g1 = g.next(first)->Ok_0;
    lemma_next_wf(g, first);
    lemma_redo_undo_next(g, first);
    lemma_undo_next(g, first);
    let g2 = g1.undo()->Ok_0;
    lemma_undo_counts(g1);
    let g3 = g2.next(second)->Ok_0;
    lemma_next_wf(g2, second);
    lemma_redo_undo_next(g2, second);
    lemma_undo_next(g2, second);
    let g4 = g3.undo()->Ok_0;
    lemma_undo_counts(g3);
    let k = g.redo_list().len() as int;
    assert(g2.redo_list().len() == k + 1);
    assert(node_wf(g2.cmds, g2.cur));
    assert(g4.cmds[g4.cur].children[k] == g2.cmds[g2.cur].children[k]);
    assert(g2.cmds[g2.cur].children[k] == g.cmds.len());
    assert(g4.zips[g.cmds.len() as int].val == g1.zips[g.cmds.len() as int].val);
    assert(node_wf(g1.zips, g1.cur));
}

/// A stone cannot be put on a point that holds one: the turn is refused.
pub proof fn lemma_occupied_point_refused(g: GameView, cmd: Cmd)
    requires
        g.wf(),
        cmd is Step,
        spec_cmd_to_point(cmd->Step_0@) is Some,
        g.board.on_board(
            spec_cmd_to_point(cmd->Step_0@)->Some_0.0,
            spec_cmd_to_point(cmd->Step_0@)->Some_0.1,
        ),
        g.board.at(
            spec_cmd_to_point(cmd->Step_0@)->Some_0.0,
            spec_cmd_to_point(cmd->Step_0@)->Some_0.1,
        ) != Stone::Empty,
    ensures
        g.next(cmd) == Err::<GameView, GoError>(
            GoError::NotEmpty {
                x: spec_cmd_to_point(cmd->Step_0@)->Some_0.0 as usize,
                y: spec_cmd_to_point(cmd->Step_0@)->Some_0.1 as usize,
            },
        ),
{
}

/// A stone cannot be put where it would bring back the board of any earlier
/// position on the way to where the game stands, however long ago.
pub proof fn lemma_repeated_position_refused(g: GameView, cmd: Cmd, earlier: int)
    requires
        g.wf(),
        cmd is Step,
        spec_cmd_to_point(cmd->Step_0@) is Some,
        0 <= earlier < g.zips.len(),
        is_ancestor(g.zips, earlier, g.cur),
        ({
            let (x, y) = spec_cmd_to_point(cmd->Step_0@)->Some_0;
            &&& g.board.on_board(x, y)
            &&& g.board.at(x, y) == Stone::Empty
            &&& !is_suicide(g.board.put(x, y, g.player.stone()), x, y)
            &&& play(g.board, g.player.stone(), x, y) == spec_unzip(g.zips[earlier].val)
        }),
    ensures
        g.next(cmd) == Err::<GameView, GoError>(
            GoError::KoViolation {
                x: spec_cmd_to_point(cmd->Step_0@)->Some_0.0 as usize,
                y: spec_cmd_to_point(cmd->Step_0@)->Some_0.1 as usize,
            },
        ),
{
    lemma_lineage_contains(g.zips, earlier, g.cur);
    assert(is_code(g.zips[earlier].val, g.board.size));
}

} // verus!
