//! The grid of stones.

use vstd::prelude::*;
use crate::basic::error::GoError;

verus! {

/// What a point of the board holds.
#[derive(Clone, Copy, Debug, PartialEq, Eq, Hash, Structural)]
pub enum Stone {
    Empty,
    Black,
    White,
}

impl Stone {
    /// The other colour; `Empty` has none and stays `Empty`.
    pub open spec fn opposite(self) -> Stone {
        match self {
            Stone::Empty => Stone::Empty,
            Stone::Black => Stone::White,
            Stone::White => Stone::Black,
        }
    }

    /// Whether the two are stones of different colours.
    pub open spec fn opposes(self, other: Stone) -> bool {
        self != Stone::Empty && other != Stone::Empty && self != other
    }

    /// Whether the two are stones of different colours.
    pub fn is_opposite(self, other: Stone) -> (r: bool)
        ensures
            r == self.opposes(other),
    {
        match (self, other) {
            (Stone::Black, Stone::White) => true,
            (Stone::White, Stone::Black) => true,
            _ => false,
        }
    }

    /// The other colour; `Empty` has none and stays `Empty`.
    pub fn another(self) -> (r: Stone)
        ensures
            r == self.opposite(),
    {
        match self {
            Stone::Empty => Stone::Empty,
            Stone::Black => Stone::White,
            Stone::White => Stone::Black,
        }
    }
}

/// The three boards that are played on.
#[derive(Clone, Copy, Debug, PartialEq, Eq, Structural)]
pub enum BoardSize {
    /// 19 lines.
    Normal,
    /// 13 lines.
    Medium,
    /// 9 lines.
    Small,
}

impl BoardSize {
    /// The number of lines in each direction.
    pub open spec fn lines(self) -> nat {
        match self {
            BoardSize::Normal => 19,
            BoardSize::Medium => 13,
            BoardSize::Small => 9,
        }
    }
}

/// A board as a mathematical value: `size` lines each way and the stones row
/// by row, the point `(x, y)` (column, row, both from 1) at `(y - 1) * size + (x - 1)`.
pub struct BoardView {
    pub size: nat,
    pub cells: Seq<Stone>,
}

impl BoardView {
    /// One of the three sizes, with one cell for each point.
    pub open spec fn wf(self) -> bool {
        &&& (self.size == 9 || self.size == 13 || self.size == 19)
        &&& self.cells.len() == self.size * self.size
    }

    /// The board of `size` lines without a stone.
    pub open spec fn empty(size: nat) -> BoardView {
        BoardView { size, cells: Seq::new(size * size, |i: int| Stone::Empty) }
    }

    /// Whether `(x, y)` is a point of the board.
    pub open spec fn on_board(self, x: int, y: int) -> bool {
        1 <= x <= self.size && 1 <= y <= self.size
    }

    /// Where the point `(x, y)` lies in `cells`.
    pub open spec fn index_of(self, x: int, y: int) -> int {
        (y - 1) * self.size + (x - 1)
    }

    /// The point, as column and row, that lies at place `i` of `cells`.
    pub open spec fn point_of(self, i: int) -> (int, int) {
        (i % (self.size as int) + 1, i / (self.size as int) + 1)
    }

    /// What the point `(x, y)` holds.
    pub open spec fn at(self, x: int, y: int) -> Stone {
        self.cells[self.index_of(x, y)]
    }

    /// The board with `(x, y)` holding `stone` and every other point as before.
    pub open spec fn put(self, x: int, y: int, stone: Stone) -> BoardView {
        BoardView { size: self.size, cells: self.cells.update(self.index_of(x, y), stone) }
    }

    /// Whether `(x, y)` is one of the nine marked points of this size.
    pub open spec fn star(self, x: int, y: int) -> bool {
        if self.size == 19 {
            (x == 4 || x == 10 || x == 16) && (y == 4 || y == 10 || y == 16)
        } else if self.size == 13 {
            (x == 4 || x == 7 || x == 10) && (y == 4 || y == 7 || y == 10)
        } else {
            (x == 3 || x == 5 || x == 7) && (y == 3 || y == 5 || y == 7)
        }
    }

    /// The number of cells of each size.
    pub proof fn lemma_len(self)
        requires
            self.wf(),
        ensures
            self.size == 9 ==> self.cells.len() == 81,
            self.size == 13 ==> self.cells.len() == 169,
            self.size == 19 ==> self.cells.len() == 361,
    {
        let n = self.size as int;
        assert(n == 9 ==> n * n == 81) by (nonlinear_arith);
        assert(n == 13 ==> n * n == 169) by (nonlinear_arith);
        assert(n == 19 ==> n * n == 361) by (nonlinear_arith);
    }

    /// Points of the board have an index of their own inside `cells`.
    pub proof fn lemma_index_of(self, x: int, y: int)
        requires
            self.wf(),
            self.on_board(x, y),
        ensures
            0 <= self.index_of(x, y) < self.cells.len() <= 361,
            self.index_of(x, y) % (self.size as int) == x - 1,
            self.index_of(x, y) / (self.size as int) == y - 1,
    {
        let n = self.size as int;
        assert(n * n <= 361) by (nonlinear_arith)
            requires
                n == 9 || n == 13 || n == 19,
        ;
        assert(0 <= (y - 1) * n <= (n - 1) * n) by (nonlinear_arith)
            requires
                1 <= y <= n,
        ;
        assert(n * n == (n - 1) * n + n) by (nonlinear_arith);
        vstd::arithmetic::div_mod::lemma_fundamental_div_mod_converse(
            self.index_of(x, y),
            n,
            y - 1,
            x - 1,
        );
    }

    /// Every place in `cells` is that of one point of the board.
    pub proof fn lemma_point_of(self, i: int)
        requires
            self.wf(),
            0 <= i < self.cells.len(),
        ensures
            self.on_board(self.point_of(i).0, self.point_of(i).1),
            self.index_of(self.point_of(i).0, self.point_of(i).1) == i,
    {
        let n = self.size as int;
        vstd::arithmetic::div_mod::lemma_fundamental_div_mod(i, n);
        assert(i / n < n) by (nonlinear_arith)
            requires
                0 <= i < n * n,
                n > 0,
        ;
        assert(0 <= i / n) by (nonlinear_arith)
            requires
                0 <= i,
                n > 0,
        ;
        assert(n * (i / n) == (i / n) * n) by (nonlinear_arith);
    }

    /// Different points have different indices.
    pub proof fn lemma_index_of_injective(self, x1: int, y1: int, x2: int, y2: int)
        requires
            self.wf(),
            self.on_board(x1, y1),
            self.on_board(x2, y2),
            self.index_of(x1, y1) == self.index_of(x2, y2),
        ensures
            x1 == x2,
            y1 == y2,
    {
        self.lemma_index_of(x1, y1);
        self.lemma_index_of(x2, y2);
    }

    /// `put` changes the point it names and no other.
    pub proof fn lemma_put(self, x: int, y: int, stone: Stone)
        requires
            self.wf(),
            self.on_board(x, y),
        ensures
            self.put(x, y, stone).wf(),
            self.put(x, y, stone).at(x, y) == stone,
            forall|a: int, b: int|
                self.on_board(a, b) && (a != x || b != y) ==> #[trigger] self.put(x, y, stone).at(
                    a,
                    b,
                ) == self.at(a, b),
    {
        self.lemma_index_of(x, y);
        assert forall|a: int, b: int| self.on_board(a, b) && (a != x || b != y) implies #[trigger]
            self.put(x, y, stone).at(a, b) == self.at(a, b) by {
            self.lemma_index_of(a, b);
            if self.index_of(a, b) == self.index_of(x, y) {
                self.lemma_index_of_injective(a, b, x, y);
            }
        }
    }
}

/// A board of 9, 13 or 19 lines. The storage always has room for the largest.
#[derive(Debug)]
pub struct Board {
    pub(crate) coord: [Stone; 361],
    pub(crate) size: usize,
}

impl View for Board {
    type V = BoardView;

    closed spec fn view(&self) -> BoardView {
        BoardView {
            size: self.size as nat,
            cells: self.coord@.subrange(0, self.size * self.size),
        }
    }
}

impl Board {
    /// The board is one of the three sizes.
    pub open spec fn wf(&self) -> bool {
        self@.wf()
    }

    /// How the storage and the board it stands for belong together.
    pub(crate) proof fn lemma_storage(&self)
        ensures
            self@.size == self.size,
            self.wf() <==> (self.size == 9 || self.size == 13 || self.size == 19),
            self.wf() ==> self.size * self.size <= 361,
            self.wf() ==> self@.cells.len() == self.size * self.size,
            self.wf() ==> forall|i: int|
                0 <= i < self.size * self.size ==> self@.cells[i] == self.coord@[i],
    {
        let n = self.size as int;
        assert(n == 9 ==> n * n == 81) by (nonlinear_arith);
        assert(n == 13 ==> n * n == 169) by (nonlinear_arith);
        assert(n == 19 ==> n * n == 361) by (nonlinear_arith);
    }

    /// An empty board of the given size.
    pub fn new(size: BoardSize) -> (r: Board)
        ensures
            r.wf(),
            r@ == BoardView::empty(size.lines()),
    {
        let i: usize = match size {
            BoardSize::Normal => 19,
            BoardSize::Medium => 13,
            BoardSize::Small => 9,
        };
        let r = Board { coord: [Stone::Empty; 361], size: i };
        assert(r@.cells =~= BoardView::empty(size.lines()).cells);
        r
    }

    /// The size of the board.
    pub fn size(&self) -> (r: BoardSize)
        requires
            self.wf(),
        ensures
            r.lines() == self@.size,
    {
        match self.size {
            9 => BoardSize::Small,
            13 => BoardSize::Medium,
            _ => BoardSize::Normal,
        }
    }

    /// The number of lines in each direction.
    pub fn lines(&self) -> (r: usize)
        requires
            self.wf(),
        ensures
            r == self@.size,
    {
        self.size
    }

    /// What the point `(x, y)` holds.
    pub fn at(&self, x: usize, y: usize) -> (r: Result<Stone, GoError>)
        requires
            self.wf(),
        ensures
            self@.on_board(x as int, y as int) ==> r == Ok::<Stone, GoError>(
                self@.at(x as int, y as int),
            ),
            !self@.on_board(x as int, y as int) ==> r == Err::<Stone, GoError>(
                GoError::OutOfBounds { x, y },
            ),
    {
        let i = self.point_to_index(x, y)?;
        proof {
            self.lemma_storage();
        }
        Ok(self.coord[i])
    }

    /// Whether the point `(x, y)` holds `t`.
    pub fn is(&self, x: usize, y: usize, t: Stone) -> (r: Result<bool, GoError>)
        requires
            self.wf(),
        ensures
            self@.on_board(x as int, y as int) ==> r == Ok::<bool, GoError>(
                self@.at(x as int, y as int) == t,
            ),
            !self@.on_board(x as int, y as int) ==> r == Err::<bool, GoError>(
                GoError::OutOfBounds { x, y },
            ),
    {
        let i = self.point_to_index(x, y)?;
        proof {
            self.lemma_storage();
        }
        Ok(self.coord[i] == t)
    }

    /// Puts `r` on the point `(x, y)`, whatever it held.
    pub fn add(&mut self, r: Stone, x: usize, y: usize) -> (res: Result<(), GoError>)
        requires
            old(self).wf(),
        ensures
            final(self).wf(),
            old(self)@.on_board(x as int, y as int) ==> res == Ok::<(), GoError>(())
                && final(self)@ == old(self)@.put(x as int, y as int, r),
            !old(self)@.on_board(x as int, y as int) ==> res == Err::<(), GoError>(
                GoError::OutOfBounds { x, y },
            ) && *final(self) == *old(self),
    {
        let i = self.point_to_index(x, y)?;
        proof {
            self.lemma_storage();
        }
        self.coord[i] = r;
        assert(self@.cells =~= old(self)@.put(x as int, y as int, r).cells);
        Ok(())
    }

    /// Takes the stone, if any, from the point `(x, y)`.
    pub fn del(&mut self, x: usize, y: usize) -> (res: Result<(), GoError>)
        requires
            old(self).wf(),
        ensures
            final(self).wf(),
            old(self)@.on_board(x as int, y as int) ==> res == Ok::<(), GoError>(())
                && final(self)@ == old(self)@.put(x as int, y as int, Stone::Empty),
            !old(self)@.on_board(x as int, y as int) ==> res == Err::<(), GoError>(
                GoError::OutOfBounds { x, y },
            ) && *final(self) == *old(self),
    {
        let i = self.point_to_index(x, y)?;
        proof {
            self.lemma_storage();
        }
        self.coord[i] = Stone::Empty;
        assert(self@.cells =~= old(self)@.put(x as int, y as int, Stone::Empty).cells);
        Ok(())
    }

    /// Whether `(x, y)` is one of the nine marked points of this board.
    pub fn is_star_position(&self, x: usize, y: usize) -> (r: Result<bool, GoError>)
        requires
            self.wf(),
        ensures
            self@.on_board(x as int, y as int) ==> r == Ok::<bool, GoError>(
                self@.star(x as int, y as int),
            ),
            !self@.on_board(x as int, y as int) ==> r == Err::<bool, GoError>(
                GoError::OutOfBounds { x, y },
            ),
    {
        let _ = self.point_to_index(x, y)?;
        match self.size() {
            BoardSize::Normal => Ok(
                (x == 4 || x == 10 || x == 16) && (y == 4 || y == 10 || y == 16),
            ),
            BoardSize::Medium => Ok((x == 4 || x == 7 || x == 10) && (y == 4 || y == 7 || y == 10)),
            BoardSize::Small => Ok((x == 3 || x == 5 || x == 7) && (y == 3 || y == 5 || y == 7)),
        }
    }

    /// The point that lies at place `i` of the rows laid end to end.
    pub fn index_to_point(&self, i: usize) -> (r: Result<(usize, usize), GoError>)
        requires
            self.wf(),
        ensures
            i < self@.cells.len() ==> r == Ok::<(usize, usize), GoError>(
                (self@.point_of(i as int).0 as usize, self@.point_of(i as int).1 as usize),
            ),
            i < self@.cells.len() ==> self@.on_board(
                self@.point_of(i as int).0,
                self@.point_of(i as int).1,
            ) && self@.index_of(self@.point_of(i as int).0, self@.point_of(i as int).1) == i,
            i >= self@.cells.len() ==> r == Err::<(usize, usize), GoError>(
                GoError::OutOfBounds {
                    x: self@.point_of(i as int).0 as usize,
                    y: self@.point_of(i as int).1 as usize,
                },
            ),
    {
        proof {
            self.lemma_storage();
            let n = self.size as int;
            vstd::arithmetic::div_mod::lemma_fundamental_div_mod(i as int, n);
            assert(i as int / n < i || i == 0) by (nonlinear_arith)
                requires
                    0 <= i,
                    n >= 9,
                    i as int == n * (i as int / n) + i as int % n,
                    0 <= i as int % n < n,
            ;
            if i < n * n {
                self@.lemma_point_of(i as int);
            }
        }
        let x = i % self.size + 1;
        let y = i / self.size + 1;
        if i >= self.size * self.size {
            return Err(GoError::OutOfBounds { x, y });
        }
        Ok((x, y))
    }

    /// The place of the point `(x, y)` in the rows laid end to end.
    pub fn point_to_index(&self, x: usize, y: usize) -> (r: Result<usize, GoError>)
        requires
            self.wf(),
        ensures
            self@.on_board(x as int, y as int) ==> r == Ok::<usize, GoError>(
                self@.index_of(x as int, y as int) as usize,
            ) && 0 <= self@.index_of(x as int, y as int) < self@.cells.len(),
            !self@.on_board(x as int, y as int) ==> r == Err::<usize, GoError>(
                GoError::OutOfBounds { x, y },
            ),
    {
        if x < 1 || x > self.size || y < 1 || y > self.size {
            return Err(GoError::OutOfBounds { x, y });
        }
        proof {
            self.lemma_storage();
            self@.lemma_index_of(x as int, y as int);
        }
        Ok((y - 1) * self.size + x - 1)
    }
}

} // verus!
