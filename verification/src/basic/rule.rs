//! The rules of play: capture, suicide, and the ban on repeating a position.

use vstd::prelude::*;
use crate::basic::board::{Board, BoardView, Stone};
use crate::basic::error::GoError;
use crate::basic::group::{
    adjacent, calc_liberty, connected, get_block, is_chain, is_liberty_of, lemma_chain_prefix,
    lemma_connected_back, lemma_connected_on, lemma_connected_same, lemma_connected_self,
    lemma_connected_step, lemma_neighbours, liberties, liberty_points, neighbour_at, neighbours,
    point_if_on_board, Point,
};
use crate::basic::zip::{lemma_unzip_zip, spec_zip, unzip_board, zip_board, BoardZip};

verus! {

/// The board once the whole group of `(x, y)` has been lifted from it.
pub open spec fn without_group(b: BoardView, x: int, y: int) -> BoardView {
    BoardView {
        size: b.size,
        cells: Seq::new(
            b.cells.len(),
            |i: int|
                if connected(b, x, y, b.point_of(i).0, b.point_of(i).1) {
                    Stone::Empty
                } else {
                    b.cells[i]
                },
        ),
    }
}

/// Lifts the whole group of `(x, y)`, which must lie on the board, from the board.
pub fn remove_block(board: &mut Board, x: usize, y: usize)
    requires
        old(board).wf(),
        old(board)@.on_board(x as int, y as int),
    ensures
        final(board).wf(),
        final(board)@ == without_group(old(board)@, x as int, y as int),
{
    let ghost b = board@;
    let block = get_block(board, x, y);
    let mut i: usize = 0;
    while i < block.len()
        invariant
            board.wf(),
            b.wf(),
            board@.size == b.size,
            0 <= i <= block@.len(),
            forall|m: int|
                0 <= m < block@.len() ==> connected(
                    b,
                    x as int,
                    y as int,
                    (#[trigger] block@[m]).x as int,
                    block@[m].y as int,
                ),
            forall|j: int|
                0 <= j < b.cells.len() ==> #[trigger] board@.cells[j] == if exists|m: int|
                    0 <= m < i && b.index_of((#[trigger] block@[m]).x as int, block@[m].y as int)
                        == j {
                    Stone::Empty
                } else {
                    b.cells[j]
                },
        decreases block@.len() - i,
    {
        let bp = block[i];
        let ghost before = board@;
        proof {
            lemma_connected_same(b, x as int, y as int, bp.x as int, bp.y as int);
            b.lemma_index_of(bp.x as int, bp.y as int);
        }
        let _ = board.del(bp.x, bp.y);
        proof {
            let t = b.index_of(bp.x as int, bp.y as int);
            assert forall|j: int| 0 <= j < b.cells.len() implies #[trigger] board@.cells[j]
                == if exists|m: int|
                0 <= m < i + 1 && b.index_of((#[trigger] block@[m]).x as int, block@[m].y as int)
                    == j {
                Stone::Empty
            } else {
                b.cells[j]
            } by {
                if j == t {
                    assert(b.index_of(block@[i as int].x as int, block@[i as int].y as int) == j);
                } else {
                    assert(board@.cells[j] == before.cells[j]);
                    if exists|m: int|
                        0 <= m < i + 1 && b.index_of(
                            (#[trigger] block@[m]).x as int,
                            block@[m].y as int,
                        ) == j {
                        let m = choose|m: int|
                            0 <= m < i + 1 && b.index_of(
                                (#[trigger] block@[m]).x as int,
                                block@[m].y as int,
                            ) == j;
                        assert(m < i);
                    }
                }
            }
        }
        i += 1;
    }
    proof {
        let goal = without_group(b, x as int, y as int);
        assert forall|j: int| 0 <= j < b.cells.len() implies board@.cells[j] == goal.cells[j] by {
            b.lemma_point_of(j);
            let a = b.point_of(j).0;
            let c = b.point_of(j).1;
            if connected(b, x as int, y as int, a, c) {
                let m = choose|m: int|
                    0 <= m < block@.len() && (#[trigger] block@[m]).x == a && block@[m].y == c;
                assert(b.index_of(block@[m].x as int, block@[m].y as int) == j);
            } else {
                if exists|m: int|
                    0 <= m < i && b.index_of((#[trigger] block@[m]).x as int, block@[m].y as int)
                        == j {
                    let m = choose|m: int|
                        0 <= m < i && b.index_of(
                            (#[trigger] block@[m]).x as int,
                            block@[m].y as int,
                        ) == j;
                    lemma_connected_same(
                        b,
                        x as int,
                        y as int,
                        block@[m].x as int,
                        block@[m].y as int,
                    );
                    b.lemma_index_of_injective(block@[m].x as int, block@[m].y as int, a, c);
                }
            }
        }
        assert(board@.cells =~= goal.cells);
    }
}

/// The board after a stone of colour `stone` has looked at the point `(nx, ny)`:
/// if a stone of the other colour stands there and its group has no liberty,
/// the group is lifted; else nothing changes.
pub open spec fn capture_at(b: BoardView, stone: Stone, nx: int, ny: int) -> BoardView {
    if b.on_board(nx, ny) && stone.opposes(b.at(nx, ny)) && liberties(b, nx, ny) == 0 {
        without_group(b, nx, ny)
    } else {
        b
    }
}

/// The board after the stone at `(x, y)` has captured: it looks at the points
/// to its left, to its right, above and below, in this order.
pub open spec fn resolve(b: BoardView, x: int, y: int) -> BoardView {
    let stone = b.at(x, y);
    let b1 = capture_at(b, stone, x - 1, y);
    let b2 = capture_at(b1, stone, x + 1, y);
    let b3 = capture_at(b2, stone, x, y - 1);
    capture_at(b3, stone, x, y + 1)
}

/// Whether the stone at `(x, y)` stands there against the rule: it captures
/// nothing and its group has no liberty.
pub open spec fn is_suicide(b: BoardView, x: int, y: int) -> bool {
    resolve(b, x, y) == b && liberties(b, x, y) == 0
}

/// The board after a stone of colour `stone` has looked at the points of `ns` in turn.
spec fn capture_all(b: BoardView, stone: Stone, ns: Seq<Point>) -> BoardView
    decreases ns.len(),
{
    if ns.len() == 0 {
        b
    } else {
        capture_at(
            capture_all(b, stone, ns.drop_last()),
            stone,
            ns.last().x as int,
            ns.last().y as int,
        )
    }
}

/// Lifting a group leaves a board of the same size on which every point holds
/// what it held or nothing, and the group's first point nothing.
pub proof fn lemma_without_group(b: BoardView, x: int, y: int)
    requires
        b.wf(),
        b.on_board(x, y),
    ensures
        without_group(b, x, y).wf(),
        without_group(b, x, y).size == b.size,
        without_group(b, x, y).at(x, y) == Stone::Empty,
        forall|j: int|
            0 <= j < b.cells.len() ==> #[trigger] without_group(b, x, y).cells[j] == b.cells[j]
                || without_group(b, x, y).cells[j] == Stone::Empty,
{
    b.lemma_index_of(x, y);
    lemma_connected_self(b, x, y);
}

/// Looking at a point leaves a board of the same size on which every point
/// holds what it held or nothing.
proof fn lemma_capture_at(b: BoardView, stone: Stone, nx: int, ny: int)
    requires
        b.wf(),
    ensures
        capture_at(b, stone, nx, ny).wf(),
        capture_at(b, stone, nx, ny).size == b.size,
        forall|j: int|
            0 <= j < b.cells.len() ==> #[trigger] capture_at(b, stone, nx, ny).cells[j]
                == b.cells[j] || capture_at(b, stone, nx, ny).cells[j] == Stone::Empty,
{
    if b.on_board(nx, ny) {
        lemma_without_group(b, nx, ny);
    }
}

/// Looking at the four neighbours one after the other is `resolve`.
proof fn lemma_capture_all_neighbours(b: BoardView, x: int, y: int)
    requires
        b.wf(),
    ensures
        capture_all(b, b.at(x, y), neighbours(b, x, y)) == resolve(b, x, y),
{
    let stone = b.at(x, y);
    let n1 = point_if_on_board(b, x - 1, y);
    let n2 = point_if_on_board(b, x + 1, y);
    let n3 = point_if_on_board(b, x, y - 1);
    let n4 = point_if_on_board(b, x, y + 1);
    let b1 = capture_at(b, stone, x - 1, y);
    let b2 = capture_at(b1, stone, x + 1, y);
    let b3 = capture_at(b2, stone, x, y - 1);
    let b4 = capture_at(b3, stone, x, y + 1);
    lemma_capture_at(b, stone, x - 1, y);
    lemma_capture_at(b1, stone, x + 1, y);
    lemma_capture_at(b2, stone, x, y - 1);
    lemma_capture_at(b3, stone, x, y + 1);
    assert(capture_all(b, stone, Seq::<Point>::empty()) == b);
    assert(capture_all(b, stone, n1) == b1) by {
        if n1.len() > 0 {
            assert(n1.drop_last() =~= Seq::<Point>::empty());
        }
    }
    assert(capture_all(b, stone, n1 + n2) == b2) by {
        if n2.len() > 0 {
            assert((n1 + n2).drop_last() =~= n1);
            assert((n1 + n2).last() == n2[0]);
        } else {
            assert(n1 + n2 =~= n1);
        }
    }
    assert(capture_all(b, stone, n1 + n2 + n3) == b3) by {
        if n3.len() > 0 {
            assert((n1 + n2 + n3).drop_last() =~= n1 + n2);
            assert((n1 + n2 + n3).last() == n3[0]);
        } else {
            assert(n1 + n2 + n3 =~= n1 + n2);
        }
    }
    assert(capture_all(b, stone, n1 + n2 + n3 + n4) == b4) by {
        if n4.len() > 0 {
            assert((n1 + n2 + n3 + n4).drop_last() =~= n1 + n2 + n3);
            assert((n1 + n2 + n3 + n4).last() == n4[0]);
        } else {
            assert(n1 + n2 + n3 + n4 =~= n1 + n2 + n3);
        }
    }
}

/// Whether the point `(px, py)` is taken by a stone of colour `stone` that
/// looks at `(nx, ny)`: a stone of the other colour stands there, its group
/// has no liberty, and `(px, py)` belongs to that group.
pub open spec fn taken_from(
    b: BoardView,
    stone: Stone,
    nx: int,
    ny: int,
    px: int,
    py: int,
) -> bool {
    &&& b.on_board(nx, ny)
    &&& stone.opposes(b.at(nx, ny))
    &&& liberties(b, nx, ny) == 0
    &&& connected(b, nx, ny, px, py)
}

/// Whether the stone at `(x, y)` captures the point `(px, py)`: the point
/// belongs to a group of the other colour that has no liberty and holds one
/// of the four neighbours of `(x, y)`.
pub open spec fn captured(b: BoardView, x: int, y: int, px: int, py: int) -> bool {
    let stone = b.at(x, y);
    ||| taken_from(b, stone, x - 1, y, px, py)
    ||| taken_from(b, stone, x + 1, y, px, py)
    ||| taken_from(b, stone, x, y - 1, px, py)
    ||| taken_from(b, stone, x, y + 1, px, py)
}

/// Whether `b2` is `b` with the points of `gone` emptied.
spec fn emptied(b: BoardView, b2: BoardView, gone: spec_fn(int, int) -> bool) -> bool {
    &&& b2.wf()
    &&& b2.size == b.size
    &&& forall|a: int, c: int|
        b.on_board(a, c) ==> #[trigger] b2.at(a, c) == if gone(a, c) {
            Stone::Empty
        } else {
            b.at(a, c)
        }
}

/// Whether `gone` holds only stones that oppose `stone`, and with each point its whole group.
spec fn whole_groups(b: BoardView, stone: Stone, gone: spec_fn(int, int) -> bool) -> bool {
    &&& forall|a: int, c: int| #[trigger] gone(a, c) ==> b.on_board(a, c) && stone.opposes(b.at(a, c))
    &&& forall|a: int, c: int, p: int, q: int|
        gone(a, c) && #[trigger] connected(b, a, c, p, q) ==> #[trigger] gone(p, q)
}

/// When stones of the colour of `(nx, ny)` that do not belong to its group are
/// lifted, the group of `(nx, ny)` and its liberties stay what they were.
proof fn lemma_group_stays(b: BoardView, b2: BoardView, nx: int, ny: int)
    requires
        b.wf(),
        b2.wf(),
        b2.size == b.size,
        b.on_board(nx, ny),
        b.at(nx, ny) != Stone::Empty,
        forall|a: int, c: int|
            b.on_board(a, c) ==> #[trigger] b2.at(a, c) == b.at(a, c) || (b2.at(a, c)
                == Stone::Empty && b.at(a, c) == b.at(nx, ny) && !connected(b, nx, ny, a, c)),
    ensures
        forall|a: int, c: int| #[trigger] connected(b2, nx, ny, a, c) == connected(b, nx, ny, a, c),
        liberties(b2, nx, ny) == liberties(b, nx, ny),
        without_group(b2, nx, ny).size == b.size,
        forall|a: int, c: int|
            b.on_board(a, c) ==> #[trigger] without_group(b2, nx, ny).at(a, c) == if connected(
                b,
                nx,
                ny,
                a,
                c,
            ) {
                Stone::Empty
            } else {
                b2.at(a, c)
            },
{
    lemma_connected_self(b, nx, ny);
    assert(b2.at(nx, ny) == b.at(nx, ny));
    assert forall|a: int, c: int| #[trigger]
        connected(b2, nx, ny, a, c) == connected(b, nx, ny, a, c) by {
        if connected(b2, nx, ny, a, c) {
            let path = choose|path: Seq<(int, int)>|
                #![trigger is_chain(b2, path)]
                is_chain(b2, path) && path[0] == (nx, ny) && path.last() == (a, c);
            assert(path[0] == (nx, ny));
            assert forall|i: int| 0 <= i < path.len() implies b.on_board(
                (#[trigger] path[i]).0,
                path[i].1,
            ) && b.at(path[i].0, path[i].1) == b.at(path[0].0, path[0].1) by {
                assert(b2.at(path[i].0, path[i].1) == b2.at(nx, ny));
            }
            assert(is_chain(b, path));
        }
        if connected(b, nx, ny, a, c) {
            let path = choose|path: Seq<(int, int)>|
                #![trigger is_chain(b, path)]
                is_chain(b, path) && path[0] == (nx, ny) && path.last() == (a, c);
            assert(path[0] == (nx, ny));
            assert forall|i: int| 0 <= i < path.len() implies b2.on_board(
                (#[trigger] path[i]).0,
                path[i].1,
            ) && b2.at(path[i].0, path[i].1) == b2.at(path[0].0, path[0].1) by {
                lemma_chain_prefix(b, path, i);
                assert(b2.at(path[i].0, path[i].1) == b.at(path[i].0, path[i].1));
            }
            assert(is_chain(b2, path));
        }
    }
    assert forall|q: (int, int)|
        is_liberty_of(b2, nx, ny, q.0, q.1) == is_liberty_of(b, nx, ny, q.0, q.1) by {
        if is_liberty_of(b2, nx, ny, q.0, q.1) {
            let p = choose|p: (int, int)|
                #![trigger connected(b2, nx, ny, p.0, p.1)]
                connected(b2, nx, ny, p.0, p.1) && adjacent(p.0, p.1, q.0, q.1);
            assert(connected(b, nx, ny, p.0, p.1));
            if b.at(q.0, q.1) != Stone::Empty {
                assert(b2.at(q.0, q.1) == Stone::Empty);
                lemma_connected_step(b, nx, ny, p.0, p.1, q.0, q.1);
            }
        }
        if is_liberty_of(b, nx, ny, q.0, q.1) {
            let p = choose|p: (int, int)|
                #![trigger connected(b, nx, ny, p.0, p.1)]
                connected(b, nx, ny, p.0, p.1) && adjacent(p.0, p.1, q.0, q.1);
            assert(connected(b2, nx, ny, p.0, p.1));
            assert(b2.at(q.0, q.1) == b.at(q.0, q.1));
        }
    }
    assert(liberty_points(b2, nx, ny) =~= liberty_points(b, nx, ny));
    assert forall|a: int, c: int| b.on_board(a, c) implies #[trigger] without_group(b2, nx, ny).at(
        a,
        c,
    ) == if connected(b, nx, ny, a, c) {
        Stone::Empty
    } else {
        b2.at(a, c)
    } by {
        b2.lemma_index_of(a, c);
        assert(connected(b2, nx, ny, a, c) == connected(b, nx, ny, a, c));
    }
}

/// One look of the capturing stone: if the board is the first board with
/// whole opposing groups lifted, it is so after the look, the group that the
/// look takes among them.
proof fn lemma_capture_look(
    b: BoardView,
    bk: BoardView,
    stone: Stone,
    gone: spec_fn(int, int) -> bool,
    nx: int,
    ny: int,
)
    requires
        b.wf(),
        emptied(b, bk, gone),
        whole_groups(b, stone, gone),
    ensures
        emptied(
            b,
            capture_at(bk, stone, nx, ny),
            |a: int, c: int| gone(a, c) || taken_from(b, stone, nx, ny, a, c),
        ),
        whole_groups(b, stone, |a: int, c: int| gone(a, c) || taken_from(b, stone, nx, ny, a, c)),
{
    let more = |a: int, c: int| gone(a, c) || taken_from(b, stone, nx, ny, a, c);
    let after = capture_at(bk, stone, nx, ny);
    assert forall|a: int, c: int| #[trigger] more(a, c) implies b.on_board(a, c) && stone.opposes(
        b.at(a, c),
    ) by {
        if !gone(a, c) {
            lemma_connected_same(b, nx, ny, a, c);
        }
    }
    assert forall|a: int, c: int, p: int, q: int|
        more(a, c) && #[trigger] connected(b, a, c, p, q) implies #[trigger] more(p, q) by {
        if !gone(a, c) {
            lemma_connected_on(b, nx, ny, a, c, p, q);
        }
    }
    if !b.on_board(nx, ny) {
        assert(after == bk);
    } else if gone(nx, ny) {
        assert(bk.at(nx, ny) == Stone::Empty);
        assert(after == bk);
        assert forall|a: int, c: int| taken_from(b, stone, nx, ny, a, c) implies gone(a, c) by {
            assert(connected(b, nx, ny, a, c));
        }
    } else if !stone.opposes(b.at(nx, ny)) {
        assert(bk.at(nx, ny) == b.at(nx, ny));
        assert(after == bk);
    } else {
        assert(bk.at(nx, ny) == b.at(nx, ny));
        assert forall|a: int, c: int| b.on_board(a, c) implies #[trigger] bk.at(a, c) == b.at(a, c)
            || (bk.at(a, c) == Stone::Empty && b.at(a, c) == b.at(nx, ny) && !connected(
            b,
            nx,
            ny,
            a,
            c,
        )) by {
            if gone(a, c) {
                if connected(b, nx, ny, a, c) {
                    lemma_connected_back(b, nx, ny, a, c);
                    assert(gone(nx, ny));
                }
            }
        }
        lemma_group_stays(b, bk, nx, ny);
        if liberties(b, nx, ny) == 0 {
            assert(after == without_group(bk, nx, ny));
            lemma_without_group(bk, nx, ny);
        } else {
            assert(after == bk);
        }
    }
}

/// What capturing comes to, whatever the order of the looks: the points that
/// the stone at `(x, y)` captures are emptied, all others stay.
pub proof fn lemma_resolve_at_once(b: BoardView, x: int, y: int)
    requires
        b.wf(),
    ensures
        resolve(b, x, y).wf(),
        resolve(b, x, y).size == b.size,
        forall|a: int, c: int|
            b.on_board(a, c) ==> #[trigger] resolve(b, x, y).at(a, c) == if captured(b, x, y, a, c) {
                Stone::Empty
            } else {
                b.at(a, c)
            },
{
    let stone = b.at(x, y);
    let g0 = |a: int, c: int| false;
    let g1 = |a: int, c: int| g0(a, c) || taken_from(b, stone, x - 1, y, a, c);
    let g2 = |a: int, c: int| g1(a, c) || taken_from(b, stone, x + 1, y, a, c);
    let g3 = |a: int, c: int| g2(a, c) || taken_from(b, stone, x, y - 1, a, c);
    let g4 = |a: int, c: int| g3(a, c) || taken_from(b, stone, x, y + 1, a, c);
    let b1 = capture_at(b, stone, x - 1, y);
    let b2 = capture_at(b1, stone, x + 1, y);
    let b3 = capture_at(b2, stone, x, y - 1);
    let b4 = capture_at(b3, stone, x, y + 1);
    assert(emptied(b, b, g0));
    assert(whole_groups(b, stone, g0));
    lemma_capture_look(b, b, stone, g0, x - 1, y);
    assert(emptied(b, b1, g1));
    assert(whole_groups(b, stone, g1));
    lemma_capture_look(b, b1, stone, g1, x + 1, y);
    assert(emptied(b, b2, g2));
    assert(whole_groups(b, stone, g2));
    lemma_capture_look(b, b2, stone, g2, x, y - 1);
    assert(emptied(b, b3, g3));
    assert(whole_groups(b, stone, g3));
    lemma_capture_look(b, b3, stone, g3, x, y + 1);
    assert(emptied(b, b4, g4));
    assert(b4 == resolve(b, x, y));
    assert forall|a: int, c: int| b.on_board(a, c) implies #[trigger] resolve(b, x, y).at(a, c)
        == if captured(b, x, y, a, c) {
        Stone::Empty
    } else {
        b.at(a, c)
    } by {
        assert(g4(a, c) == captured(b, x, y, a, c));
    }
}

/// A stone stands against the rule of suicide exactly if its group has no
/// liberty and it captures no point.
pub proof fn lemma_suicide_captures_nothing(b: BoardView, x: int, y: int)
    requires
        b.wf(),
    ensures
        is_suicide(b, x, y) <==> liberties(b, x, y) == 0 && forall|a: int, c: int|
            b.on_board(a, c) ==> !#[trigger] captured(b, x, y, a, c),
{
    lemma_resolve_at_once(b, x, y);
    let after = resolve(b, x, y);
    if forall|a: int, c: int| b.on_board(a, c) ==> !#[trigger] captured(b, x, y, a, c) {
        assert forall|j: int| 0 <= j < b.cells.len() implies after.cells[j] == b.cells[j] by {
            b.lemma_point_of(j);
            let (a, c) = b.point_of(j);
            assert(!captured(b, x, y, a, c));
            assert(after.at(a, c) == b.at(a, c));
        }
        assert(after.cells =~= b.cells);
    }
    if after == b {
        assert forall|a: int, c: int| b.on_board(a, c) implies !#[trigger] captured(
            b,
            x,
            y,
            a,
            c,
        ) by {
            if captured(b, x, y, a, c) {
                assert(after.at(a, c) == Stone::Empty);
                let stone = b.at(x, y);
                if taken_from(b, stone, x - 1, y, a, c) {
                    lemma_connected_same(b, x - 1, y, a, c);
                } else if taken_from(b, stone, x + 1, y, a, c) {
                    lemma_connected_same(b, x + 1, y, a, c);
                } else if taken_from(b, stone, x, y - 1, a, c) {
                    lemma_connected_same(b, x, y - 1, a, c);
                } else {
                    lemma_connected_same(b, x, y + 1, a, c);
                }
            }
        }
    }
}

/// Lets the stone at `(x, y)` capture: each neighbouring group of the other
/// colour that has no liberty is lifted from the board. Fails, and leaves the
/// board as it was, if `(x, y)` is no point of the board, or if nothing was
/// captured and the group of `(x, y)` has no liberty.
pub fn remove_lose_liberty_stones(board: &mut Board, x: usize, y: usize) -> (r: Result<
    (),
    GoError,
>)
    requires
        old(board).wf(),
    ensures
        final(board).wf(),
        !old(board)@.on_board(x as int, y as int) ==> r == Err::<(), GoError>(
            GoError::OutOfBounds { x, y },
        ) && *final(board) == *old(board),
        old(board)@.on_board(x as int, y as int) && is_suicide(old(board)@, x as int, y as int)
            ==> r == Err::<(), GoError>(GoError::Suicide { x, y }) && *final(board) == *old(board),
        old(board)@.on_board(x as int, y as int) && !is_suicide(old(board)@, x as int, y as int)
            ==> r == Ok::<(), GoError>(()) && final(board)@ == resolve(
            old(board)@,
            x as int,
            y as int,
        ),
{
    let ghost b = board@;
    let stone = board.at(x, y)?;
    let mut remove_flag: bool = false;
    let ns = neighbour_at(board, x, y);
    let ghost mut gone: int = 0;
    proof {
        lemma_neighbours(b, x as int, y as int);
        assert(ns@.take(0) =~= Seq::<Point>::empty());
    }
    let mut k: usize = 0;
    while k < ns.len()
        invariant
            b.wf(),
            b == old(board)@,
            b.on_board(x as int, y as int),
            stone == b.at(x as int, y as int),
            board.wf(),
            board@.size == b.size,
            ns@ == neighbours(b, x as int, y as int),
            0 <= k <= ns@.len(),
            board@ == capture_all(b, stone, ns@.take(k as int)),
            !remove_flag ==> *board == *old(board),
            remove_flag ==> 0 <= gone < b.cells.len() && b.cells[gone] != Stone::Empty
                && board@.cells[gone] == Stone::Empty,
            forall|j: int|
                0 <= j < b.cells.len() ==> #[trigger] board@.cells[j] == b.cells[j]
                    || board@.cells[j] == Stone::Empty,
        decreases ns@.len() - k,
    {
        let p = ns[k];
        let ghost before = board@;
        proof {
            assert(ns@.take(k + 1).drop_last() =~= ns@.take(k as int));
            assert(ns@.take(k + 1).last() == p);
            lemma_capture_at(before, stone, p.x as int, p.y as int);
            before.lemma_index_of(p.x as int, p.y as int);
        }
        let held = board.at(p.x, p.y).unwrap();
        if stone.is_opposite(held) {
            if calc_liberty(board, p.x, p.y) == 0 {
                remove_block(board, p.x, p.y);
                remove_flag = true;
                proof {
                    lemma_without_group(before, p.x as int, p.y as int);
                    gone = before.index_of(p.x as int, p.y as int);
                    assert(before.cells[gone] == held);
                }
            }
        }
        k += 1;
    }
    proof {
        assert(ns@.take(k as int) =~= ns@);
        lemma_capture_all_neighbours(b, x as int, y as int);
    }
    if calc_liberty(board, x, y) == 0 && !remove_flag {
        return Err(GoError::Suicide { x, y });
    }
    Ok(())
}

/// The board after a stone of colour `stone` has been put on `(x, y)` and has captured.
pub open spec fn play(b: BoardView, stone: Stone, x: int, y: int) -> BoardView {
    resolve(b.put(x, y, stone), x, y)
}

/// Putting a stone and letting it capture leaves a board of the same size.
pub proof fn lemma_play_wf(b: BoardView, stone: Stone, x: int, y: int)
    requires
        b.wf(),
        b.on_board(x, y),
    ensures
        play(b, stone, x, y).wf(),
        play(b, stone, x, y).size == b.size,
{
    b.lemma_put(x, y, stone);
    let b0 = b.put(x, y, stone);
    let s = b0.at(x, y);
    let b1 = capture_at(b0, s, x - 1, y);
    let b2 = capture_at(b1, s, x + 1, y);
    let b3 = capture_at(b2, s, x, y - 1);
    lemma_capture_at(b0, s, x - 1, y);
    lemma_capture_at(b1, s, x + 1, y);
    lemma_capture_at(b2, s, x, y - 1);
    lemma_capture_at(b3, s, x, y + 1);
}

/// Puts a stone on `(x, y)` of a copy of the board and lets it capture. Gives
/// the new board, unless `(x, y)` is no point of the board, the stone stands
/// there against the rule of suicide, or the new board has the code of one of
/// the boards in `board_history`. The point may hold anything before.
pub fn check_if_never_repeat_with_new_stone(
    board: &Board,
    stone: Stone,
    x: usize,
    y: usize,
    board_history: Vec<BoardZip>,
) -> (r: Result<Board, GoError>)
    requires
        board.wf(),
    ensures
        !board@.on_board(x as int, y as int) ==> r == Err::<Board, GoError>(
            GoError::OutOfBounds { x, y },
        ),
        board@.on_board(x as int, y as int) && is_suicide(
            board@.put(x as int, y as int, stone),
            x as int,
            y as int,
        ) ==> r == Err::<Board, GoError>(GoError::Suicide { x, y }),
        board@.on_board(x as int, y as int) && !is_suicide(
            board@.put(x as int, y as int, stone),
            x as int,
            y as int,
        ) && board_history@.contains(spec_zip(play(board@, stone, x as int, y as int))) ==> r
            == Err::<Board, GoError>(GoError::KoViolation { x, y }),
        board@.on_board(x as int, y as int) && !is_suicide(
            board@.put(x as int, y as int, stone),
            x as int,
            y as int,
        ) && !board_history@.contains(spec_zip(play(board@, stone, x as int, y as int))) ==> r is Ok
            && r->Ok_0.wf() && r->Ok_0@ == play(board@, stone, x as int, y as int),
{
    let zb = zip_board(board);
    let mut nb = unzip_board(&zb);
    proof {
        lemma_unzip_zip(board@);
    }
    nb.add(stone, x, y)?;
    remove_lose_liberty_stones(&mut nb, x, y)?;
    let nzb = zip_board(&nb);
    let mut i: usize = 0;
    while i < board_history.len()
        invariant
            0 <= i <= board_history@.len(),
            forall|j: int| 0 <= j < i ==> board_history@[j] != nzb,
            board@.on_board(x as int, y as int),
            !is_suicide(board@.put(x as int, y as int, stone), x as int, y as int),
            nb.wf(),
            nb@ == play(board@, stone, x as int, y as int),
            nzb == spec_zip(nb@),
        decreases board_history@.len() - i,
    {
        if nzb == board_history[i] {
            return Err(GoError::KoViolation { x, y });
        }
        i += 1;
    }
    Ok(nb)
}

/// Fails unless the point `(x, y)` lies on the board and is empty.
pub fn check_if_empty(board: &Board, x: usize, y: usize) -> (r: Result<(), GoError>)
    requires
        board.wf(),
    ensures
        !board@.on_board(x as int, y as int) ==> r == Err::<(), GoError>(
            GoError::OutOfBounds { x, y },
        ),
        board@.on_board(x as int, y as int) && board@.at(x as int, y as int) != Stone::Empty ==> r
            == Err::<(), GoError>(GoError::NotEmpty { x, y }),
        board@.on_board(x as int, y as int) && board@.at(x as int, y as int) == Stone::Empty ==> r
            == Ok::<(), GoError>(()),
{
    if !board.is(x, y, Stone::Empty)? {
        return Err(GoError::NotEmpty { x, y });
    }
    Ok(())
}

} // verus!
