//! Groups of stones and their liberties.

use vstd::prelude::*;
use crate::basic::board::{Board, BoardView, Stone};

verus! {

/// A point of the board together with what it holds.
#[derive(Clone, Copy, Debug, PartialEq, Eq, Hash, Structural)]
pub struct Point {
    pub stone: Stone,
    pub x: usize,
    pub y: usize,
}

impl Point {
    /// The point `(x, y)` holding `stone`.
    pub fn new(stone: Stone, x: usize, y: usize) -> (r: Point)
        ensures
            r == (Point { stone, x, y }),
    {
        Point { stone, x, y }
    }
}

/// Whether two points are next to each other along a line.
pub open spec fn adjacent(x1: int, y1: int, x2: int, y2: int) -> bool {
    ||| x1 == x2 && (y1 - y2 == 1 || y2 - y1 == 1)
    ||| y1 == y2 && (x1 - x2 == 1 || x2 - x1 == 1)
}

/// A walk over the board from point to adjacent point on which every point
/// holds what the first one holds.
pub open spec fn is_chain(b: BoardView, path: Seq<(int, int)>) -> bool {
    &&& path.len() >= 1
    &&& forall|i: int|
        0 <= i < path.len() ==> b.on_board((#[trigger] path[i]).0, path[i].1) && b.at(
            path[i].0,
            path[i].1,
        ) == b.at(path[0].0, path[0].1)
    &&& forall|i: int|
        0 <= i < path.len() - 1 ==> adjacent(
            (#[trigger] path[i]).0,
            path[i].1,
            path[i + 1].0,
            path[i + 1].1,
        )
}

/// Whether `(px, py)` belongs to the group of `(x, y)`: a chain leads from one to the other.
pub open spec fn connected(b: BoardView, x: int, y: int, px: int, py: int) -> bool {
    exists|path: Seq<(int, int)>|
        #![trigger is_chain(b, path)]
        is_chain(b, path) && path[0] == (x, y) && path.last() == (px, py)
}

/// Whether `(qx, qy)` is an empty point next to a point of the group of `(x, y)`.
pub open spec fn is_liberty_of(b: BoardView, x: int, y: int, qx: int, qy: int) -> bool {
    &&& b.on_board(qx, qy)
    &&& b.at(qx, qy) == Stone::Empty
    &&& exists|p: (int, int)|
        #![trigger connected(b, x, y, p.0, p.1)]
        connected(b, x, y, p.0, p.1) && adjacent(p.0, p.1, qx, qy)
}

/// The liberties of the group of `(x, y)`.
pub open spec fn liberty_points(b: BoardView, x: int, y: int) -> Set<(int, int)> {
    Set::new(|q: (int, int)| is_liberty_of(b, x, y, q.0, q.1))
}

/// How many liberties the group of `(x, y)` has.
pub open spec fn liberties(b: BoardView, x: int, y: int) -> nat {
    liberty_points(b, x, y).len()
}

/// The point `(a, c)` with its stone, if it lies on the board.
pub open spec fn point_if_on_board(b: BoardView, a: int, c: int) -> Seq<Point> {
    if b.on_board(a, c) {
        seq![Point { stone: b.at(a, c), x: a as usize, y: c as usize }]
    } else {
        Seq::empty()
    }
}

/// The points next to `(x, y)` that lie on the board: left, right, above, below.
pub open spec fn neighbours(b: BoardView, x: int, y: int) -> Seq<Point> {
    point_if_on_board(b, x - 1, y) + point_if_on_board(b, x + 1, y) + point_if_on_board(
        b,
        x,
        y - 1,
    ) + point_if_on_board(b, x, y + 1)
}

/// Every point is in its own group.
pub proof fn lemma_connected_self(b: BoardView, x: int, y: int)
    requires
        b.on_board(x, y),
    ensures
        connected(b, x, y, x, y),
{
    let path = seq![(x, y)];
    assert(is_chain(b, path));
    assert(path[0] == (x, y) && path.last() == (x, y));
}

/// A group grows by a neighbour that holds the same.
pub proof fn lemma_connected_step(b: BoardView, x: int, y: int, px: int, py: int, qx: int, qy: int)
    requires
        connected(b, x, y, px, py),
        b.on_board(qx, qy),
        adjacent(px, py, qx, qy),
        b.at(qx, qy) == b.at(x, y),
    ensures
        connected(b, x, y, qx, qy),
{
    let path = choose|path: Seq<(int, int)>|
        #![trigger is_chain(b, path)]
        is_chain(b, path) && path[0] == (x, y) && path.last() == (px, py);
    let longer = path.push((qx, qy));
    assert forall|i: int| 0 <= i < longer.len() implies b.on_board(
        (#[trigger] longer[i]).0,
        longer[i].1,
    ) && b.at(longer[i].0, longer[i].1) == b.at(longer[0].0, longer[0].1) by {
        if i < path.len() {
            assert(longer[i] == path[i]);
        }
    }
    assert forall|i: int| 0 <= i < longer.len() - 1 implies adjacent(
        (#[trigger] longer[i]).0,
        longer[i].1,
        longer[i + 1].0,
        longer[i + 1].1,
    ) by {
        if i < path.len() - 1 {
            assert(longer[i] == path[i]);
            assert(longer[i + 1] == path[i + 1]);
        }
    }
    assert(is_chain(b, longer));
    assert(longer[0] == (x, y) && longer.last() == (qx, qy));
}

/// Every point of a group lies on the board and holds what the first point holds.
pub proof fn lemma_connected_same(b: BoardView, x: int, y: int, px: int, py: int)
    requires
        connected(b, x, y, px, py),
    ensures
        b.on_board(x, y),
        b.on_board(px, py),
        b.at(px, py) == b.at(x, y),
{
    let path = choose|path: Seq<(int, int)>|
        #![trigger is_chain(b, path)]
        is_chain(b, path) && path[0] == (x, y) && path.last() == (px, py);
    assert(path[0] == (x, y));
    assert(path[path.len() - 1] == (px, py));
}

/// A set of points that holds the first point of a chain, and with each of its
/// points the neighbours that hold the same, holds the whole chain.
pub proof fn lemma_chain_stays_inside(
    b: BoardView,
    path: Seq<(int, int)>,
    inside: spec_fn(int, int) -> bool,
)
    requires
        is_chain(b, path),
        inside(path[0].0, path[0].1),
        forall|px: int, py: int, qx: int, qy: int|
            #![trigger inside(px, py), inside(qx, qy)]
            inside(px, py) && b.on_board(qx, qy) && adjacent(px, py, qx, qy) && b.at(qx, qy)
                == b.at(path[0].0, path[0].1) ==> inside(qx, qy),
    ensures
        inside(path.last().0, path.last().1),
    decreases path.len(),
{
    if path.len() > 1 {
        let shorter = path.drop_last();
        assert forall|i: int| 0 <= i < shorter.len() implies b.on_board(
            (#[trigger] shorter[i]).0,
            shorter[i].1,
        ) && b.at(shorter[i].0, shorter[i].1) == b.at(shorter[0].0, shorter[0].1) by {
            assert(shorter[i] == path[i]);
            assert(shorter[0] == path[0]);
        }
        assert forall|i: int| 0 <= i < shorter.len() - 1 implies adjacent(
            (#[trigger] shorter[i]).0,
            shorter[i].1,
            shorter[i + 1].0,
            shorter[i + 1].1,
        ) by {
            assert(shorter[i] == path[i]);
            assert(shorter[i + 1] == path[i + 1]);
        }
        assert(shorter[0] == path[0]);
        lemma_chain_stays_inside(b, shorter, inside);
        let n = path.len() as int;
        assert(shorter.last() == path[n - 2]);
        assert(adjacent(path[n - 2].0, path[n - 2].1, path[n - 2 + 1].0, path[n - 2 + 1].1));
        assert(b.on_board(path[n - 1].0, path[n - 1].1));
    }
}

/// The first points of a chain form a chain: every point of a chain belongs
/// to the group of the first.
pub proof fn lemma_chain_prefix(b: BoardView, path: Seq<(int, int)>, i: int)
    requires
        is_chain(b, path),
        0 <= i < path.len(),
    ensures
        connected(b, path[0].0, path[0].1, path[i].0, path[i].1),
{
    let first = path.take(i + 1);
    assert forall|k: int| 0 <= k < first.len() implies b.on_board(
        (#[trigger] first[k]).0,
        first[k].1,
    ) && b.at(first[k].0, first[k].1) == b.at(first[0].0, first[0].1) by {
        assert(first[k] == path[k]);
        assert(first[0] == path[0]);
    }
    assert forall|k: int| 0 <= k < first.len() - 1 implies adjacent(
        (#[trigger] first[k]).0,
        first[k].1,
        first[k + 1].0,
        first[k + 1].1,
    ) by {
        assert(first[k] == path[k]);
        assert(first[k + 1] == path[k + 1]);
    }
    assert(is_chain(b, first));
    assert(first[0] == path[0] && first.last() == path[i]);
}

/// If a point belongs to the group of another, that one belongs to its group.
pub proof fn lemma_connected_back(b: BoardView, x: int, y: int, px: int, py: int)
    requires
        connected(b, x, y, px, py),
    ensures
        connected(b, px, py, x, y),
{
    let path = choose|path: Seq<(int, int)>|
        #![trigger is_chain(b, path)]
        is_chain(b, path) && path[0] == (x, y) && path.last() == (px, py);
    let n = path.len() as int;
    let back = Seq::new(path.len(), |k: int| path[n - 1 - k]);
    assert(path[0] == (x, y));
    assert(path[n - 1] == (px, py));
    assert forall|k: int| 0 <= k < back.len() implies b.on_board((#[trigger] back[k]).0, back[k].1)
        && b.at(back[k].0, back[k].1) == b.at(back[0].0, back[0].1) by {
        assert(back[k] == path[n - 1 - k]);
        assert(back[0] == path[n - 1]);
    }
    assert forall|k: int| 0 <= k < back.len() - 1 implies adjacent(
        (#[trigger] back[k]).0,
        back[k].1,
        back[k + 1].0,
        back[k + 1].1,
    ) by {
        assert(back[k] == path[n - 1 - k]);
        assert(back[k + 1] == path[n - 2 - k]);
        assert(adjacent(
            path[n - 2 - k].0,
            path[n - 2 - k].1,
            path[n - 2 - k + 1].0,
            path[n - 2 - k + 1].1,
        ));
    }
    assert(is_chain(b, back));
    assert(back[0] == (px, py) && back.last() == (x, y));
}

/// The group of a point holds the group of each of its points.
pub proof fn lemma_connected_on(
    b: BoardView,
    x: int,
    y: int,
    mx: int,
    my: int,
    px: int,
    py: int,
)
    requires
        connected(b, x, y, mx, my),
        connected(b, mx, my, px, py),
    ensures
        connected(b, x, y, px, py),
{
    let p1 = choose|path: Seq<(int, int)>|
        #![trigger is_chain(b, path)]
        is_chain(b, path) && path[0] == (x, y) && path.last() == (mx, my);
    let p2 = choose|path: Seq<(int, int)>|
        #![trigger is_chain(b, path)]
        is_chain(b, path) && path[0] == (mx, my) && path.last() == (px, py);
    let n1 = p1.len() as int;
    let whole = p1 + p2.drop_first();
    assert(p1[0] == (x, y));
    assert(p1[n1 - 1] == (mx, my));
    assert(p2[0] == (mx, my));
    assert(p2[p2.len() - 1] == (px, py));
    assert forall|k: int| 0 <= k < whole.len() implies b.on_board(
        (#[trigger] whole[k]).0,
        whole[k].1,
    ) && b.at(whole[k].0, whole[k].1) == b.at(whole[0].0, whole[0].1) by {
        assert(whole[0] == p1[0]);
        if k < n1 {
            assert(whole[k] == p1[k]);
        } else {
            assert(whole[k] == p2[k - n1 + 1]);
        }
    }
    assert forall|k: int| 0 <= k < whole.len() - 1 implies adjacent(
        (#[trigger] whole[k]).0,
        whole[k].1,
        whole[k + 1].0,
        whole[k + 1].1,
    ) by {
        if k < n1 - 1 {
            assert(whole[k] == p1[k]);
            assert(whole[k + 1] == p1[k + 1]);
        } else if k == n1 - 1 {
            assert(whole[k] == p2[0]);
            assert(whole[k + 1] == p2[1]);
        } else {
            assert(whole[k] == p2[k - n1 + 1]);
            assert(whole[k + 1] == p2[k - n1 + 1 + 1]);
        }
    }
    assert(is_chain(b, whole));
    if p2.len() == 1 {
        assert(whole =~= p1);
    } else {
        assert(whole.last() == p2[p2.len() - 1]);
    }
    assert(whole[0] == (x, y) && whole.last() == (px, py));
}

/// What `neighbours` holds: the points of the board next to `(x, y)`, each with its stone.
pub proof fn lemma_neighbours(b: BoardView, x: int, y: int)
    requires
        b.wf(),
    ensures
        neighbours(b, x, y).len() <= 4,
        forall|k: int|
            0 <= k < neighbours(b, x, y).len() ==> {
                let p = #[trigger] neighbours(b, x, y)[k];
                &&& b.on_board(p.x as int, p.y as int)
                &&& adjacent(x, y, p.x as int, p.y as int)
                &&& p.stone == b.at(p.x as int, p.y as int)
            },
        forall|a: int, c: int|
            b.on_board(a, c) && adjacent(x, y, a, c) ==> exists|k: int|
                0 <= k < neighbours(b, x, y).len() && (#[trigger] neighbours(b, x, y)[k]).x == a
                    && neighbours(b, x, y)[k].y == c,
{
    let n1 = point_if_on_board(b, x - 1, y);
    let n2 = point_if_on_board(b, x + 1, y);
    let n3 = point_if_on_board(b, x, y - 1);
    let n4 = point_if_on_board(b, x, y + 1);
    let ns = neighbours(b, x, y);
    assert(ns == n1 + n2 + n3 + n4);
    assert forall|a: int, c: int| b.on_board(a, c) && adjacent(x, y, a, c) implies exists|k: int|
        0 <= k < ns.len() && (#[trigger] ns[k]).x == a && ns[k].y == c by {
        if a == x - 1 {
            assert(ns[0].x == a && ns[0].y == c);
        } else if a == x + 1 {
            let k = n1.len() as int;
            assert(ns[k].x == a && ns[k].y == c);
        } else if c == y - 1 {
            let k = (n1.len() + n2.len()) as int;
            assert(ns[k].x == a && ns[k].y == c);
        } else {
            let k = (n1.len() + n2.len() + n3.len()) as int;
            assert(ns[k].x == a && ns[k].y == c);
        }
    }
}

/// Appends the point `(a, c)` with its stone, if it lies on the board.
fn push_if_on_board(board: &Board, ret: &mut Vec<Point>, a: usize, c: usize)
    requires
        board.wf(),
    ensures
        final(ret)@ == old(ret)@ + point_if_on_board(board@, a as int, c as int),
{
    match board.at(a, c) {
        Ok(stone) => {
            ret.push(Point::new(stone, a, c));
            assert(ret@ =~= old(ret)@ + point_if_on_board(board@, a as int, c as int));
        },
        Err(_) => {
            assert(ret@ =~= old(ret)@ + point_if_on_board(board@, a as int, c as int));
        },
    }
}

/// The points next to `(x, y)` that lie on the board, each with its stone:
/// left, right, above, below.
pub fn neighbour_at(board: &Board, x: usize, y: usize) -> (ret: Vec<Point>)
    requires
        board.wf(),
    ensures
        ret@ == neighbours(board@, x as int, y as int),
{
    let ghost b = board@;
    let mut ret: Vec<Point> = Vec::new();
    if x > 0 {
        push_if_on_board(board, &mut ret, x - 1, y);
    }
    assert(ret@ =~= point_if_on_board(b, x - 1, y as int));
    let ghost r1 = ret@;
    if x < usize::MAX {
        push_if_on_board(board, &mut ret, x + 1, y);
    }
    assert(ret@ =~= r1 + point_if_on_board(b, x + 1, y as int));
    let ghost r2 = ret@;
    if y > 0 {
        push_if_on_board(board, &mut ret, x, y - 1);
    }
    assert(ret@ =~= r2 + point_if_on_board(b, x as int, y - 1));
    let ghost r3 = ret@;
    if y < usize::MAX {
        push_if_on_board(board, &mut ret, x, y + 1);
    }
    assert(ret@ =~= r3 + point_if_on_board(b, x as int, y + 1));
    ret
}

/// What holds of the points gathered so far while a group is being collected:
/// each belongs to the group and is flagged, each flagged point was gathered,
/// and none was gathered twice.
#[verifier::opaque]
spec fn gathered(b: BoardView, x: int, y: int, ret: Seq<Point>, seen: Seq<bool>) -> bool {
    &&& seen.len() == 361
    &&& ret.len() >= 1
    &&& ret[0] == (Point { stone: b.at(x, y), x: x as usize, y: y as usize })
    &&& forall|m: int|
        0 <= m < ret.len() ==> {
            let p = #[trigger] ret[m];
            &&& p.stone == b.at(x, y)
            &&& connected(b, x, y, p.x as int, p.y as int)
            &&& seen[b.index_of(p.x as int, p.y as int)]
        }
    &&& forall|a: int, c: int|
        b.on_board(a, c) && seen[#[trigger] b.index_of(a, c)] ==> exists|m: int|
            0 <= m < ret.len() && (#[trigger] ret[m]).x == a && ret[m].y == c
    &&& forall|m1: int, m2: int|
        0 <= m1 < m2 < ret.len() ==> !((#[trigger] ret[m1]).x == (#[trigger] ret[m2]).x
            && ret[m1].y == ret[m2].y)
}

/// Whether every neighbour of `(px, py)` that holds `stone` is flagged.
#[verifier::opaque]
spec fn surrounded(b: BoardView, stone: Stone, seen: Seq<bool>, px: int, py: int) -> bool {
    forall|a: int, c: int|
        b.on_board(a, c) && adjacent(px, py, a, c) && b.at(a, c) == stone ==> seen[#[trigger] b.index_of(
            a,
            c,
        )]
}

/// Whether the first `i` of the gathered points have all their like neighbours flagged.
spec fn closed_up_to(b: BoardView, stone: Stone, ret: Seq<Point>, seen: Seq<bool>, i: int) -> bool {
    forall|m: int|
        0 <= m < i ==> surrounded(b, stone, seen, (#[trigger] ret[m]).x as int, ret[m].y as int)
}

/// Flags that are set for cells of the board only are no more than its cells.
proof fn lemma_found_bound(found: Set<int>, cells: int)
    requires
        found.finite(),
        cells >= 0,
        forall|j: int| found.contains(j) ==> 0 <= j < cells,
    ensures
        found.len() <= cells,
{
    vstd::set_lib::lemma_int_range(0, cells);
    vstd::set_lib::lemma_len_subset(found, vstd::set_lib::set_int_range(0, cells));
}

/// The first point alone, flagged, is a start for gathering its group.
proof fn lemma_gathered_start(b: BoardView, x: int, y: int, seen: Seq<bool>)
    requires
        b.wf(),
        b.on_board(x, y),
        seen.len() == 361,
        forall|j: int| 0 <= j < 361 ==> seen[j] == (j == b.index_of(x, y)),
    ensures
        gathered(b, x, y, seq![Point { stone: b.at(x, y), x: x as usize, y: y as usize }], seen),
{
    reveal(gathered);
    let ret = seq![Point { stone: b.at(x, y), x: x as usize, y: y as usize }];
    lemma_connected_self(b, x, y);
    b.lemma_index_of(x, y);
    assert forall|a: int, c: int| b.on_board(a, c) && seen[#[trigger] b.index_of(a, c)] implies exists|
        m: int,
    |
        0 <= m < ret.len() && (#[trigger] ret[m]).x == a && ret[m].y == c by {
        b.lemma_index_of(a, c);
        b.lemma_index_of_injective(a, c, x, y);
        assert(ret[0].x == a && ret[0].y == c);
    }
}

/// What is known of each gathered point.
proof fn lemma_gathered_member(
    b: BoardView,
    x: int,
    y: int,
    ret: Seq<Point>,
    seen: Seq<bool>,
    m: int,
)
    requires
        b.wf(),
        gathered(b, x, y, ret, seen),
        0 <= m < ret.len(),
    ensures
        seen.len() == 361,
        ret[0] == (Point { stone: b.at(x, y), x: x as usize, y: y as usize }),
        ret[m].stone == b.at(x, y),
        connected(b, x, y, ret[m].x as int, ret[m].y as int),
        b.on_board(ret[m].x as int, ret[m].y as int),
        b.at(ret[m].x as int, ret[m].y as int) == b.at(x, y),
{
    reveal(gathered);
    lemma_connected_same(b, x, y, ret[m].x as int, ret[m].y as int);
}

/// Gathering a point of the group that was not flagged keeps what holds of the gathered,
/// and what was closed stays closed.
proof fn lemma_gathered_push(
    b: BoardView,
    x: int,
    y: int,
    ret: Seq<Point>,
    seen: Seq<bool>,
    np: Point,
    i: int,
)
    requires
        b.wf(),
        gathered(b, x, y, ret, seen),
        closed_up_to(b, b.at(x, y), ret, seen, i),
        0 <= i <= ret.len(),
        b.on_board(x, y),
        b.on_board(np.x as int, np.y as int),
        np.stone == b.at(x, y),
        connected(b, x, y, np.x as int, np.y as int),
        !seen[b.index_of(np.x as int, np.y as int)],
    ensures
        gathered(
            b,
            x,
            y,
            ret.push(np),
            seen.update(b.index_of(np.x as int, np.y as int), true),
        ),
        closed_up_to(
            b,
            b.at(x, y),
            ret.push(np),
            seen.update(b.index_of(np.x as int, np.y as int), true),
            i,
        ),
{
    reveal(gathered);
    reveal(surrounded);
    let j = b.index_of(np.x as int, np.y as int);
    let ret2 = ret.push(np);
    let seen2 = seen.update(j, true);
    b.lemma_index_of(np.x as int, np.y as int);
    assert forall|m: int| 0 <= m < ret2.len() implies {
        let p = #[trigger] ret2[m];
        &&& p.stone == b.at(x, y)
        &&& connected(b, x, y, p.x as int, p.y as int)
        &&& seen2[b.index_of(p.x as int, p.y as int)]
    } by {
        if m < ret.len() {
            assert(ret2[m] == ret[m]);
            lemma_connected_same(b, x, y, ret[m].x as int, ret[m].y as int);
            b.lemma_index_of(ret[m].x as int, ret[m].y as int);
        }
    }
    assert forall|a: int, c: int| b.on_board(a, c) && seen2[#[trigger] b.index_of(a, c)] implies exists|
        m: int,
    |
        0 <= m < ret2.len() && (#[trigger] ret2[m]).x == a && ret2[m].y == c by {
        b.lemma_index_of(a, c);
        if b.index_of(a, c) == j {
            b.lemma_index_of_injective(a, c, np.x as int, np.y as int);
            assert(ret2[ret.len() as int].x == a);
        } else {
            assert(seen[b.index_of(a, c)]);
            let m = choose|m: int| 0 <= m < ret.len() && (#[trigger] ret[m]).x == a && ret[m].y == c;
            assert(ret2[m] == ret[m]);
        }
    }
    assert forall|m1: int, m2: int| 0 <= m1 < m2 < ret2.len() implies !((#[trigger] ret2[m1]).x == (
    #[trigger] ret2[m2]).x && ret2[m1].y == ret2[m2].y) by {
        assert(ret2[m1] == ret[m1]);
        if m2 < ret.len() {
            assert(ret2[m2] == ret[m2]);
        }
    }
    assert forall|m: int| 0 <= m < i implies surrounded(
        b,
        b.at(x, y),
        seen2,
        (#[trigger] ret2[m]).x as int,
        ret2[m].y as int,
    ) by {
        assert(ret2[m] == ret[m]);
        assert(surrounded(b, b.at(x, y), seen, ret[m].x as int, ret[m].y as int));
        assert forall|a: int, c: int|
            b.on_board(a, c) && adjacent(ret[m].x as int, ret[m].y as int, a, c) && b.at(a, c)
                == b.at(x, y) implies seen2[#[trigger] b.index_of(a, c)] by {
            b.lemma_index_of(a, c);
        }
    }
}

/// Once every neighbour in `ns`, the neighbours of the gathered point `i`, that holds
/// the same is flagged, that point is closed too.
proof fn lemma_closed_next(
    b: BoardView,
    stone: Stone,
    ret: Seq<Point>,
    seen: Seq<bool>,
    i: int,
    ns: Seq<Point>,
)
    requires
        b.wf(),
        0 <= i < ret.len(),
        closed_up_to(b, stone, ret, seen, i),
        ns == neighbours(b, ret[i].x as int, ret[i].y as int),
        forall|n: int|
            0 <= n < ns.len() && (#[trigger] ns[n]).stone == stone ==> seen[b.index_of(
                ns[n].x as int,
                ns[n].y as int,
            )],
    ensures
        closed_up_to(b, stone, ret, seen, i + 1),
{
    reveal(surrounded);
    let px = ret[i].x as int;
    let py = ret[i].y as int;
    lemma_neighbours(b, px, py);
    assert forall|a: int, c: int|
        b.on_board(a, c) && adjacent(px, py, a, c) && b.at(a, c) == stone implies seen[#[trigger] b.index_of(
        a,
        c,
    )] by {
        let n = choose|n: int| 0 <= n < ns.len() && (#[trigger] ns[n]).x == a && ns[n].y == c;
        assert(ns[n].stone == stone);
    }
    assert(surrounded(b, stone, seen, px, py));
}

/// When every gathered point is closed, the gathered points are the whole group.
proof fn lemma_gathered_all(b: BoardView, x: int, y: int, ret: Seq<Point>, seen: Seq<bool>)
    requires
        b.wf(),
        b.on_board(x, y),
        gathered(b, x, y, ret, seen),
        closed_up_to(b, b.at(x, y), ret, seen, ret.len() as int),
    ensures
        ret.len() >= 1,
        ret[0] == (Point { stone: b.at(x, y), x: x as usize, y: y as usize }),
        forall|m: int|
            0 <= m < ret.len() ==> (#[trigger] ret[m]).stone == b.at(x, y) && connected(
                b,
                x,
                y,
                ret[m].x as int,
                ret[m].y as int,
            ),
        forall|a: int, c: int|
            connected(b, x, y, a, c) ==> exists|m: int|
                0 <= m < ret.len() && (#[trigger] ret[m]).x == a && ret[m].y == c,
        forall|m1: int, m2: int|
            0 <= m1 < m2 < ret.len() ==> !((#[trigger] ret[m1]).x == (#[trigger] ret[m2]).x
                && ret[m1].y == ret[m2].y),
{
    reveal(gathered);
    let stone = b.at(x, y);
    let inside = |a: int, c: int| b.on_board(a, c) && seen[b.index_of(a, c)];
    assert forall|a: int, c: int| connected(b, x, y, a, c) implies exists|m: int|
        0 <= m < ret.len() && (#[trigger] ret[m]).x == a && ret[m].y == c by {
        let path = choose|path: Seq<(int, int)>|
            #![trigger is_chain(b, path)]
            is_chain(b, path) && path[0] == (x, y) && path.last() == (a, c);
        assert(ret[0].x == x);
        b.lemma_index_of(x, y);
        assert(inside(path[0].0, path[0].1));
        assert forall|p1: int, p2: int, q1: int, q2: int|
            #![trigger inside(p1, p2), inside(q1, q2)]
            inside(p1, p2) && b.on_board(q1, q2) && adjacent(p1, p2, q1, q2) && b.at(q1, q2)
                == b.at(path[0].0, path[0].1) implies inside(q1, q2) by {
            let m = choose|m: int|
                0 <= m < ret.len() && (#[trigger] ret[m]).x == p1 && ret[m].y == p2;
            assert(surrounded(b, stone, seen, ret[m].x as int, ret[m].y as int));
            reveal(surrounded);
        }
        lemma_chain_stays_inside(b, path, inside);
        lemma_connected_same(b, x, y, a, c);
    }
}

/// The group of `(x, y)`, which must lie on the board: every point that a chain
/// of points holding the same joins to it, each once, `(x, y)` first.
pub fn get_block(board: &Board, x: usize, y: usize) -> (ret: Vec<Point>)
    requires
        board.wf(),
        board@.on_board(x as int, y as int),
    ensures
        1 <= ret@.len() <= board@.cells.len(),
        ret@[0] == (Point { stone: board@.at(x as int, y as int), x, y }),
        forall|m: int|
            0 <= m < ret@.len() ==> (#[trigger] ret@[m]).stone == board@.at(x as int, y as int)
                && connected(board@, x as int, y as int, ret@[m].x as int, ret@[m].y as int),
        forall|a: int, c: int|
            connected(board@, x as int, y as int, a, c) ==> exists|m: int|
                0 <= m < ret@.len() && (#[trigger] ret@[m]).x == a && ret@[m].y == c,
        forall|m1: int, m2: int|
            0 <= m1 < m2 < ret@.len() ==> !((#[trigger] ret@[m1]).x == (#[trigger] ret@[m2]).x
                && ret@[m1].y == ret@[m2].y),
{
    let ghost b = board@;
    proof {
        b.lemma_index_of(x as int, y as int);
    }
    let stone = board.at(x, y).unwrap();
    let mut ret: Vec<Point> = Vec::new();
    let mut seen: [bool; 361] = [false; 361];
    let start = board.point_to_index(x, y).unwrap();
    seen[start] = true;
    ret.push(Point::new(stone, x, y));
    let ghost mut found: Set<int> = Set::empty().insert(start as int);
    proof {
        lemma_gathered_start(b, x as int, y as int, seen@);
        assert(ret@ =~= seq![Point { stone: b.at(x as int, y as int), x, y }]);
    }
    let mut i: usize = 0;
    while i < ret.len()
        invariant
            board.wf(),
            b == board@,
            b.on_board(x as int, y as int),
            stone == b.at(x as int, y as int),
            gathered(b, x as int, y as int, ret@, seen@),
            closed_up_to(b, stone, ret@, seen@, i as int),
            0 <= i <= ret@.len() <= b.cells.len() <= 361,
            found.finite(),
            found.len() == ret@.len(),
            forall|j: int| found.contains(j) ==> 0 <= j < b.cells.len() && seen@[j],
        decreases b.cells.len() - i,
    {
        let px = ret[i].x;
        let py = ret[i].y;
        proof {
            lemma_gathered_member(b, x as int, y as int, ret@, seen@, i as int);
        }
        let ns = neighbour_at(board, px, py);
        let mut k: usize = 0;
        while k < ns.len()
            invariant
                board.wf(),
                b == board@,
                b.on_board(x as int, y as int),
                b.on_board(px as int, py as int),
                stone == b.at(x as int, y as int),
                connected(b, x as int, y as int, px as int, py as int),
                ns@ == neighbours(b, px as int, py as int),
                gathered(b, x as int, y as int, ret@, seen@),
                closed_up_to(b, stone, ret@, seen@, i as int),
                0 <= i < ret@.len() <= b.cells.len() <= 361,
                ret@[i as int].x == px,
                ret@[i as int].y == py,
                0 <= k <= ns@.len(),
                seen@.len() == 361,
                forall|n: int|
                    0 <= n < k && (#[trigger] ns@[n]).stone == stone ==> seen@[b.index_of(
                        ns@[n].x as int,
                        ns@[n].y as int,
                    )],
                found.finite(),
                found.len() == ret@.len(),
                forall|j: int| found.contains(j) ==> 0 <= j < b.cells.len() && seen@[j],
            decreases ns@.len() - k,
        {
            let np = ns[k];
            let ghost seen_before = seen@;
            proof {
                lemma_neighbours(b, px as int, py as int);
                b.lemma_index_of(np.x as int, np.y as int);
            }
            if np.stone == stone {
                let j = board.point_to_index(np.x, np.y).unwrap();
                if !seen[j] {
                    let ghost old_seen = seen@;
                    let ghost old_ret = ret@;
                    seen[j] = true;
                    ret.push(np);
                    proof {
                        found = found.insert(j as int);
                        lemma_connected_step(
                            b,
                            x as int,
                            y as int,
                            px as int,
                            py as int,
                            np.x as int,
                            np.y as int,
                        );
                        lemma_gathered_push(b, x as int, y as int, old_ret, old_seen, np, i as int);
                        lemma_found_bound(found, b.cells.len() as int);
                        assert(ret@[i as int] == old_ret[i as int]);
                    }
                }
            }
            proof {
                assert forall|n: int|
                    0 <= n < k + 1 && (#[trigger] ns@[n]).stone == stone implies seen@[b.index_of(
                    ns@[n].x as int,
                    ns@[n].y as int,
                )] by {
                    b.lemma_index_of(ns@[n].x as int, ns@[n].y as int);
                    if n < k {
                        assert(seen_before[b.index_of(ns@[n].x as int, ns@[n].y as int)]);
                    }
                }
            }
            k += 1;
        }
        proof {
            lemma_closed_next(b, stone, ret@, seen@, i as int, ns@);
        }
        i += 1;
    }
    proof {
        lemma_gathered_all(b, x as int, y as int, ret@, seen@);
    }
    ret
}

/// What holds of the liberties marked so far while they are being counted:
/// `libs` holds the marked points, and each of them is a liberty of the group.
#[verifier::opaque]
spec fn marked(b: BoardView, x: int, y: int, marks: Seq<bool>, libs: Set<(int, int)>) -> bool {
    &&& marks.len() == 361
    &&& libs.finite()
    &&& forall|q: (int, int)| #[trigger]
        libs.contains(q) <==> b.on_board(q.0, q.1) && marks[b.index_of(q.0, q.1)]
    &&& forall|q: (int, int)| #[trigger] libs.contains(q) ==> is_liberty_of(b, x, y, q.0, q.1)
}

/// With no mark set, no liberty has been counted.
proof fn lemma_marked_start(b: BoardView, x: int, y: int, marks: Seq<bool>)
    requires
        b.wf(),
        marks.len() == 361,
        forall|j: int| 0 <= j < 361 ==> !marks[j],
    ensures
        marked(b, x, y, marks, Set::empty()),
        closed_up_to(b, Stone::Empty, Seq::<Point>::empty(), marks, 0),
{
    reveal(marked);
    assert forall|q: (int, int)| b.on_board(q.0, q.1) implies !marks[b.index_of(q.0, q.1)] by {
        b.lemma_index_of(q.0, q.1);
    }
}

/// Marking an empty neighbour of a point of the group counts one more liberty.
proof fn lemma_marked_add(
    b: BoardView,
    x: int,
    y: int,
    block: Seq<Point>,
    marks: Seq<bool>,
    libs: Set<(int, int)>,
    i: int,
    px: int,
    py: int,
    qx: int,
    qy: int,
)
    requires
        b.wf(),
        marked(b, x, y, marks, libs),
        closed_up_to(b, Stone::Empty, block, marks, i),
        connected(b, x, y, px, py),
        b.on_board(qx, qy),
        adjacent(px, py, qx, qy),
        b.at(qx, qy) == Stone::Empty,
        !marks[b.index_of(qx, qy)],
    ensures
        marked(b, x, y, marks.update(b.index_of(qx, qy), true), libs.insert((qx, qy))),
        closed_up_to(b, Stone::Empty, block, marks.update(b.index_of(qx, qy), true), i),
        libs.insert((qx, qy)).len() == libs.len() + 1,
        libs.finite(),
{
    reveal(marked);
    reveal(surrounded);
    let j = b.index_of(qx, qy);
    let marks2 = marks.update(j, true);
    let libs2 = libs.insert((qx, qy));
    b.lemma_index_of(qx, qy);
    assert(!libs.contains((qx, qy)));
    assert(is_liberty_of(b, x, y, qx, qy)) by {
        let p = (px, py);
        assert(connected(b, x, y, p.0, p.1) && adjacent(p.0, p.1, qx, qy));
    }
    assert forall|q: (int, int)| #[trigger]
        libs2.contains(q) <==> b.on_board(q.0, q.1) && marks2[b.index_of(q.0, q.1)] by {
        if b.on_board(q.0, q.1) {
            b.lemma_index_of(q.0, q.1);
            if b.index_of(q.0, q.1) == j {
                b.lemma_index_of_injective(q.0, q.1, qx, qy);
            }
        }
    }
    assert forall|m: int| 0 <= m < i implies surrounded(
        b,
        Stone::Empty,
        marks2,
        (#[trigger] block[m]).x as int,
        block[m].y as int,
    ) by {
        assert(surrounded(b, Stone::Empty, marks, block[m].x as int, block[m].y as int));
        assert forall|a: int, c: int|
            b.on_board(a, c) && adjacent(block[m].x as int, block[m].y as int, a, c) && b.at(a, c)
                == Stone::Empty implies marks2[#[trigger] b.index_of(a, c)] by {
            b.lemma_index_of(a, c);
        }
    }
}

/// When the empty neighbours of every point of the group are marked, the marked
/// points are the liberties of the group.
proof fn lemma_marked_all(
    b: BoardView,
    x: int,
    y: int,
    block: Seq<Point>,
    marks: Seq<bool>,
    libs: Set<(int, int)>,
)
    requires
        b.wf(),
        marked(b, x, y, marks, libs),
        closed_up_to(b, Stone::Empty, block, marks, block.len() as int),
        forall|a: int, c: int|
            connected(b, x, y, a, c) ==> exists|m: int|
                0 <= m < block.len() && (#[trigger] block[m]).x == a && block[m].y == c,
    ensures
        libs == liberty_points(b, x, y),
{
    reveal(marked);
    assert forall|q: (int, int)| is_liberty_of(b, x, y, q.0, q.1) implies libs.contains(q) by {
        let p = choose|p: (int, int)|
            #![trigger connected(b, x, y, p.0, p.1)]
            connected(b, x, y, p.0, p.1) && adjacent(p.0, p.1, q.0, q.1);
        let m = choose|m: int|
            0 <= m < block.len() && (#[trigger] block[m]).x == p.0 && block[m].y == p.1;
        assert(surrounded(b, Stone::Empty, marks, block[m].x as int, block[m].y as int));
        reveal(surrounded);
        assert(marks[b.index_of(q.0, q.1)]);
    }
    assert(libs =~= liberty_points(b, x, y));
}

/// The number of liberties of the group of `(x, y)`, which must lie on the
/// board: the empty points next to a point of the group, each counted once.
pub fn calc_liberty(board: &Board, x: usize, y: usize) -> (liberty: usize)
    requires
        board.wf(),
        board@.on_board(x as int, y as int),
    ensures
        liberty == liberties(board@, x as int, y as int),
{
    let ghost b = board@;
    let block = get_block(board, x, y);
    let mut marks: [bool; 361] = [false; 361];
    let mut liberty: usize = 0;
    let ghost mut libs: Set<(int, int)> = Set::empty();
    proof {
        lemma_marked_start(b, x as int, y as int, marks@);
        b.lemma_index_of(x as int, y as int);
        reveal(marked);
    }
    let mut i: usize = 0;
    while i < block.len()
        invariant
            board.wf(),
            b == board@,
            0 <= i <= block@.len() <= 361,
            forall|m: int|
                0 <= m < block@.len() ==> connected(
                    b,
                    x as int,
                    y as int,
                    (#[trigger] block@[m]).x as int,
                    block@[m].y as int,
                ),
            marked(b, x as int, y as int, marks@, libs),
            closed_up_to(b, Stone::Empty, block@, marks@, i as int),
            libs.finite(),
            liberty == libs.len(),
            liberty <= 4 * i,
        decreases block@.len() - i,
    {
        let px = block[i].x;
        let py = block[i].y;
        proof {
            lemma_connected_same(b, x as int, y as int, px as int, py as int);
            lemma_neighbours(b, px as int, py as int);
        }
        let ns = neighbour_at(board, px, py);
        let mut k: usize = 0;
        while k < ns.len()
            invariant
                board.wf(),
                b == board@,
                0 <= i < block@.len() <= 361,
                block@[i as int].x == px,
                block@[i as int].y == py,
                b.on_board(px as int, py as int),
                connected(b, x as int, y as int, px as int, py as int),
                ns@ == neighbours(b, px as int, py as int),
                0 <= k <= ns@.len() <= 4,
                marks@.len() == 361,
                marked(b, x as int, y as int, marks@, libs),
                closed_up_to(b, Stone::Empty, block@, marks@, i as int),
                forall|n: int|
                    0 <= n < k && (#[trigger] ns@[n]).stone == Stone::Empty ==> marks@[b.index_of(
                        ns@[n].x as int,
                        ns@[n].y as int,
                    )],
                libs.finite(),
                liberty == libs.len(),
                liberty <= 4 * i + k,
            decreases ns@.len() - k,
        {
            let np = ns[k];
            let ghost marks_before = marks@;
            proof {
                lemma_neighbours(b, px as int, py as int);
                b.lemma_index_of(np.x as int, np.y as int);
            }
            if np.stone == Stone::Empty {
                let j = board.point_to_index(np.x, np.y).unwrap();
                if !marks[j] {
                    proof {
                        lemma_marked_add(
                            b,
                            x as int,
                            y as int,
                            block@,
                            marks@,
                            libs,
                            i as int,
                            px as int,
                            py as int,
                            np.x as int,
                            np.y as int,
                        );
                        libs = libs.insert((np.x as int, np.y as int));
                    }
                    marks[j] = true;
                    liberty += 1;
                }
            }
            proof {
                assert forall|n: int|
                    0 <= n < k + 1 && (#[trigger] ns@[n]).stone == Stone::Empty implies marks@[b.index_of(
                    ns@[n].x as int,
                    ns@[n].y as int,
                )] by {
                    b.lemma_index_of(ns@[n].x as int, ns@[n].y as int);
                    if n < k {
                        assert(marks_before[b.index_of(ns@[n].x as int, ns@[n].y as int)]);
                    }
                }
            }
            k += 1;
        }
        proof {
            lemma_closed_next(b, Stone::Empty, block@, marks@, i as int, ns@);
        }
        i += 1;
    }
    proof {
        lemma_marked_all(b, x as int, y as int, block@, marks@, libs);
    }
    liberty
}

} // verus!
