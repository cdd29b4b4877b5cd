//! Board codes: a board packed two bits to the point, to be compared and kept.

use vstd::prelude::*;
use crate::basic::board::{Board, BoardSize, BoardView, Stone};

verus! {

/// A board packed into words, two bits to the point: 0 for an empty point,
/// 1 for a black stone, 2 for a white one. The points are taken row by row,
/// 64 to a word, an earlier point in higher bits, the last point of each word
/// in its two lowest bits.
#[derive(Clone, Copy, Debug, PartialEq, Eq, Structural)]
pub enum BoardZip {
    /// The 361 points of 19 lines: five full words and one of 41 points.
    NormalBoardZip(u128, u128, u128, u128, u128, u128),
    /// The 169 points of 13 lines: two full words and one of 41 points.
    MediumBoardZip(u128, u128, u128),
    /// The 81 points of 9 lines: one full word and one of 17 points.
    SmallBoardZip(u128, u64),
}

/// The two bits that stand for a point.
pub open spec fn stone_val(stone: Stone) -> nat {
    match stone {
        Stone::Empty => 0,
        Stone::Black => 1,
        Stone::White => 2,
    }
}

/// What two bits stand for; the pattern 3, which no board gives, reads as empty.
pub open spec fn val_stone(v: nat) -> Stone {
    if v % 4 == 1 {
        Stone::Black
    } else if v % 4 == 2 {
        Stone::White
    } else {
        Stone::Empty
    }
}

/// 4 to the power `k`.
pub open spec fn pow4(k: nat) -> nat
    decreases k,
{
    if k == 0 {
        1
    } else {
        4 * pow4((k - 1) as nat)
    }
}

/// The number whose digits to the base 4 are the points of `cells`, the first
/// point in the highest place.
pub open spec fn pack(cells: Seq<Stone>) -> nat
    decreases cells.len(),
{
    if cells.len() == 0 {
        0
    } else {
        4 * pack(cells.drop_last()) + stone_val(cells.last())
    }
}

/// The `n` points that the lowest `n` digits of `d` to the base 4 stand for,
/// the highest of them first.
pub open spec fn unpack(d: nat, n: nat) -> Seq<Stone> {
    Seq::new(n, |i: int| val_stone(d / pow4((n - 1 - i) as nat) % 4))
}

/// The code of a board.
pub open spec fn spec_zip(b: BoardView) -> BoardZip {
    if b.size == 19 {
        BoardZip::NormalBoardZip(
            pack(b.cells.subrange(0, 64)) as u128,
            pack(b.cells.subrange(64, 128)) as u128,
            pack(b.cells.subrange(128, 192)) as u128,
            pack(b.cells.subrange(192, 256)) as u128,
            pack(b.cells.subrange(256, 320)) as u128,
            pack(b.cells.subrange(320, 361)) as u128,
        )
    } else if b.size == 13 {
        BoardZip::MediumBoardZip(
            pack(b.cells.subrange(0, 64)) as u128,
            pack(b.cells.subrange(64, 128)) as u128,
            pack(b.cells.subrange(128, 169)) as u128,
        )
    } else {
        BoardZip::SmallBoardZip(
            pack(b.cells.subrange(0, 64)) as u128,
            pack(b.cells.subrange(64, 81)) as u64,
        )
    }
}

/// The board that a code stands for.
pub open spec fn spec_unzip(zip: BoardZip) -> BoardView {
    match zip {
        BoardZip::NormalBoardZip(d1, d2, d3, d4, d5, d6) => BoardView {
            size: 19,
            cells: unpack(d1 as nat, 64) + unpack(d2 as nat, 64) + unpack(d3 as nat, 64) + unpack(
                d4 as nat,
                64,
            ) + unpack(d5 as nat, 64) + unpack(d6 as nat, 41),
        },
        BoardZip::MediumBoardZip(d1, d2, d3) => BoardView {
            size: 13,
            cells: unpack(d1 as nat, 64) + unpack(d2 as nat, 64) + unpack(d3 as nat, 41),
        },
        BoardZip::SmallBoardZip(d1, d2) => BoardView {
            size: 9,
            cells: unpack(d1 as nat, 64) + unpack(d2 as nat, 17),
        },
    }
}

/// Powers of 4 multiply as their exponents add.
pub proof fn lemma_pow4_add(a: nat, b: nat)
    ensures
        pow4(a + b) == pow4(a) * pow4(b),
        pow4(a) > 0,
    decreases a,
{
    if a == 0 {
        assert(pow4(0) == 1);
        assert(pow4(a + b) == 1 * pow4(b));
    } else {
        lemma_pow4_add((a - 1) as nat, b);
        assert(pow4(a + b) == 4 * pow4((a - 1 + b) as nat));
        assert(4 * (pow4((a - 1) as nat) * pow4(b)) == (4 * pow4((a - 1) as nat)) * pow4(b))
            by (nonlinear_arith);
    }
}

/// Powers of 4 grow with their exponent.
pub proof fn lemma_pow4_grows(a: nat, b: nat)
    requires
        a <= b,
    ensures
        0 < pow4(a) <= pow4(b),
{
    lemma_pow4_add(a, (b - a) as nat);
    lemma_pow4_add((b - a) as nat, 0);
    assert(pow4(a) <= pow4(a) * pow4((b - a) as nat)) by (nonlinear_arith)
        requires
            pow4(a) > 0,
            pow4((b - a) as nat) > 0,
    ;
}

/// The powers of 4 at which a word of 64 or of 32 points is full.
pub proof fn lemma_pow4_values()
    ensures
        pow4(1) == 4,
        pow4(17) == 0x4_0000_0000,
        pow4(32) == 0x1_0000_0000_0000_0000,
        pow4(63) == 0x4000_0000_0000_0000_0000_0000_0000_0000,
        pow4(64) == 0x1_0000_0000_0000_0000_0000_0000_0000_0000,
{
    assert(pow4(1) == 4) by {
        assert(pow4(0) == 1);
    }
    lemma_pow4_add(1, 1);
    assert(pow4(2) == 16);
    lemma_pow4_add(2, 2);
    assert(pow4(4) == 256);
    lemma_pow4_add(4, 4);
    assert(pow4(8) == 0x1_0000);
    lemma_pow4_add(8, 8);
    assert(pow4(16) == 0x1_0000_0000) by (nonlinear_arith)
        requires
            pow4(16) == pow4(8) * pow4(8),
            pow4(8) == 0x1_0000,
    ;
    lemma_pow4_add(16, 1);
    assert(pow4(17) == 0x4_0000_0000);
    lemma_pow4_add(16, 16);
    assert(pow4(32) == 0x1_0000_0000_0000_0000) by (nonlinear_arith)
        requires
            pow4(32) == pow4(16) * pow4(16),
            pow4(16) == 0x1_0000_0000,
    ;
    lemma_pow4_add(32, 32);
    assert(pow4(64) == 0x1_0000_0000_0000_0000_0000_0000_0000_0000) by (nonlinear_arith)
        requires
            pow4(64) == pow4(32) * pow4(32),
            pow4(32) == 0x1_0000_0000_0000_0000,
    ;
    assert(pow4(64) == 4 * pow4(63));
}

/// A number made of `n` digits is below 4 to the power `n`.
pub proof fn lemma_pack_bound(cells: Seq<Stone>)
    ensures
        pack(cells) < pow4(cells.len()),
    decreases cells.len(),
{
    if cells.len() > 0 {
        lemma_pack_bound(cells.drop_last());
    }
}

/// Each digit of the packed number is the point it was made from.
pub proof fn lemma_pack_digit(cells: Seq<Stone>, i: int)
    requires
        0 <= i < cells.len(),
    ensures
        pack(cells) / pow4((cells.len() - 1 - i) as nat) % 4 == stone_val(cells[i]),
    decreases cells.len(),
{
    let n = cells.len();
    let rest = cells.drop_last();
    let p = pack(rest) as int;
    let v = stone_val(cells.last()) as int;
    let whole = pack(cells) as int;
    assert(whole == p * 4 + v);
    vstd::arithmetic::div_mod::lemma_fundamental_div_mod_converse(whole, 4, p, v);
    if i == n - 1 {
        assert(pow4(0) == 1);
        assert(whole / 1 == whole);
    } else {
        let k = (n - 1 - i) as nat;
        let low = pow4((k - 1) as nat) as int;
        assert(pow4(k) == 4 * low);
        lemma_pow4_grows(0, (k - 1) as nat);
        vstd::arithmetic::div_mod::lemma_div_denominator(whole, 4, low);
        assert(whole / (4 * low) == p / low);
        lemma_pack_digit(rest, i);
        assert(rest[i] == cells[i]);
        assert((rest.len() - 1 - i) as nat == (k - 1) as nat);
    }
}

/// Unpacking what was packed gives the points back.
pub proof fn lemma_unpack_pack(cells: Seq<Stone>)
    ensures
        unpack(pack(cells), cells.len()) == cells,
{
    assert forall|i: int| 0 <= i < cells.len() implies unpack(pack(cells), cells.len())[i]
        == cells[i] by {
        lemma_pack_digit(cells, i);
    }
    assert(unpack(pack(cells), cells.len()) =~= cells);
}

/// Decoding the code of a board gives the board back.
pub proof fn lemma_unzip_zip(b: BoardView)
    requires
        b.wf(),
    ensures
        spec_unzip(spec_zip(b)) == b,
{
    lemma_pow4_values();
    b.lemma_len();
    if b.size == 19 {
        lemma_word(b.cells, 0, 64);
        lemma_word(b.cells, 64, 128);
        lemma_word(b.cells, 128, 192);
        lemma_word(b.cells, 192, 256);
        lemma_word(b.cells, 256, 320);
        lemma_word(b.cells, 320, 361);
        assert(spec_unzip(spec_zip(b)).cells =~= b.cells);
    } else if b.size == 13 {
        lemma_word(b.cells, 0, 64);
        lemma_word(b.cells, 64, 128);
        lemma_word(b.cells, 128, 169);
        assert(spec_unzip(spec_zip(b)).cells =~= b.cells);
    } else {
        lemma_word(b.cells, 0, 64);
        lemma_word(b.cells, 64, 81);
        assert(spec_unzip(spec_zip(b)).cells =~= b.cells);
    }
}

/// Two boards have the same code exactly if they are the same board.
pub proof fn lemma_zip_injective(b1: BoardView, b2: BoardView)
    requires
        b1.wf(),
        b2.wf(),
    ensures
        spec_zip(b1) == spec_zip(b2) <==> b1 == b2,
{
    lemma_unzip_zip(b1);
    lemma_unzip_zip(b2);
}

/// The code of a board.
pub fn zip_board(board: &Board) -> (zip: BoardZip)
    requires
        board.wf(),
    ensures
        zip == spec_zip(board@),
{
    match board.size() {
        BoardSize::Normal => zip_board_normal(board),
        BoardSize::Medium => zip_board_medium(board),
        BoardSize::Small => zip_board_small(board),
    }
}

/// The code of a board of 19 lines.
fn zip_board_normal(board: &Board) -> (zip: BoardZip)
    requires
        board.wf(),
        board@.size == 19,
    ensures
        zip == spec_zip(board@),
{
    proof {
        board@.lemma_len();
    }
    let d1 = zip_stone_128(board, 0, 64);
    let d2 = zip_stone_128(board, 64, 128);
    let d3 = zip_stone_128(board, 128, 192);
    let d4 = zip_stone_128(board, 192, 256);
    let d5 = zip_stone_128(board, 256, 320);
    let d6 = zip_stone_128(board, 320, 361);
    BoardZip::NormalBoardZip(d1, d2, d3, d4, d5, d6)
}

/// The code of a board of 13 lines.
fn zip_board_medium(board: &Board) -> (zip: BoardZip)
    requires
        board.wf(),
        board@.size == 13,
    ensures
        zip == spec_zip(board@),
{
    proof {
        board@.lemma_len();
    }
    let d1 = zip_stone_128(board, 0, 64);
    let d2 = zip_stone_128(board, 64, 128);
    let d3 = zip_stone_128(board, 128, 169);
    BoardZip::MediumBoardZip(d1, d2, d3)
}

/// The code of a board of 9 lines.
fn zip_board_small(board: &Board) -> (zip: BoardZip)
    requires
        board.wf(),
        board@.size == 9,
    ensures
        zip == spec_zip(board@),
{
    proof {
        board@.lemma_len();
        lemma_pow4_values();
    }
    let d1 = zip_stone_128(board, 0, 64);
    let d2 = zip_stone_128(board, 64, 81) as u64;
    BoardZip::SmallBoardZip(d1, d2)
}

/// Packs the points from place `from` up to, not including, place `to` into one word.
fn zip_stone_128(board: &Board, from: usize, to: usize) -> (d: u128)
    requires
        board.wf(),
        from < to <= board@.cells.len(),
        to - from <= 64,
    ensures
        d == pack(board@.cells.subrange(from as int, to as int)),
        d < pow4((to - from) as nat),
{
    let ghost cells = board@.cells;
    let mut d: u128 = 0;
    proof {
        board.lemma_storage();
        lemma_pow4_values();
        assert(pack(cells.subrange(from as int, from as int)) == 0);
    }
    for i in from..to - 1
        invariant
            board.wf(),
            cells == board@.cells,
            from < to <= cells.len() <= 361,
            to - from <= 64,
            d == 4 * pack(cells.subrange(from as int, i as int)),
    {
        let ghost sub = cells.subrange(from as int, i + 1);
        proof {
            board.lemma_storage();
            lemma_pow4_values();
            assert(sub.drop_last() =~= cells.subrange(from as int, i as int));
            assert(sub.last() == cells[i as int]);
            lemma_pack_bound(sub);
            lemma_pow4_grows(sub.len(), 63);
        }
        d += zip_stone_to_val(board.coord[i]) as u128;
        assert(d == pack(sub));
        assert(d << 2 == d * 4) by (bit_vector)
            requires
                d < 0x4000_0000_0000_0000_0000_0000_0000_0000u128,
        ;
        d = d << 2;
    }
    let ghost sub = cells.subrange(from as int, to as int);
    proof {
        board.lemma_storage();
        assert(sub.drop_last() =~= cells.subrange(from as int, to - 1));
        assert(sub.last() == cells[to - 1]);
        lemma_pack_bound(sub);
        lemma_pow4_grows(sub.len(), 64);
        lemma_pow4_values();
    }
    d += zip_stone_to_val(board.coord[to - 1]) as u128;
    d
}

/// The two bits that stand for a point.
fn zip_stone_to_val(stone: Stone) -> (v: u8)
    ensures
        v == stone_val(stone),
{
    match stone {
        Stone::Empty => 0,
        Stone::Black => 1,
        Stone::White => 2,
    }
}

/// The board that a code stands for.
pub fn unzip_board(zip: &BoardZip) -> (board: Board)
    ensures
        board.wf(),
        board@ == spec_unzip(*zip),
{
    match zip {
        BoardZip::NormalBoardZip(d1, d2, d3, d4, d5, d6) => {
            return unzip_board_normal(d1, d2, d3, d4, d5, d6);
        },
        BoardZip::MediumBoardZip(d1, d2, d3) => unzip_board_medium(d1, d2, d3),
        BoardZip::SmallBoardZip(d1, d2) => unzip_board_small(d1, d2),
    }
}

/// The board of 19 lines that six words stand for.
fn unzip_board_normal(d1: &u128, d2: &u128, d3: &u128, d4: &u128, d5: &u128, d6: &u128) -> (b:
    Board)
    ensures
        b.wf(),
        b@ == spec_unzip(BoardZip::NormalBoardZip(*d1, *d2, *d3, *d4, *d5, *d6)),
{
    let mut b = Board::new(BoardSize::Normal);
    proof {
        b@.lemma_len();
    }
    unzip_stone_128(&mut b, d1, 0, 64);
    unzip_stone_128(&mut b, d2, 64, 128);
    unzip_stone_128(&mut b, d3, 128, 192);
    unzip_stone_128(&mut b, d4, 192, 256);
    unzip_stone_128(&mut b, d5, 256, 320);
    unzip_stone_128(&mut b, d6, 320, 361);
    assert(b@.cells =~= spec_unzip(BoardZip::NormalBoardZip(*d1, *d2, *d3, *d4, *d5, *d6)).cells);
    b
}

/// The board of 13 lines that three words stand for.
fn unzip_board_medium(d1: &u128, d2: &u128, d3: &u128) -> (b: Board)
    ensures
        b.wf(),
        b@ == spec_unzip(BoardZip::MediumBoardZip(*d1, *d2, *d3)),
{
    let mut b = Board::new(BoardSize::Medium);
    proof {
        b@.lemma_len();
    }
    unzip_stone_128(&mut b, d1, 0, 64);
    unzip_stone_128(&mut b, d2, 64, 128);
    unzip_stone_128(&mut b, d3, 128, 169);
    assert(b@.cells =~= spec_unzip(BoardZip::MediumBoardZip(*d1, *d2, *d3)).cells);
    b
}

/// The board of 9 lines that two words stand for.
fn unzip_board_small(d1: &u128, d2: &u64) -> (b: Board)
    ensures
        b.wf(),
        b@ == spec_unzip(BoardZip::SmallBoardZip(*d1, *d2)),
{
    let mut b = Board::new(BoardSize::Small);
    proof {
        b@.lemma_len();
    }
    unzip_stone_128(&mut b, d1, 0, 64);
    let wide: u128 = *d2 as u128;
    unzip_stone_128(&mut b, &wide, 64, 81);
    assert(b@.cells =~= spec_unzip(BoardZip::SmallBoardZip(*d1, *d2)).cells);
    b
}

/// Unpacks one word onto the points from place `from` up to, not including, place `to`.
fn unzip_stone_128(b: &mut Board, d: &u128, from: usize, to: usize)
    requires
        old(b).wf(),
        from < to <= old(b)@.cells.len(),
        to - from <= 64,
    ensures
        final(b).wf(),
        final(b)@.size == old(b)@.size,
        forall|p: int|
            from <= p < to ==> #[trigger] final(b)@.cells[p] == unpack(
                *d as nat,
                (to - from) as nat,
            )[p - from],
        forall|p: int|
            0 <= p < old(b)@.cells.len() && !(from <= p < to) ==> #[trigger] final(b)@.cells[p]
                == old(b)@.cells[p],
{
    let ghost start = b@;
    let ghost n = (to - from) as nat;
    let mut r: u128 = *d;
    proof {
        b.lemma_storage();
        assert(pow4(0) == 1);
        assert(*d as int / 1 == *d as int);
    }
    for i in from..to
        invariant
            b.wf(),
            start.wf(),
            b@.size == start.size,
            from < to <= start.cells.len() <= 361,
            n == to - from,
            n <= 64,
            r == *d as nat / pow4((i - from) as nat),
            forall|p: int|
                to - (i - from) <= p < to ==> #[trigger] b@.cells[p] == unpack(*d as nat, n)[p
                    - from],
            forall|p: int|
                0 <= p < start.cells.len() && !(to - (i - from) <= p < to) ==> #[trigger] b@.cells[p]
                    == start.cells[p],
    {
        let ghost before = b@;
        let ghost k = (i - from) as nat;
        proof {
            b.lemma_storage();
            lemma_pow4_grows(0, k);
            assert(pow4(k + 1) == 4 * pow4(k));
            vstd::arithmetic::div_mod::lemma_div_denominator(
                *d as int,
                pow4(k) as int,
                4,
            );
            assert(pow4(k) * 4 == 4 * pow4(k)) by (nonlinear_arith);
            assert((r as u8) % 4 == r % 4) by (bit_vector);
            assert(r >> 2 == r / 4) by (bit_vector);
        }
        b.coord[to - i - 1 + from] = unzip_val_to_stone(#[verifier::truncate] (r as u8) % 4);
        r = r >> 2;
        proof {
            b.lemma_storage();
            let t = to - i - 1 + from;
            assert(b@.cells =~= before.cells.update(t, val_stone((*d as nat / pow4(k)) % 4)));
            assert((n - 1 - (t - from)) as nat == k);
        }
    }
}

/// What two bits stand for; the pattern 3 reads as empty.
fn unzip_val_to_stone(d: u8) -> (stone: Stone)
    ensures
        stone == val_stone(d as nat),
{
    match d % 4 {
        1 => Stone::Black,
        2 => Stone::White,
        _ => Stone::Empty,
    }
}

/// A word of at most 64 points fits 128 bits and unpacks to its points.
proof fn lemma_word(cells: Seq<Stone>, from: int, to: int)
    requires
        0 <= from < to <= cells.len(),
        to - from <= 64,
    ensures
        pack(cells.subrange(from, to)) < pow4((to - from) as nat) <= pow4(64),
        unpack(pack(cells.subrange(from, to)), (to - from) as nat) == cells.subrange(from, to),
{
    lemma_pack_bound(cells.subrange(from, to));
    lemma_pow4_grows((to - from) as nat, 64);
    lemma_unpack_pack(cells.subrange(from, to));
}

} // verus!
