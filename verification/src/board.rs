//! Board geometry and the rules for moving blocks.

use std::collections::hash_map::DefaultHasher;
use vstd::prelude::*;
use vstd::relations::{sorted_by, total_ordering};
use vstd::std_specs::cmp::PartialEqSpecImpl;
use vstd::std_specs::hash::DefaultHasherAdditionalSpecFns;

verus! {

/// A cell on the board, `x` counting columns from the left and `y` rows from the top.
#[derive(Clone, Copy, Debug, PartialEq, Eq, Structural)]
pub struct Cell {
    pub x: usize,
    pub y: usize,
}

/// A block on the board: a `width` by `height` rectangle whose top-left cell is
/// `top_left`. `color` is the block's linear RGBA color, each channel kept as the
/// bit pattern of an IEEE-754 single; the rules never look at it.
#[derive(Clone, Copy, Debug)]
pub struct Block {
    pub color: [u32; 4],
    pub top_left: Cell,
    pub width: usize,
    pub height: usize,
}

/// Whether block `b` covers cell `c`.
pub open spec fn covers(b: Block, c: Cell) -> bool {
    &&& b.top_left.x <= c.x < b.top_left.x + b.width
    &&& b.top_left.y <= c.y < b.top_left.y + b.height
}

/// Whether two blocks cover a common cell.
pub open spec fn blocks_overlap(a: Block, b: Block) -> bool {
    exists|c: Cell| covers(a, c) && covers(b, c)
}

/// Whether the half-open intervals `[a0, a0 + alen)` and `[b0, b0 + blen)` meet.
pub open spec fn spans_meet(a0: int, alen: int, b0: int, blen: int) -> bool {
    &&& alen > 0
    &&& blen > 0
    &&& a0 < b0 + blen
    &&& b0 < a0 + alen
}

/// Two blocks overlap exactly when their column spans and their row spans meet.
pub proof fn lemma_overlap_iff_spans(a: Block, b: Block)
    ensures
        blocks_overlap(a, b) <==> (spans_meet(
            a.top_left.x as int,
            a.width as int,
            b.top_left.x as int,
            b.width as int,
        ) && spans_meet(a.top_left.y as int, a.height as int, b.top_left.y as int, b.height as int)),
{
    if spans_meet(a.top_left.x as int, a.width as int, b.top_left.x as int, b.width as int)
        && spans_meet(a.top_left.y as int, a.height as int, b.top_left.y as int, b.height as int) {
        let x: usize = if a.top_left.x < b.top_left.x { b.top_left.x } else { a.top_left.x };
        let y: usize = if a.top_left.y < b.top_left.y { b.top_left.y } else { a.top_left.y };
        let c = Cell { x, y };
        assert(covers(a, c) && covers(b, c));
    }
}

/// Row-major order on cells: by row, then by column.
pub open spec fn row_major_le(a: Cell, b: Cell) -> bool {
    a.y < b.y || (a.y == b.y && a.x <= b.x)
}

/// Whether `[a0, a0 + alen)` and `[b0, b0 + blen)` meet, computed without overflow.
fn spans_meet_exec(a0: usize, alen: usize, b0: usize, blen: usize) -> (r: bool)
    ensures
        r == spans_meet(a0 as int, alen as int, b0 as int, blen as int),
{
    if alen == 0 || blen == 0 {
        return false;
    }
    let a_before_b_end = a0 < b0 || a0 - b0 < blen;
    let b_before_a_end = b0 < a0 || b0 - a0 < alen;
    a_before_b_end && b_before_a_end
}

impl Block {
    /// Whether this block and `other` cover a common cell.
    pub fn overlaps(&self, other: &Block) -> (r: bool)
        ensures
            r == blocks_overlap(*self, *other),
    {
        proof {
            lemma_overlap_iff_spans(*self, *other);
        }
        spans_meet_exec(self.top_left.x, self.width, other.top_left.x, other.width)
            && spans_meet_exec(self.top_left.y, self.height, other.top_left.y, other.height)
    }
}

/// The block `b` moved by `(dx, dy)`, or `None` when the move would leave the
/// coordinates that an `isize` can hold or push a coordinate below zero.
pub open spec fn moved_block(b: Block, dx: int, dy: int) -> Option<Block> {
    let nx = b.top_left.x + dx;
    let ny = b.top_left.y + dy;
    if b.top_left.x <= isize::MAX && b.top_left.y <= isize::MAX && 0 <= nx <= isize::MAX && 0
        <= ny <= isize::MAX {
        Some(
            Block {
                color: b.color,
                top_left: Cell { x: nx as usize, y: ny as usize },
                width: b.width,
                height: b.height,
            },
        )
    } else {
        None
    }
}

impl Block {
    /// This block moved by `(delta_x, delta_y)`, if its new top-left cell is
    /// still at non-negative coordinates.
    pub fn moved(&self, delta_x: isize, delta_y: isize) -> (r: Option<Block>)
        ensures
            r == moved_block(*self, delta_x as int, delta_y as int),
    {
        if self.top_left.x > isize::MAX as usize || self.top_left.y > isize::MAX as usize {
            return None;
        }
        let new_x = match (self.top_left.x as isize).checked_add(delta_x) {
            Some(v) => v,
            None => return None,
        };
        let new_y = match (self.top_left.y as isize).checked_add(delta_y) {
            Some(v) => v,
            None => return None,
        };
        if new_x < 0 || new_y < 0 {
            return None;
        }
        Some(
            Block {
                color: self.color,
                top_left: Cell { x: new_x as usize, y: new_y as usize },
                width: self.width,
                height: self.height,
            },
        )
    }
}

/// Why a board or a move was refused.
#[derive(Clone, Copy, Debug, PartialEq, Eq, Structural)]
pub enum BoardError {
    /// The board has zero width or zero height.
    ZeroDimension,
    /// The block at this index reaches past the board's edge.
    OutOfBounds(usize),
    /// Two blocks both cover this cell.
    Overlap(Cell),
    /// The block at this index cannot make the requested move.
    InvalidMove(usize),
}

/// The first cell of a slide by `d` cells, for `d` between -2 and 2.
pub open spec fn half_step(d: int) -> int {
    if d == 2 {
        1
    } else if d == -2 {
        -1
    } else {
        d
    }
}

/// The abstract content of a [`Board`].
pub struct BoardView {
    pub width: usize,
    pub height: usize,
    pub pinned: bool,
    pub blocks: Seq<Block>,
}

impl BoardView {
    /// Whether block `b` lies within the board.
    pub open spec fn in_bounds(self, b: Block) -> bool {
        &&& b.top_left.x + b.width <= self.width
        &&& b.top_left.y + b.height <= self.height
    }

    /// The board's invariant: positive dimensions, every block inside the
    /// bounds, and no two blocks covering a common cell.
    pub open spec fn wf(self) -> bool {
        &&& self.width > 0
        &&& self.height > 0
        &&& forall|i: int| 0 <= i < self.blocks.len() ==> self.in_bounds(#[trigger] self.blocks[i])
        &&& forall|i: int, j: int|
            0 <= i < self.blocks.len() && 0 <= j < self.blocks.len() && i != j ==> !blocks_overlap(
                #[trigger] self.blocks[i],
                #[trigger] self.blocks[j],
            )
    }

    /// Whether the block at index `i`, moved by `(dx, dy)`, lies on the board
    /// and meets no other block.
    pub open spec fn lands_free(self, i: int, dx: int, dy: int) -> bool {
        let mv = moved_block(self.blocks[i], dx, dy);
        &&& mv is Some
        &&& self.in_bounds(mv.unwrap())
        &&& forall|j: int|
            0 <= j < self.blocks.len() && j != i ==> !blocks_overlap(
                mv.unwrap(),
                #[trigger] self.blocks[j],
            )
    }

    /// Whether the block at index `i` may move by `(dx, dy)`: a move is along one
    /// axis by at most two cells; on a pinned board a block may only slide along
    /// a side of length one; the block must stay on the board and must not meet
    /// any other block, and a block sliding two cells must also be free at the
    /// cell in between.
    pub open spec fn can_move(self, i: int, dx: int, dy: int) -> bool {
        let blk = self.blocks[i];
        &&& !(dx != 0 && dy != 0)
        &&& -2 <= dx <= 2
        &&& -2 <= dy <= 2
        &&& 0 <= i < self.blocks.len()
        &&& !(self.pinned && ((blk.height > 1 && dx != 0) || (blk.width > 1 && dy != 0)))
        &&& self.lands_free(i, dx, dy)
        &&& (dx == 2 || dx == -2 || dy == 2 || dy == -2) ==> self.lands_free(i, half_step(dx), half_step(dy))
    }

    /// Whether every block lies within the board.
    pub open spec fn all_in_bounds(self) -> bool {
        forall|i: int| 0 <= i < self.blocks.len() ==> self.in_bounds(#[trigger] self.blocks[i])
    }

    /// Whether `i` is the first index of a block that reaches past the board's edge.
    pub open spec fn first_out_of_bounds(self, i: int) -> bool {
        &&& 0 <= i < self.blocks.len()
        &&& !self.in_bounds(self.blocks[i])
        &&& forall|k: int| 0 <= k < i ==> self.in_bounds(#[trigger] self.blocks[k])
    }

    /// Whether cell `c` of the block at index `j` is also covered by an earlier block.
    pub open spec fn clash(self, j: int, c: Cell) -> bool {
        &&& 0 <= j < self.blocks.len()
        &&& covers(self.blocks[j], c)
        &&& exists|i: int| 0 <= i < j && covers(#[trigger] self.blocks[i], c)
    }

    /// Whether `c` is the first doubly covered cell met when the blocks are laid
    /// down in order, each one's cells taken row by row.
    pub open spec fn first_overlap(self, c: Cell) -> bool {
        exists|j: int|
            {
                &&& #[trigger] self.clash(j, c)
                &&& forall|k: int, d: Cell| 0 <= k < j ==> !self.clash(k, d)
                &&& forall|d: Cell| #[trigger] self.clash(j, d) ==> row_major_le(c, d)
            }
    }

    /// What checking the board gives: the first failed requirement, in the
    /// order dimensions, bounds, overlaps.
    pub open spec fn validation(self) -> Result<(), BoardError> {
        if self.width == 0 || self.height == 0 {
            Err(BoardError::ZeroDimension)
        } else if exists|i: int| self.first_out_of_bounds(i) {
            Err(BoardError::OutOfBounds((choose|i: int| self.first_out_of_bounds(i)) as usize))
        } else if exists|c: Cell| self.first_overlap(c) {
            Err(BoardError::Overlap(choose|c: Cell| self.first_overlap(c)))
        } else {
            Ok(())
        }
    }

    /// The board after the block at index `i` moved by `(dx, dy)`.
    pub open spec fn after_move(self, i: int, dx: int, dy: int) -> BoardView {
        BoardView {
            blocks: self.blocks.update(i, moved_block(self.blocks[i], dx, dy).unwrap()),
            ..self
        }
    }
}

/// A sliding-block board: its size, whether long blocks are pinned to move
/// only along their short side, and its blocks.
pub struct Board {
    width: usize,
    height: usize,
    pinned: bool,
    blocks: Vec<Block>,
}

impl View for Board {
    type V = BoardView;

    closed spec fn view(&self) -> BoardView {
        BoardView {
            width: self.width,
            height: self.height,
            pinned: self.pinned,
            blocks: self.blocks@,
        }
    }
}

/// The first cell, in row-major order, that two overlapping blocks both cover.
pub open spec fn meet_corner(a: Block, b: Block) -> Cell {
    Cell {
        x: if a.top_left.x < b.top_left.x { b.top_left.x } else { a.top_left.x },
        y: if a.top_left.y < b.top_left.y { b.top_left.y } else { a.top_left.y },
    }
}

proof fn lemma_meet_corner(a: Block, b: Block)
    requires
        blocks_overlap(a, b),
    ensures
        covers(a, meet_corner(a, b)),
        covers(b, meet_corner(a, b)),
        forall|d: Cell| covers(a, d) && covers(b, d) ==> row_major_le(meet_corner(a, b), d),
{
    lemma_overlap_iff_spans(a, b);
}

proof fn lemma_first_overlap_unique(v: BoardView, c1: Cell, c2: Cell)
    requires
        v.first_overlap(c1),
        v.first_overlap(c2),
    ensures
        c1 == c2,
{
    let j1 = choose|j: int|
        {
            &&& #[trigger] v.clash(j, c1)
            &&& forall|k: int, d: Cell| 0 <= k < j ==> !v.clash(k, d)
            &&& forall|d: Cell| #[trigger] v.clash(j, d) ==> row_major_le(c1, d)
        };
    let j2 = choose|j: int|
        {
            &&& #[trigger] v.clash(j, c2)
            &&& forall|k: int, d: Cell| 0 <= k < j ==> !v.clash(k, d)
            &&& forall|d: Cell| #[trigger] v.clash(j, d) ==> row_major_le(c2, d)
        };
    if j1 < j2 {
        assert(!v.clash(j1, c1));
    } else if j2 < j1 {
        assert(!v.clash(j2, c2));
    } else {
        assert(row_major_le(c1, c2));
        assert(row_major_le(c2, c1));
    }
}

/// A board that passes every check satisfies the invariant.
proof fn lemma_validation_ok_wf(v: BoardView)
    requires
        v.width > 0,
        v.height > 0,
        v.all_in_bounds(),
        forall|j: int, c: Cell| !v.clash(j, c),
    ensures
        v.wf(),
{
    assert forall|i: int, j: int|
        0 <= i < v.blocks.len() && 0 <= j < v.blocks.len() && i != j implies !blocks_overlap(
        #[trigger] v.blocks[i],
        #[trigger] v.blocks[j],
    ) by {
        if blocks_overlap(v.blocks[i], v.blocks[j]) {
            let c = choose|c: Cell| covers(v.blocks[i], c) && covers(v.blocks[j], c);
            if i < j {
                assert(v.clash(j, c));
            } else {
                assert(v.clash(i, c));
            }
        }
    }
}

/// On a pinned board a block taller than one cell never moves sideways, and
/// a block wider than one cell never moves up or down.
pub proof fn lemma_pinned_blocks_keep_their_axis(v: BoardView, i: int, dx: int, dy: int)
    requires
        v.pinned,
        0 <= i < v.blocks.len(),
    ensures
        v.blocks[i].height > 1 && dx != 0 ==> !v.can_move(i, dx, dy),
        v.blocks[i].width > 1 && dy != 0 ==> !v.can_move(i, dx, dy),
{
}

/// A move is along one axis, by at most two cells: any other displacement is
/// refused, and a two-cell slide needs the one-cell slide in the same
/// direction to be allowed too.
pub proof fn lemma_move_shape(v: BoardView, i: int, dx: int, dy: int)
    ensures
        v.can_move(i, dx, dy) ==> (dx == 0 || dy == 0) && -2 <= dx <= 2 && -2 <= dy <= 2,
        v.can_move(i, dx, dy) && dx == 2 ==> v.can_move(i, 1, 0),
        v.can_move(i, dx, dy) && dx == -2 ==> v.can_move(i, -1, 0),
        v.can_move(i, dx, dy) && dy == 2 ==> v.can_move(i, 0, 1),
        v.can_move(i, dx, dy) && dy == -2 ==> v.can_move(i, 0, -1),
{
}

/// An allowed move puts the block `(dx, dy)` cells away, same size and
/// color, inside the board, on no cell another block covers.
pub proof fn lemma_move_lands_free(v: BoardView, i: int, dx: int, dy: int)
    requires
        v.can_move(i, dx, dy),
    ensures
        ({
            let b = v.after_move(i, dx, dy).blocks[i];
            &&& b.top_left.x == v.blocks[i].top_left.x + dx
            &&& b.top_left.y == v.blocks[i].top_left.y + dy
            &&& b.width == v.blocks[i].width && b.height == v.blocks[i].height && b.color == v.blocks[i].color
            &&& b.top_left.x + b.width <= v.width
            &&& b.top_left.y + b.height <= v.height
            &&& forall|j: int, c: Cell|
                0 <= j < v.blocks.len() && j != i && #[trigger] covers(v.blocks[j], c) ==> !covers(b, c)
        }),
        forall|j: int| 0 <= j < v.blocks.len() && j != i ==> #[trigger] v.after_move(i, dx, dy).blocks[j] == v.blocks[j],
{
}

/// A board is valid (which is when its check passes, by
/// [`Board::validate`]) exactly when it has positive width and height, every
/// block lies inside it, and no cell is covered by two blocks, a block
/// covering the cells from its top-left corner across its width and down its
/// height.
pub proof fn lemma_valid_board_explained(v: BoardView)
    ensures
        v.wf() <==> {
            &&& v.width > 0
            &&& v.height > 0
            &&& forall|i: int|
                0 <= i < v.blocks.len() ==> (#[trigger] v.blocks[i]).top_left.x + v.blocks[i].width <= v.width
                    && v.blocks[i].top_left.y + v.blocks[i].height <= v.height
            &&& forall|i: int, j: int, c: Cell|
                0 <= i < v.blocks.len() && 0 <= j < v.blocks.len() && i != j ==> !(#[trigger] covers(
                    v.blocks[i],
                    c,
                ) && #[trigger] covers(v.blocks[j], c))
        },
        forall|b: Block, c: Cell|
            #[trigger] covers(b, c) == (b.top_left.x <= c.x < b.top_left.x + b.width && b.top_left.y <= c.y
                < b.top_left.y + b.height),
        forall|a: Block, b: Block| #[trigger] blocks_overlap(a, b) == exists|c: Cell| covers(a, c) && covers(b, c),
{
    if v.wf() {
        assert forall|i: int, j: int, c: Cell|
            0 <= i < v.blocks.len() && 0 <= j < v.blocks.len() && i != j implies !(#[trigger] covers(
            v.blocks[i],
            c,
        ) && #[trigger] covers(v.blocks[j], c)) by {
            assert(!blocks_overlap(v.blocks[i], v.blocks[j]));
        }
    }
}

/// What the check reports: a zero dimension first; else the lowest index of
/// a block reaching past the board's edge; else, when it fails, a cell that
/// two blocks cover, the later of them covering no cell an earlier block
/// does before it in row order.
pub proof fn lemma_validation_reports(v: BoardView, i: int)
    ensures
        v.width == 0 || v.height == 0 ==> v.validation() == Err::<(), BoardError>(BoardError::ZeroDimension),
        v.width > 0 && v.height > 0 && 0 <= i < v.blocks.len() && !(v.blocks[i].top_left.x + v.blocks[i].width
            <= v.width && v.blocks[i].top_left.y + v.blocks[i].height <= v.height) && (forall|k: int|
            0 <= k < i ==> (#[trigger] v.blocks[k]).top_left.x + v.blocks[k].width <= v.width
                && v.blocks[k].top_left.y + v.blocks[k].height <= v.height) ==> v.validation() == Err::<
            (),
            BoardError,
        >(BoardError::OutOfBounds(i as usize)),
        v.width > 0 && v.height > 0 && (forall|k: int|
            0 <= k < v.blocks.len() ==> (#[trigger] v.blocks[k]).top_left.x + v.blocks[k].width <= v.width
                && v.blocks[k].top_left.y + v.blocks[k].height <= v.height) ==> v.validation() is Ok || exists|
            c: Cell,
            a: int,
            b: int,
        |
            v.validation() == Err::<(), BoardError>(BoardError::Overlap(c)) && 0 <= a < b < v.blocks.len()
                && #[trigger] covers(v.blocks[a], c) && #[trigger] covers(v.blocks[b], c),
{
    if v.width > 0 && v.height > 0 && 0 <= i < v.blocks.len() && !(v.blocks[i].top_left.x + v.blocks[i].width
        <= v.width && v.blocks[i].top_left.y + v.blocks[i].height <= v.height) && (forall|k: int|
        0 <= k < i ==> (#[trigger] v.blocks[k]).top_left.x + v.blocks[k].width <= v.width
            && v.blocks[k].top_left.y + v.blocks[k].height <= v.height) {
        assert(v.first_out_of_bounds(i));
        let f = choose|f: int| v.first_out_of_bounds(f);
        if f < i {
            assert(v.in_bounds(v.blocks[f]));
        } else if i < f {
            assert(v.in_bounds(v.blocks[i]));
        }
    }
    if v.width > 0 && v.height > 0 && (forall|k: int|
        0 <= k < v.blocks.len() ==> (#[trigger] v.blocks[k]).top_left.x + v.blocks[k].width <= v.width
            && v.blocks[k].top_left.y + v.blocks[k].height <= v.height) {
        assert forall|f: int| !v.first_out_of_bounds(f) by {
            if 0 <= f < v.blocks.len() {
                assert(v.in_bounds(v.blocks[f]));
            }
        }
        if exists|c: Cell| v.first_overlap(c) {
            let c = choose|c: Cell| v.first_overlap(c);
            let j = choose|j: int|
                {
                    &&& #[trigger] v.clash(j, c)
                    &&& forall|k: int, d: Cell| 0 <= k < j ==> !v.clash(k, d)
                    &&& forall|d: Cell| #[trigger] v.clash(j, d) ==> row_major_le(c, d)
                };
            let a = choose|a: int| 0 <= a < j && covers(#[trigger] v.blocks[a], c);
            assert(covers(v.blocks[a], c) && covers(v.blocks[j], c));
            assert(0 <= a < j < v.blocks.len());
            assert(v.validation() == Err::<(), BoardError>(BoardError::Overlap(c)));
        }
    }
}

/// A valid move keeps the board valid.
pub proof fn lemma_move_keeps_wf(v: BoardView, i: int, dx: int, dy: int)
    requires
        v.wf(),
        v.can_move(i, dx, dy),
    ensures
        v.after_move(i, dx, dy).wf(),
{
    let w = v.after_move(i, dx, dy);
    let mv = moved_block(v.blocks[i], dx, dy).unwrap();
    assert forall|a: int, b: int|
        0 <= a < w.blocks.len() && 0 <= b < w.blocks.len() && a != b implies !blocks_overlap(
        #[trigger] w.blocks[a],
        #[trigger] w.blocks[b],
    ) by {
        if a == i {
            assert(!blocks_overlap(mv, v.blocks[b]));
        } else if b == i {
            assert(!blocks_overlap(mv, v.blocks[a]));
            if blocks_overlap(v.blocks[a], mv) {
                let c = choose|c: Cell| covers(v.blocks[a], c) && covers(mv, c);
                assert(covers(mv, c) && covers(v.blocks[a], c));
            }
        } else {
            assert(!blocks_overlap(v.blocks[a], v.blocks[b]));
        }
    }
    assert forall|a: int| 0 <= a < w.blocks.len() implies w.in_bounds(#[trigger] w.blocks[a]) by {
        if a != i {
            assert(v.in_bounds(v.blocks[a]));
        }
    }
}

/// On a valid board every move can be undone: after moving the block at `i`
/// by `(dx, dy)` it can move by `(-dx, -dy)`, and that gives back the board
/// as it was.
pub proof fn lemma_move_undo(v: BoardView, i: int, dx: int, dy: int)
    requires
        v.wf(),
        v.can_move(i, dx, dy),
    ensures
        v.after_move(i, dx, dy).can_move(i, -dx, -dy),
        v.after_move(i, dx, dy).after_move(i, -dx, -dy) == v,
{
    let w = v.after_move(i, dx, dy);
    let b = v.blocks[i];
    let mv = moved_block(b, dx, dy).unwrap();
    assert(w.blocks[i] == mv);
    assert(moved_block(mv, -dx, -dy) == Some(b));
    assert(v.in_bounds(v.blocks[i]));
    assert forall|j: int| 0 <= j < w.blocks.len() && j != i implies !blocks_overlap(
        b,
        #[trigger] w.blocks[j],
    ) by {
        assert(!blocks_overlap(v.blocks[i], v.blocks[j]));
    }
    assert(w.after_move(i, -dx, -dy).blocks =~= v.blocks);
}

impl Clone for Board {
    /// A copy of the board.
    fn clone(&self) -> (r: Board)
        ensures
            r@ == self@,
    {
        let n = self.blocks.len();
        let mut blocks: Vec<Block> = Vec::new();
        let mut i: usize = 0;
        while i < n
            invariant
                n == self.blocks.len(),
                i <= n,
                blocks@ == self.blocks@.take(i as int),
            decreases n - i,
        {
            blocks.push(self.blocks[i]);
            i = i + 1;
            assert(blocks@ =~= self.blocks@.take(i as int));
        }
        assert(self.blocks@.take(n as int) =~= self.blocks@);
        Board { width: self.width, height: self.height, pinned: self.pinned, blocks }
    }
}

/// The unit move tried in direction `d` (0 up, 1 down, 2 left, 3 right).
pub open spec fn direction(d: int) -> (int, int) {
    if d == 0 {
        (0, -1)
    } else if d == 1 {
        (0, 1)
    } else if d == 2 {
        (-1, 0)
    } else {
        (1, 0)
    }
}

fn direction_exec(d: usize) -> (r: (isize, isize))
    requires
        d < 4,
    ensures
        r.0 as int == direction(d as int).0,
        r.1 as int == direction(d as int).1,
{
    if d == 0 {
        (0, -1)
    } else if d == 1 {
        (0, 1)
    } else if d == 2 {
        (-1, 0)
    } else {
        (1, 0)
    }
}

/// The boards reachable by the first `p` (block, direction) attempts, block by
/// block and within a block in the order up, down, left, right; each paired
/// with the moved block in its new position.
pub open spec fn neighbor_entries(v: BoardView, p: nat) -> Seq<(Block, BoardView)>
    decreases p,
{
    if p == 0 {
        Seq::empty()
    } else {
        let prev = neighbor_entries(v, (p - 1) as nat);
        let i = (p - 1) / 4;
        let (dx, dy) = direction((p - 1) % 4);
        if v.can_move(i, dx, dy) {
            let w = v.after_move(i, dx, dy);
            prev.push((w.blocks[i], w))
        } else {
            prev
        }
    }
}

/// Every board one unit move away from `v`, with the block that moved.
pub open spec fn neighbor_list(v: BoardView) -> Seq<(Block, BoardView)> {
    neighbor_entries(v, 4 * v.blocks.len())
}

/// Each entry of the first `p` attempts comes from a valid unit move.
pub proof fn lemma_neighbor_entries_are_moves(v: BoardView, p: nat, k: int)
    requires
        0 <= k < neighbor_entries(v, p).len(),
    ensures
        exists|i: int, d: int|
            0 <= d < 4 && 0 <= i < v.blocks.len() && #[trigger] v.can_move(i, direction(d).0, direction(d).1)
                && neighbor_entries(v, p)[k] == (v.after_move(i, direction(d).0, direction(d).1).blocks[i], v.after_move(i, direction(d).0, direction(d).1)),
    decreases p,
{
    let prev = neighbor_entries(v, (p - 1) as nat);
    if k < prev.len() {
        lemma_neighbor_entries_are_moves(v, (p - 1) as nat, k);
    } else {
        let i = (p - 1) / 4;
        let d = (p - 1) % 4;
        assert(v.can_move(i, direction(d).0, direction(d).1));
    }
}

/// Every valid unit move among the first `p` attempts has its entry.
proof fn lemma_neighbor_entries_complete(v: BoardView, p: nat, i: int, d: int)
    requires
        0 <= i,
        0 <= d < 4,
        4 * i + d < p,
        v.can_move(i, direction(d).0, direction(d).1),
    ensures
        exists|k: int|
            0 <= k < neighbor_entries(v, p).len() && #[trigger] neighbor_entries(v, p)[k] == (
                v.after_move(i, direction(d).0, direction(d).1).blocks[i],
                v.after_move(i, direction(d).0, direction(d).1),
            ),
    decreases p,
{
    let prev = neighbor_entries(v, (p - 1) as nat);
    let w = v.after_move(i, direction(d).0, direction(d).1);
    if 4 * i + d == p - 1 {
        assert((p - 1) / 4 == i && (p - 1) % 4 == d);
        assert(neighbor_entries(v, p)[prev.len() as int] == (w.blocks[i], w));
    } else {
        lemma_neighbor_entries_complete(v, (p - 1) as nat, i, d);
        let k = choose|k: int| 0 <= k < prev.len() && #[trigger] prev[k] == (w.blocks[i], w);
        assert(neighbor_entries(v, p)[k] == prev[k]);
    }
}

/// Being one move apart is symmetric on valid boards: the board an entry of
/// the moves out of `v` leads to has `v` among its own moves.
pub proof fn lemma_neighbor_symmetric(v: BoardView, k: int)
    requires
        v.wf(),
        0 <= k < neighbor_list(v).len(),
    ensures
        exists|l: int|
            0 <= l < neighbor_list(neighbor_list(v)[k].1).len() && (#[trigger] neighbor_list(
                neighbor_list(v)[k].1,
            )[l]).1 == v,
{
    lemma_neighbor_entries_are_moves(v, 4 * v.blocks.len(), k);
    let (i, d) = choose|i: int, d: int|
        0 <= d < 4 && 0 <= i < v.blocks.len() && #[trigger] v.can_move(i, direction(d).0, direction(d).1)
            && neighbor_entries(v, 4 * v.blocks.len())[k] == (v.after_move(i, direction(d).0, direction(d).1).blocks[i], v.after_move(i, direction(d).0, direction(d).1));
    let (dx, dy) = direction(d);
    let w = v.after_move(i, dx, dy);
    lemma_move_undo(v, i, dx, dy);
    let e: int = if d == 0 {
        1
    } else if d == 1 {
        0
    } else if d == 2 {
        3
    } else {
        2
    };
    assert(direction(e) == (-dx, -dy));
    assert(w.blocks.len() == v.blocks.len());
    assert(4 * i + e < 4 * w.blocks.len());
    lemma_neighbor_entries_complete(w, 4 * w.blocks.len(), i, e);
    assert(neighbor_list(v)[k].1 == w);
    let u = w.after_move(i, direction(e).0, direction(e).1);
    let l = choose|l: int|
        0 <= l < neighbor_entries(w, 4 * w.blocks.len()).len() && #[trigger] neighbor_entries(
            w,
            4 * w.blocks.len(),
        )[l] == (u.blocks[i], u);
    assert(w.after_move(i, direction(e).0, direction(e).1) == v);
    assert(neighbor_list(w)[l].1 == v);
}

/// The moves out of a board are all there: every valid unit move of a block
/// has its entry, with the moved block and the board it leads to.
pub proof fn lemma_neighbors_complete(v: BoardView, i: int, d: int)
    requires
        0 <= d < 4,
        v.can_move(i, direction(d).0, direction(d).1),
    ensures
        exists|k: int|
            0 <= k < neighbor_list(v).len() && #[trigger] neighbor_list(v)[k] == (
                v.after_move(i, direction(d).0, direction(d).1).blocks[i],
                v.after_move(i, direction(d).0, direction(d).1),
            ),
{
    let w = v.after_move(i, direction(d).0, direction(d).1);
    lemma_neighbor_entries_complete(v, 4 * v.blocks.len(), i, d);
    let k = choose|k: int|
        0 <= k < neighbor_entries(v, 4 * v.blocks.len()).len() && #[trigger] neighbor_entries(
            v,
            4 * v.blocks.len(),
        )[k] == (w.blocks[i], w);
    assert(neighbor_list(v)[k] == (w.blocks[i], w));
}

/// Every board one move from a valid board is valid.
pub proof fn lemma_neighbor_wf(v: BoardView, k: int)
    requires
        v.wf(),
        0 <= k < neighbor_list(v).len(),
    ensures
        neighbor_list(v)[k].1.wf(),
{
    lemma_neighbor_entries_are_moves(v, 4 * v.blocks.len(), k);
    let (i, d) = choose|i: int, d: int|
        0 <= d < 4 && 0 <= i < v.blocks.len() && #[trigger] v.can_move(i, direction(d).0, direction(d).1)
            && neighbor_entries(v, 4 * v.blocks.len())[k] == (v.after_move(i, direction(d).0, direction(d).1).blocks[i], v.after_move(i, direction(d).0, direction(d).1));
    lemma_move_keeps_wf(v, i, direction(d).0, direction(d).1);
}

/// Each entry among the first `p` attempts comes from a valid unit move of an
/// attempt before `p`.
proof fn lemma_entry_attempt(v: BoardView, p: nat, k: int)
    requires
        0 <= k < neighbor_entries(v, p).len(),
    ensures
        exists|i: int, d: int|
            0 <= d < 4 && 0 <= i && 4 * i + d < p && #[trigger] v.can_move(i, direction(d).0, direction(d).1)
                && neighbor_entries(v, p)[k] == (v.after_move(i, direction(d).0, direction(d).1).blocks[i], v.after_move(
                i,
                direction(d).0,
                direction(d).1,
            )),
    decreases p,
{
    let prev = neighbor_entries(v, (p - 1) as nat);
    if k < prev.len() {
        lemma_entry_attempt(v, (p - 1) as nat, k);
        let (i, d) = choose|i: int, d: int|
            0 <= d < 4 && 0 <= i && 4 * i + d < p - 1 && #[trigger] v.can_move(i, direction(d).0, direction(d).1)
                && prev[k] == (v.after_move(i, direction(d).0, direction(d).1).blocks[i], v.after_move(
                i,
                direction(d).0,
                direction(d).1,
            ));
        assert(neighbor_entries(v, p)[k] == prev[k]);
    } else {
        let i = (p - 1) / 4;
        let d = (p - 1) % 4;
        assert(4 * i + d == p - 1);
        assert(v.can_move(i, direction(d).0, direction(d).1));
    }
}

/// Two different valid unit moves lead to different boards.
proof fn lemma_attempts_differ(v: BoardView, i: int, d: int, i2: int, d2: int)
    requires
        0 <= d < 4,
        0 <= d2 < 4,
        v.can_move(i, direction(d).0, direction(d).1),
        v.can_move(i2, direction(d2).0, direction(d2).1),
        i != i2 || d != d2,
    ensures
        v.after_move(i, direction(d).0, direction(d).1) != v.after_move(i2, direction(d2).0, direction(d2).1),
{
    let w1 = v.after_move(i, direction(d).0, direction(d).1);
    let w2 = v.after_move(i2, direction(d2).0, direction(d2).1);
    if w1 == w2 {
        assert(w1.blocks[i] == w2.blocks[i]);
        if i == i2 {
            assert(direction(d) != direction(d2));
        } else {
            assert(w2.blocks[i] == v.blocks[i]);
        }
    }
}

/// The first `p` attempts give pairwise different boards.
proof fn lemma_neighbor_entries_distinct(v: BoardView, p: nat)
    ensures
        forall|k: int, l: int|
            0 <= k < l < neighbor_entries(v, p).len() ==> (#[trigger] neighbor_entries(v, p)[k]).1
                != (#[trigger] neighbor_entries(v, p)[l]).1,
    decreases p,
{
    if p > 0 {
        let prev = neighbor_entries(v, (p - 1) as nat);
        lemma_neighbor_entries_distinct(v, (p - 1) as nat);
        let cur = neighbor_entries(v, p);
        assert forall|k: int, l: int| 0 <= k < l < cur.len() implies (#[trigger] cur[k]).1 != (#[trigger] cur[l]).1 by {
            if l < prev.len() {
                assert(cur[k] == prev[k] && cur[l] == prev[l]);
            } else {
                let i = (p - 1) / 4;
                let d = (p - 1) % 4;
                assert(cur[k] == prev[k]);
                lemma_entry_attempt(v, (p - 1) as nat, k);
                let (i1, d1) = choose|i1: int, d1: int|
                    0 <= d1 < 4 && 0 <= i1 && 4 * i1 + d1 < p - 1 && #[trigger] v.can_move(
                        i1,
                        direction(d1).0,
                        direction(d1).1,
                    ) && prev[k] == (v.after_move(i1, direction(d1).0, direction(d1).1).blocks[i1], v.after_move(
                        i1,
                        direction(d1).0,
                        direction(d1).1,
                    ));
                assert(4 * i + d == p - 1);
                lemma_attempts_differ(v, i1, d1, i, d);
            }
        }
    }
}

/// Entries come in the order of the attempts they come from.
proof fn lemma_entries_attempt_order(v: BoardView, p: nat, k: int, l: int, i1: int, d1: int, i2: int, d2: int)
    requires
        0 <= k < l < neighbor_entries(v, p).len(),
        0 <= d1 < 4,
        0 <= d2 < 4,
        v.can_move(i1, direction(d1).0, direction(d1).1),
        v.can_move(i2, direction(d2).0, direction(d2).1),
        neighbor_entries(v, p)[k].1 == v.after_move(i1, direction(d1).0, direction(d1).1),
        neighbor_entries(v, p)[l].1 == v.after_move(i2, direction(d2).0, direction(d2).1),
    ensures
        4 * i1 + d1 < 4 * i2 + d2,
    decreases p,
{
    let prev = neighbor_entries(v, (p - 1) as nat);
    let cur = neighbor_entries(v, p);
    if l < prev.len() {
        assert(cur[k] == prev[k] && cur[l] == prev[l]);
        lemma_entries_attempt_order(v, (p - 1) as nat, k, l, i1, d1, i2, d2);
    } else {
        let i = (p - 1) / 4;
        let d = (p - 1) % 4;
        assert(4 * i + d == p - 1);
        assert(cur[l].1 == v.after_move(i, direction(d).0, direction(d).1));
        if i != i2 || d != d2 {
            lemma_attempts_differ(v, i, d, i2, d2);
        }
        assert(cur[k] == prev[k]);
        lemma_entry_attempt(v, (p - 1) as nat, k);
        let (j1, e1) = choose|j1: int, e1: int|
            0 <= e1 < 4 && 0 <= j1 && 4 * j1 + e1 < p - 1 && #[trigger] v.can_move(j1, direction(e1).0, direction(e1).1)
                && prev[k] == (v.after_move(j1, direction(e1).0, direction(e1).1).blocks[j1], v.after_move(
                j1,
                direction(e1).0,
                direction(e1).1,
            ));
        if j1 != i1 || e1 != d1 {
            lemma_attempts_differ(v, j1, e1, i1, d1);
        }
    }
}

/// The rank of a unit move in the order moves are tried: up, down, left, right.
pub open spec fn move_rank(dx: int, dy: int) -> int {
    if dx == 0 && dy == -1 {
        0
    } else if dx == 0 && dy == 1 {
        1
    } else if dx == -1 && dy == 0 {
        2
    } else {
        3
    }
}

/// Whether `(dx, dy)` is a move by one cell up, down, left or right.
pub open spec fn is_unit_move(dx: int, dy: int) -> bool {
    (dx == 0 && (dy == 1 || dy == -1)) || (dy == 0 && (dx == 1 || dx == -1))
}

/// The moves out of a board are listed block by block, and for one block in
/// the order up, down, left, right: an earlier entry moves an earlier block,
/// or the same block in an earlier direction.
pub proof fn lemma_neighbors_in_order(
    v: BoardView,
    k: int,
    l: int,
    i1: int,
    dx1: int,
    dy1: int,
    i2: int,
    dx2: int,
    dy2: int,
)
    requires
        0 <= k < l < neighbor_list(v).len(),
        is_unit_move(dx1, dy1),
        is_unit_move(dx2, dy2),
        v.can_move(i1, dx1, dy1),
        v.can_move(i2, dx2, dy2),
        neighbor_list(v)[k].1 == v.after_move(i1, dx1, dy1),
        neighbor_list(v)[l].1 == v.after_move(i2, dx2, dy2),
    ensures
        i1 < i2 || (i1 == i2 && move_rank(dx1, dy1) < move_rank(dx2, dy2)),
{
    let d1 = move_rank(dx1, dy1);
    let d2 = move_rank(dx2, dy2);
    assert(direction(d1) == (dx1, dy1));
    assert(direction(d2) == (dx2, dy2));
    lemma_entries_attempt_order(v, 4 * v.blocks.len(), k, l, i1, d1, i2, d2);
}

/// No two entries of the moves out of a board lead to the same board: each
/// comes from its own block and direction.
pub proof fn lemma_neighbors_distinct(v: BoardView)
    ensures
        forall|k: int, l: int|
            0 <= k < l < neighbor_list(v).len() ==> (#[trigger] neighbor_list(v)[k]).1
                != (#[trigger] neighbor_list(v)[l]).1,
{
    lemma_neighbor_entries_distinct(v, 4 * v.blocks.len());
}

/// There are at most `p` entries among the first `p` attempts.
pub proof fn lemma_neighbor_entries_len(v: BoardView, p: nat)
    ensures
        neighbor_entries(v, p).len() <= p,
    decreases p,
{
    if p > 0 {
        lemma_neighbor_entries_len(v, (p - 1) as nat);
    }
}

/// A board one move away from `v` has the same size, pinning and number of
/// blocks as `v`; there are at most four such boards per block.
pub proof fn lemma_neighbor_shape(v: BoardView)
    ensures
        neighbor_list(v).len() <= 4 * v.blocks.len(),
        forall|k: int|
            0 <= k < neighbor_list(v).len() ==> {
                &&& (#[trigger] neighbor_list(v)[k]).1.blocks.len() == v.blocks.len()
                &&& neighbor_list(v)[k].1.width == v.width
                &&& neighbor_list(v)[k].1.height == v.height
                &&& neighbor_list(v)[k].1.pinned == v.pinned
            },
{
    lemma_neighbor_entries_len(v, 4 * v.blocks.len());
    assert forall|k: int| 0 <= k < neighbor_list(v).len() implies {
        &&& (#[trigger] neighbor_list(v)[k]).1.blocks.len() == v.blocks.len()
        &&& neighbor_list(v)[k].1.width == v.width
        &&& neighbor_list(v)[k].1.height == v.height
        &&& neighbor_list(v)[k].1.pinned == v.pinned
    } by {
        lemma_neighbor_entries_are_moves(v, 4 * v.blocks.len(), k);
    }
}

impl Board {
    /// Every board reachable from this one in a single valid unit move, each
    /// paired with the block (in its new position) that moved to get there.
    pub fn neighbors(&self) -> (r: Vec<(Block, Board)>)
        ensures
            r@.len() == neighbor_list(self@).len(),
            forall|k: int|
                0 <= k < r@.len() ==> (#[trigger] r@[k]).0 == neighbor_list(self@)[k].0 && r@[k].1@
                    == neighbor_list(self@)[k].1,
    {
        let n = self.blocks.len();
        let mut out: Vec<(Block, Board)> = Vec::new();
        let mut index: usize = 0;
        while index < n
            invariant
                n == self@.blocks.len(),
                index <= n,
                out@.len() == neighbor_entries(self@, (4 * index) as nat).len(),
                forall|k: int|
                    0 <= k < out@.len() ==> (#[trigger] out@[k]).0 == neighbor_entries(self@, (4 * index) as nat)[k].0
                        && out@[k].1@ == neighbor_entries(self@, (4 * index) as nat)[k].1,
            decreases n - index,
        {
            let mut d: usize = 0;
            while d < 4
                invariant
                    n == self@.blocks.len(),
                    index < n,
                    d <= 4,
                    out@.len() == neighbor_entries(self@, (4 * index + d) as nat).len(),
                    forall|k: int|
                        0 <= k < out@.len() ==> (#[trigger] out@[k]).0 == neighbor_entries(self@, (4 * index + d) as nat)[k].0
                            && out@[k].1@ == neighbor_entries(self@, (4 * index + d) as nat)[k].1,
                decreases 4 - d,
            {
                let ghost p: nat = (4 * index + d) as nat;
                let (dx, dy) = direction_exec(d);
                assert((p + 1 - 1) / 4 == index as int && (p + 1 - 1) % 4 == d as int);
                if self.can_move(index, dx, dy) {
                    let mut next = self.clone();
                    let res = next.move_block(index, dx, dy);
                    let moved = next.blocks[index];
                    out.push((moved, next));
                }
                d = d + 1;
            }
            index = index + 1;
        }
        out
    }
}

impl Board {
    /// Checks the board's invariant: positive dimensions, every block inside
    /// the bounds, and no two blocks overlapping. Reports the first failure.
    pub fn validate(&self) -> (r: Result<(), BoardError>)
        ensures
            r == self@.validation(),
            r is Ok <==> self@.wf(),
    {
        let ghost v = self@;
        if self.width == 0 || self.height == 0 {
            return Err(BoardError::ZeroDimension);
        }
        let n = self.blocks.len();
        let mut i: usize = 0;
        while i < n
            invariant
                v == self@,
                n == v.blocks.len(),
                i <= n,
                v.width > 0 && v.height > 0,
                forall|k: int| 0 <= k < i ==> v.in_bounds(#[trigger] v.blocks[k]),
            decreases n - i,
        {
            let b = self.blocks[i];
            if b.top_left.x > self.width || b.width > self.width - b.top_left.x
                || b.top_left.y > self.height || b.height > self.height - b.top_left.y {
                proof {
                    assert(v.first_out_of_bounds(i as int));
                    assert forall|k: int| v.first_out_of_bounds(k) implies k == i by {
                        if k < i {
                        } else if k > i {
                            assert(v.in_bounds(v.blocks[i as int]));
                        }
                    }
                    let kk = choose|k: int| v.first_out_of_bounds(k);
                    assert(kk == i);
                }
                return Err(BoardError::OutOfBounds(i));
            }
            i = i + 1;
        }
        assert(v.all_in_bounds());
        assert(!exists|k: int| v.first_out_of_bounds(k));
        let mut j: usize = 0;
        while j < n
            invariant
                v == self@,
                n == v.blocks.len(),
                j <= n,
                v.width > 0 && v.height > 0,
                v.all_in_bounds(),
                forall|k: int, d: Cell| 0 <= k < j ==> !v.clash(k, d),
            decreases n - j,
        {
            let bj = self.blocks[j];
            let mut best: Option<Cell> = None;
            let mut i: usize = 0;
            while i < j
                invariant
                    v == self@,
                    n == v.blocks.len(),
                    i <= j < n,
                    bj == v.blocks[j as int],
                    best is None ==> forall|k: int| 0 <= k < i ==> !blocks_overlap(#[trigger] v.blocks[k], bj),
                    best matches Some(c) ==> {
                        &&& covers(bj, c)
                        &&& exists|k: int| 0 <= k < i && covers(#[trigger] v.blocks[k], c)
                        &&& forall|d: Cell, k: int|
                            0 <= k < i && covers(bj, d) && #[trigger] covers(v.blocks[k], d) ==> row_major_le(c, d)
                    },
                decreases j - i,
            {
                let bi = self.blocks[i];
                if bi.overlaps(&bj) {
                    let cand = Cell {
                        x: if bi.top_left.x < bj.top_left.x { bj.top_left.x } else { bi.top_left.x },
                        y: if bi.top_left.y < bj.top_left.y { bj.top_left.y } else { bi.top_left.y },
                    };
                    proof {
                        lemma_meet_corner(bi, bj);
                        assert(cand == meet_corner(bi, bj));
                    }
                    let replace = match best {
                        None => true,
                        Some(c) => cand.y < c.y || (cand.y == c.y && cand.x < c.x),
                    };
                    if replace {
                        best = Some(cand);
                    }
                }
                i = i + 1;
            }
            match best {
                Some(c) => {
                    proof {
                        assert(v.clash(j as int, c));
                        assert forall|d: Cell| #[trigger] v.clash(j as int, d) implies row_major_le(c, d) by {
                            let k = choose|k: int| 0 <= k < j && covers(#[trigger] v.blocks[k], d);
                        }
                        assert(v.first_overlap(c));
                        let cc = choose|cc: Cell| v.first_overlap(cc);
                        lemma_first_overlap_unique(v, c, cc);
                    }
                    return Err(BoardError::Overlap(c));
                },
                None => {
                    assert forall|d: Cell| !v.clash(j as int, d) by {
                        if v.clash(j as int, d) {
                            let k = choose|k: int| 0 <= k < j && covers(#[trigger] v.blocks[k], d);
                            assert(blocks_overlap(v.blocks[k], bj));
                        }
                    }
                },
            }
            j = j + 1;
        }
        proof {
            lemma_validation_ok_wf(v);
            assert forall|c: Cell| !v.first_overlap(c) by {
                if v.first_overlap(c) {
                    let jj = choose|jj: int| #[trigger] v.clash(jj, c);
                    assert(v.clash(jj, c));
                }
            }
        }
        Ok(())
    }

    /// Builds a board from its parts, checking it with [`Board::validate`].
    pub fn from_parts(width: usize, height: usize, pinned: bool, blocks: Vec<Block>) -> (r: Result<Board, BoardError>)
        ensures
            r matches Ok(b) ==> b@ == (BoardView { width, height, pinned, blocks: blocks@ }),
            r matches Ok(b) ==> b@.wf(),
            r is Err ==> (BoardView { width, height, pinned, blocks: blocks@ }).validation() == Err::<(), BoardError>(r->Err_0),
            r is Ok <==> (BoardView { width, height, pinned, blocks: blocks@ }).validation() is Ok,
    {
        let board = Board { width, height, pinned, blocks };
        match board.validate() {
            Ok(()) => Ok(board),
            Err(e) => Err(e),
        }
    }

    /// Whether the block at `index` may move by `(delta_x, delta_y)`.
    pub fn can_move(&self, index: usize, delta_x: isize, delta_y: isize) -> (r: bool)
        ensures
            r == self@.can_move(index as int, delta_x as int, delta_y as int),
    {
        if delta_x != 0 && delta_y != 0 {
            return false;
        }
        if delta_x > 2 || delta_x < -2 || delta_y > 2 || delta_y < -2 {
            return false;
        }
        if index >= self.blocks.len() {
            return false;
        }
        let block = self.blocks[index];
        if self.pinned && ((block.height > 1 && delta_x != 0) || (block.width > 1 && delta_y
            != 0)) {
            return false;
        }
        if !self.lands_free(index, delta_x, delta_y) {
            return false;
        }
        if delta_x == 2 || delta_x == -2 || delta_y == 2 || delta_y == -2 {
            let hx: isize = if delta_x == 2 {
                1
            } else if delta_x == -2 {
                -1
            } else {
                delta_x
            };
            let hy: isize = if delta_y == 2 {
                1
            } else if delta_y == -2 {
                -1
            } else {
                delta_y
            };
            if !self.lands_free(index, hx, hy) {
                return false;
            }
        }
        true
    }

    /// Whether the block at `index`, moved by `(delta_x, delta_y)`, lies on
    /// the board and meets no other block.
    fn lands_free(&self, index: usize, delta_x: isize, delta_y: isize) -> (r: bool)
        requires
            index < self@.blocks.len(),
        ensures
            r == self@.lands_free(index as int, delta_x as int, delta_y as int),
    {
        let block = self.blocks[index];
        let moved = match block.moved(delta_x, delta_y) {
            Some(m) => m,
            None => return false,
        };
        if moved.top_left.x > self.width || moved.width > self.width - moved.top_left.x {
            return false;
        }
        if moved.top_left.y > self.height || moved.height > self.height - moved.top_left.y {
            return false;
        }
        let n = self.blocks.len();
        let mut j: usize = 0;
        while j < n
            invariant
                n == self.blocks.len(),
                j <= n,
                index < n,
                moved == moved_block(self@.blocks[index as int], delta_x as int, delta_y as int).unwrap(),
                forall|k: int| 0 <= k < j && k != index ==> !blocks_overlap(moved, #[trigger] self.blocks@[k]),
            decreases n - j,
        {
            if j != index && moved.overlaps(&self.blocks[j]) {
                assert(blocks_overlap(moved, self@.blocks[j as int]));
                return false;
            }
            j = j + 1;
        }
        true
    }

    /// Moves the block at `index` by `(delta_x, delta_y)` if that move is valid.
    pub fn move_block(&mut self, index: usize, delta_x: isize, delta_y: isize) -> (r: Result<(), BoardError>)
        ensures
            r is Ok <==> old(self)@.can_move(index as int, delta_x as int, delta_y as int),
            r is Ok ==> final(self)@ == old(self)@.after_move(index as int, delta_x as int, delta_y as int),
            r is Err ==> r == Err::<(), BoardError>(BoardError::InvalidMove(index)) && final(self)@ == old(self)@,
    {
        if !self.can_move(index, delta_x, delta_y) {
            return Err(BoardError::InvalidMove(index));
        }
        let moved = self.blocks[index].moved(delta_x, delta_y).unwrap();
        self.blocks.set(index, moved);
        Ok(())
    }

    /// Whether the block at `target_index` covers `goal_cell`.
    pub fn is_solved(&self, target_index: usize, goal_cell: Cell) -> (r: bool)
        ensures
            r == (target_index < self@.blocks.len() && covers(self@.blocks[target_index as int], goal_cell)),
    {
        if target_index >= self.blocks.len() {
            return false;
        }
        let b = self.blocks[target_index];
        let x_in = b.top_left.x <= goal_cell.x && goal_cell.x - b.top_left.x < b.width;
        let y_in = b.top_left.y <= goal_cell.y && goal_cell.y - b.top_left.y < b.height;
        x_in && y_in
    }
}

/// Two blocks are equal when they have the same position and shape; their
/// colors do not matter.
impl PartialEq for Block {
    fn eq(&self, other: &Self) -> (r: bool) {
        self.top_left == other.top_left && self.width == other.width && self.height == other.height
    }
}

impl PartialEqSpecImpl for Block {
    open spec fn obeys_eq_spec() -> bool {
        true
    }

    open spec fn eq_spec(&self, other: &Block) -> bool {
        self.top_left == other.top_left && self.width == other.width && self.height == other.height
    }
}

impl Eq for Block {

}

/// Whether two blocks have the same position and shape.
pub open spec fn same_shape(a: Block, b: Block) -> bool {
    a.top_left == b.top_left && a.width == b.width && a.height == b.height
}

/// Two boards are equal when they have the same size and pinning and, index
/// by index, blocks of the same position and shape.
impl PartialEq for Board {
    fn eq(&self, other: &Self) -> (r: bool) {
        if self.width != other.width || self.height != other.height || self.pinned != other.pinned
            || self.blocks.len() != other.blocks.len() {
            return false;
        }
        let n = self.blocks.len();
        let mut i: usize = 0;
        while i < n
            invariant
                n == self.blocks@.len(),
                n == other.blocks@.len(),
                i <= n,
                forall|j: int| 0 <= j < i ==> same_shape(#[trigger] self.blocks@[j], other.blocks@[j]),
            decreases n - i,
        {
            let a = self.blocks[i];
            let b = other.blocks[i];
            if !(a.top_left == b.top_left && a.width == b.width && a.height == b.height) {
                return false;
            }
            i = i + 1;
        }
        true
    }
}

impl PartialEqSpecImpl for Board {
    open spec fn obeys_eq_spec() -> bool {
        true
    }

    open spec fn eq_spec(&self, other: &Board) -> bool {
        &&& self@.width == other@.width
        &&& self@.height == other@.height
        &&& self@.pinned == other@.pinned
        &&& self@.blocks.len() == other@.blocks.len()
        &&& forall|j: int| 0 <= j < self@.blocks.len() ==> same_shape(#[trigger] self@.blocks[j], other@.blocks[j])
    }
}

impl Eq for Board {

}

impl Board {
    /// The board's width in cells.
    pub fn width(&self) -> (r: usize)
        ensures
            r == self@.width,
    {
        self.width
    }

    /// The board's height in cells.
    pub fn height(&self) -> (r: usize)
        ensures
            r == self@.height,
    {
        self.height
    }

    /// Whether long blocks may only slide along their short side.
    pub fn pinned(&self) -> (r: bool)
        ensures
            r == self@.pinned,
    {
        self.pinned
    }

    /// The blocks, in order.
    pub fn blocks(&self) -> (r: &Vec<Block>)
        ensures
            r@ == self@.blocks,
    {
        &self.blocks
    }
}

// ---------------------------------------------------------------------------
// Hashing

/// What identifies a block for hashing: its column, row, width and height.
pub type BlockKey = (usize, usize, usize, usize);

/// The key of a block; its color plays no part.
pub open spec fn block_key(b: Block) -> BlockKey {
    (b.top_left.x, b.top_left.y, b.width, b.height)
}

/// Lexicographic order on block keys.
pub open spec fn key_le(a: BlockKey, b: BlockKey) -> bool {
    a.0 < b.0 || (a.0 == b.0 && (a.1 < b.1 || (a.1 == b.1 && (a.2 < b.2 || (a.2 == b.2 && a.3
        <= b.3)))))
}

/// [`key_le`] as a relation.
pub open spec fn key_order() -> spec_fn(BlockKey, BlockKey) -> bool {
    |a: BlockKey, b: BlockKey| key_le(a, b)
}

/// The keys of a sequence of blocks, in the same order.
pub open spec fn block_keys(blocks: Seq<Block>) -> Seq<BlockKey> {
    blocks.map_values(|b: Block| block_key(b))
}

/// The keys of the blocks in canonical (sorted) order.
pub open spec fn canonical_keys(blocks: Seq<Block>) -> Seq<BlockKey> {
    block_keys(blocks).sort_by(key_order())
}

/// Name for the byte writes that `<usize as Hash>::hash` makes into a
/// `DefaultHasher` for the value `n`.
pub uninterp spec fn usize_hash_writes(n: usize) -> Seq<Seq<u8>>;

/// The writes made when hashing one key: column, row, width, height.
pub open spec fn key_writes(k: BlockKey) -> Seq<Seq<u8>> {
    usize_hash_writes(k.0) + usize_hash_writes(k.1) + usize_hash_writes(k.2) + usize_hash_writes(k.3)
}

/// The writes made when hashing a sequence of keys in order.
pub open spec fn keys_writes(ks: Seq<BlockKey>) -> Seq<Seq<u8>>
    decreases ks.len(),
{
    if ks.len() == 0 {
        Seq::empty()
    } else {
        keys_writes(ks.drop_last()) + key_writes(ks.last())
    }
}

/// The hash of a board: the blocks' keys, in canonical order, fed to a fresh
/// `DefaultHasher`.
pub open spec fn spec_board_hash(v: BoardView) -> u64 {
    DefaultHasher::spec_finish(keys_writes(canonical_keys(v.blocks)))
}

/// The writes hashing a block makes are those of its column, row, width and
/// height, each fed whole by `<usize as Hash>::hash`, in that order; its
/// color plays no part.
pub proof fn lemma_block_hash_writes(b: Block)
    ensures
        key_writes(block_key(b)) == usize_hash_writes(b.top_left.x) + usize_hash_writes(b.top_left.y)
            + usize_hash_writes(b.width) + usize_hash_writes(b.height),
{
}

/// The canonical order of a board's blocks lists the keys of its blocks, each
/// as often as it occurs, sorted by column, then row, then width, then height.
pub proof fn lemma_canonical_keys_sorted(blocks: Seq<Block>)
    ensures
        canonical_keys(blocks).to_multiset() == blocks.map_values(
            |b: Block| (b.top_left.x, b.top_left.y, b.width, b.height),
        ).to_multiset(),
        forall|i: int, j: int|
            0 <= i < j < canonical_keys(blocks).len() ==> {
                let a = #[trigger] canonical_keys(blocks)[i];
                let c = #[trigger] canonical_keys(blocks)[j];
                a.0 < c.0 || (a.0 == c.0 && (a.1 < c.1 || (a.1 == c.1 && (a.2 < c.2 || (a.2 == c.2
                    && a.3 <= c.3)))))
            },
{
    lemma_key_order_total();
    block_keys(blocks).lemma_sort_by_ensures(key_order());
    assert(block_keys(blocks) =~= blocks.map_values(|b: Block| (b.top_left.x, b.top_left.y, b.width, b.height)));
    let ck = canonical_keys(blocks);
    assert forall|i: int, j: int| 0 <= i < j < ck.len() implies key_le(#[trigger] ck[i], #[trigger] ck[j]) by {
        assert(sorted_by(ck, key_order()));
        assert((key_order())(ck[i], ck[j]));
    }
}

/// The hash of a board is what a fresh `DefaultHasher` finishes with after
/// the writes of its blocks, taken in canonical order, each block by
/// [`lemma_block_hash_writes`].
pub proof fn lemma_board_hash_writes(v: BoardView)
    ensures
        spec_board_hash(v) == DefaultHasher::spec_finish(keys_writes(canonical_keys(v.blocks))),
        forall|ks: Seq<BlockKey>|
            ks.len() > 0 ==> #[trigger] keys_writes(ks) == keys_writes(ks.drop_last()) + usize_hash_writes(
                ks.last().0,
            ) + usize_hash_writes(ks.last().1) + usize_hash_writes(ks.last().2) + usize_hash_writes(ks.last().3),
        keys_writes(Seq::<BlockKey>::empty()) == Seq::<Seq<u8>>::empty(),
{
}

/// Feeds `n` into `state` by `<usize as std::hash::Hash>::hash`.
/// Trusted: the writes this makes are a function of `n` alone
/// ([`usize_hash_writes`]) and are appended to those made before.
#[verifier::external_body]
fn hash_usize(n: usize, state: &mut DefaultHasher)
    ensures
        final(state)@ == old(state)@ + usize_hash_writes(n),
{
    std::hash::Hash::hash(&n, state)
}

fn hash_key(k: BlockKey, state: &mut DefaultHasher)
    ensures
        final(state)@ == old(state)@ + key_writes(k),
{
    hash_usize(k.0, state);
    hash_usize(k.1, state);
    hash_usize(k.2, state);
    hash_usize(k.3, state);
    assert(final(state)@ =~= old(state)@ + key_writes(k));
}

/// `a` comes strictly before `b` in key order.
fn key_less(a: BlockKey, b: BlockKey) -> (r: bool)
    ensures
        r == !key_le(b, a),
{
    if a.0 != b.0 {
        a.0 < b.0
    } else if a.1 != b.1 {
        a.1 < b.1
    } else if a.2 != b.2 {
        a.2 < b.2
    } else {
        a.3 < b.3
    }
}

/// Key order is a total order.
pub proof fn lemma_key_order_total()
    ensures
        total_ordering(key_order()),
{
}

proof fn lemma_insert_sorted(s: Seq<BlockKey>, pos: int, k: BlockKey)
    requires
        sorted_by(s, key_order()),
        0 <= pos <= s.len(),
        forall|j: int| 0 <= j < pos ==> key_le(#[trigger] s[j], k),
        forall|j: int| pos <= j < s.len() ==> key_le(k, #[trigger] s[j]),
    ensures
        sorted_by(s.insert(pos, k), key_order()),
{
    s.insert_ensures(pos, k);
    let t = s.insert(pos, k);
    assert forall|a: int, b: int| 0 <= a < b < t.len() implies #[trigger] key_order()(t[a], t[b]) by {
        if b < pos {
            assert(key_order()(s[a], s[b]));
        } else if b == pos {
        } else if a < pos {
            assert(key_le(s[a], k));
            assert(key_le(k, s[b - 1]));
        } else if a == pos {
        } else {
            assert(key_order()(s[a - 1], s[b - 1]));
        }
    }
}

proof fn lemma_keys_writes_step(ks: Seq<BlockKey>, i: int)
    requires
        0 <= i < ks.len(),
    ensures
        keys_writes(ks.take(i + 1)) == keys_writes(ks.take(i)) + key_writes(ks[i]),
{
    assert(ks.take(i + 1).drop_last() =~= ks.take(i));
}

/// Boards whose blocks have the same keys, in whatever order and whatever
/// colors, have the same hash.
pub proof fn lemma_hash_ignores_block_order(a: BoardView, b: BoardView)
    requires
        block_keys(a.blocks).to_multiset() == block_keys(b.blocks).to_multiset(),
    ensures
        spec_board_hash(a) == spec_board_hash(b),
{
    lemma_key_order_total();
    block_keys(a.blocks).lemma_sort_by_ensures(key_order());
    block_keys(b.blocks).lemma_sort_by_ensures(key_order());
    vstd::seq_lib::lemma_sorted_unique(canonical_keys(a.blocks), canonical_keys(b.blocks), key_order());
}

impl Block {
    /// Feeds this block's column, row, width and height into `state`.
    pub fn hash(&self, state: &mut DefaultHasher)
        ensures
            final(state)@ == old(state)@ + key_writes(block_key(*self)),
    {
        hash_key((self.top_left.x, self.top_left.y, self.width, self.height), state);
    }
}

impl Board {
    /// The keys of the blocks, sorted into canonical order.
    fn sorted_keys(&self) -> (r: Vec<BlockKey>)
        ensures
            r@ == canonical_keys(self@.blocks),
    {
        let n = self.blocks.len();
        let ghost keys = block_keys(self@.blocks);
        let mut sorted: Vec<BlockKey> = Vec::new();
        assert(sorted@ =~= keys.take(0));
        let mut i: usize = 0;
        while i < n
            invariant
                n == self@.blocks.len(),
                keys == block_keys(self@.blocks),
                i <= n,
                sorted_by(sorted@, key_order()),
                sorted@.to_multiset() == keys.take(i as int).to_multiset(),
            decreases n - i,
        {
            let b = self.blocks[i];
            let k: BlockKey = (b.top_left.x, b.top_left.y, b.width, b.height);
            assert(k == keys[i as int]);
            let mut pos: usize = 0;
            while pos < sorted.len() && !key_less(k, sorted[pos])
                invariant
                    pos <= sorted@.len(),
                    forall|j: int| 0 <= j < pos ==> key_le(#[trigger] sorted@[j], k),
                decreases sorted@.len() - pos,
            {
                pos = pos + 1;
            }
            proof {
                assert forall|j: int| pos <= j < sorted@.len() implies key_le(k, #[trigger] sorted@[j]) by {
                    if j > pos {
                        assert(key_order()(sorted@[pos as int], sorted@[j]));
                    }
                }
                lemma_insert_sorted(sorted@, pos as int, k);
                vstd::seq_lib::to_multiset_insert(sorted@, pos as int, k);
                assert(keys.take(i + 1) =~= keys.take(i as int).push(k));
                vstd::seq_lib::to_multiset_build(keys.take(i as int), k);
            }
            sorted.insert(pos, k);
            i = i + 1;
        }
        proof {
            assert(keys.take(n as int) =~= keys);
            lemma_key_order_total();
            keys.lemma_sort_by_ensures(key_order());
            vstd::seq_lib::lemma_sorted_unique(sorted@, keys.sort_by(key_order()), key_order());
        }
        sorted
    }

    /// Feeds the board into `state`: the blocks' keys in canonical
    /// (position-sorted) order, so that equivalent states hash alike whatever
    /// order their blocks are stored in.
    pub fn hash(&self, state: &mut DefaultHasher)
        ensures
            final(state)@ == old(state)@ + keys_writes(canonical_keys(self@.blocks)),
    {
        let keys = self.sorted_keys();
        let n = keys.len();
        let ghost start = state@;
        let mut i: usize = 0;
        while i < n
            invariant
                n == keys@.len(),
                i <= n,
                state@ == start + keys_writes(keys@.take(i as int)),
            decreases n - i,
        {
            proof {
                lemma_keys_writes_step(keys@, i as int);
            }
            hash_key(keys[i], state);
            i = i + 1;
            assert(state@ =~= start + keys_writes(keys@.take(i as int)));
        }
        assert(keys@.take(n as int) =~= keys@);
        assert(state@ =~= start + keys_writes(keys@));
    }

    /// The board's hash: equal for boards with the same blocks in any order.
    pub fn board_hash(&self) -> (r: u64)
        ensures
            r == spec_board_hash(self@),
    {
        let mut hasher = DefaultHasher::new();
        self.hash(&mut hasher);
        assert(hasher@ =~= keys_writes(canonical_keys(self@.blocks)));
        std::hash::Hasher::finish(&hasher)
    }
}

} // verus!
