//! The mathematical model of a step.
//!
//! A step is described one traversal line at a time. A line is the sequence
//! of cells of one traversal column, ordered from the edge tiles slide
//! toward (`y = 0`) backward. `line_slide` gives the cells after compaction
//! and the ordered trace of moves; `step_cells` and `step_moves` assemble the
//! lines into the whole grid's result, in traversal-column order.

use vstd::prelude::*;

verus! {

use crate::game::{Direction, Value, MAX_VALUE};
use crate::traversal::{cell_index, traversal_height, traversal_width};

/// A move in the abstract model, with unbounded indices. Inside a line the
/// indices are traversal rows; at grid level they are linear cell indices.
pub ghost struct MoveModel {
    pub src: int,
    pub dst: int,
    pub merge: bool,
}

/// One pass of the write cursor over a line, starting at source row `y1`
/// with the cursor at row `y0`. At each occupied source row, the tile
/// moves onto the cursor if that cell is empty, merges with it if the two
/// are equal (finalizing the cursor, so no cell merges twice in one step),
/// and otherwise finalizes the cursor and settles just behind it.
pub open spec fn line_slide_from(c: Seq<Option<Value>>, y0: int, y1: int) -> (Seq<
    Option<Value>,
>, Seq<MoveModel>)
    decreases c.len() - y1,
{
    if y1 >= c.len() || !(0 <= y0 <= y1) {
        (c, Seq::<MoveModel>::empty())
    } else if c[y1] is None || y0 == y1 {
        line_slide_from(c, y0, y1 + 1)
    } else {
        let v = c[y1]->Some_0;
        if c[y0] is None {
            // the cursor cell is empty: move onto it, and leave the cursor
            // there so that a later tile may still merge with this one
            let slid = line_slide_from(c.update(y1, None).update(y0, Some(v)), y0, y1 + 1);
            (slid.0, seq![MoveModel { src: y1, dst: y0, merge: false }] + slid.1)
        } else if c[y0]->Some_0 == v && v < MAX_VALUE {
            // equal values: merge into the next generation and finalize the
            // cursor (equal values of the largest generation no longer merge)
            let slid = line_slide_from(
                c.update(y1, None).update(y0, Some((v + 1) as Value)),
                y0 + 1,
                y1 + 1,
            );
            (slid.0, seq![MoveModel { src: y1, dst: y0, merge: true }] + slid.1)
        } else if y0 + 1 == y1 {
            // the cursor holds a different value and the tile already sits
            // just behind it: nothing moves
            line_slide_from(c, y0 + 1, y1 + 1)
        } else {
            // the cursor holds a different value: settle just behind it
            let slid = line_slide_from(c.update(y1, None).update(y0 + 1, Some(v)), y0 + 1, y1 + 1);
            (slid.0, seq![MoveModel { src: y1, dst: y0 + 1, merge: false }] + slid.1)
        }
    }
}

/// Cells and move trace of one line after a step.
pub open spec fn line_slide(c: Seq<Option<Value>>) -> (Seq<Option<Value>>, Seq<MoveModel>) {
    line_slide_from(c, 0, 0)
}

/// The cells of traversal column `x`, ordered by traversal row.
pub open spec fn line_of(g: Seq<Option<Value>>, dir: Direction, w: int, h: int, x: int) -> Seq<
    Option<Value>,
> {
    Seq::new(
        traversal_height(dir, w, h) as nat,
        |y: int| g[cell_index(dir, w, h, x, y)],
    )
}

/// The grid after the first `k` cells of line `x` are replaced by `nl`.
pub open spec fn write_line_upto(
    g: Seq<Option<Value>>,
    dir: Direction,
    w: int,
    h: int,
    x: int,
    nl: Seq<Option<Value>>,
    k: int,
) -> Seq<Option<Value>>
    decreases k,
{
    if k <= 0 {
        g
    } else {
        write_line_upto(g, dir, w, h, x, nl, k - 1).update(cell_index(dir, w, h, x, k - 1), nl[k - 1])
    }
}

/// The grid after line `x` is replaced by `nl`.
pub open spec fn write_line(
    g: Seq<Option<Value>>,
    dir: Direction,
    w: int,
    h: int,
    x: int,
    nl: Seq<Option<Value>>,
) -> Seq<Option<Value>> {
    write_line_upto(g, dir, w, h, x, nl, nl.len() as int)
}

/// A line move of column `x`, carried to linear grid indices.
pub open spec fn to_grid_move(dir: Direction, w: int, h: int, x: int, m: MoveModel) -> MoveModel {
    MoveModel {
        src: cell_index(dir, w, h, x, m.src),
        dst: cell_index(dir, w, h, x, m.dst),
        merge: m.merge,
    }
}

/// The line moves of column `x`, carried to linear grid indices.
pub open spec fn grid_moves(ms: Seq<MoveModel>, dir: Direction, w: int, h: int, x: int) -> Seq<
    MoveModel,
> {
    ms.map_values(|m: MoveModel| to_grid_move(dir, w, h, x, m))
}

/// Cells and move trace after the first `x` traversal columns have slid,
/// lines taken in traversal-column order.
pub open spec fn step_lines(g: Seq<Option<Value>>, dir: Direction, w: int, h: int, x: int) -> (Seq<
    Option<Value>,
>, Seq<MoveModel>)
    decreases x,
{
    if x <= 0 {
        (g, Seq::<MoveModel>::empty())
    } else {
        let prev = step_lines(g, dir, w, h, x - 1);
        let slid = line_slide(line_of(prev.0, dir, w, h, x - 1));
        (
            write_line(prev.0, dir, w, h, x - 1, slid.0),
            prev.1 + grid_moves(slid.1, dir, w, h, x - 1),
        )
    }
}

/// The grid's cells after a step in direction `dir`.
pub open spec fn step_cells(g: Seq<Option<Value>>, dir: Direction, w: int, h: int) -> Seq<
    Option<Value>,
> {
    step_lines(g, dir, w, h, traversal_width(dir, w, h)).0
}

/// The ordered move trace of a step in direction `dir`.
pub open spec fn step_moves(g: Seq<Option<Value>>, dir: Direction, w: int, h: int) -> Seq<
    MoveModel,
> {
    step_lines(g, dir, w, h, traversal_width(dir, w, h)).1
}

/// The abstract content of an executable move record.
pub open spec fn move_model(m: crate::game::Move) -> MoveModel {
    MoveModel { src: m.src as int, dst: m.dst as int, merge: m.merge }
}

/// The abstract content of an executable move list.
pub open spec fn moves_model(ms: Seq<crate::game::Move>) -> Seq<MoveModel> {
    ms.map_values(|m: crate::game::Move| move_model(m))
}

/// How many cells of `g` before index `k` hold a tile.
pub open spec fn count_filled_upto(g: Seq<Option<Value>>, k: int) -> nat
    decreases k,
{
    if k <= 0 {
        0
    } else {
        count_filled_upto(g, k - 1) + if g[k - 1] is Some {
            1nat
        } else {
            0nat
        }
    }
}

/// How many cells of `g` hold a tile.
pub open spec fn count_filled(g: Seq<Option<Value>>) -> nat {
    count_filled_upto(g, g.len() as int)
}

/// How many moves of `ms` are merges.
pub open spec fn count_merges(ms: Seq<MoveModel>) -> nat
    decreases ms.len(),
{
    if ms.len() == 0 {
        0
    } else {
        (if ms[0].merge {
            1nat
        } else {
            0nat
        }) + count_merges(ms.skip(1))
    }
}

/// The values of the occupied cells, in order.
pub open spec fn tiles_of(s: Seq<Option<Value>>) -> Seq<Value>
    decreases s.len(),
{
    if s.len() == 0 {
        Seq::<Value>::empty()
    } else if s[0] is Some {
        seq![s[0]->Some_0] + tiles_of(s.skip(1))
    } else {
        tiles_of(s.skip(1))
    }
}

/// Greedy pairwise merging of a value stream, front to back: two equal
/// leading values below the largest generation become one of the next
/// generation, and a merged value never merges again.
pub open spec fn merge_pairs(vs: Seq<Value>) -> Seq<Value>
    decreases vs.len(),
{
    if vs.len() >= 2 && vs[0] == vs[1] && vs[0] < MAX_VALUE {
        seq![(vs[0] + 1) as Value] + merge_pairs(vs.skip(2))
    } else if vs.len() >= 1 {
        seq![vs[0]] + merge_pairs(vs.skip(1))
    } else {
        Seq::<Value>::empty()
    }
}

/// The values laid into a line of length `n`, front-aligned, the rest empty.
pub open spec fn padded(vs: Seq<Value>, n: int) -> Seq<Option<Value>> {
    Seq::new(
        n as nat,
        |i: int|
            if i < vs.len() {
                Some(vs[i])
            } else {
                None
            },
    )
}

/// Appending an executable move appends its abstract content.
pub proof fn lemma_moves_model_push(ms: Seq<crate::game::Move>, m: crate::game::Move)
    ensures
        moves_model(ms.push(m)) == moves_model(ms).push(move_model(m)),
{
    assert(moves_model(ms.push(m)) =~= moves_model(ms).push(move_model(m)));
}

/// No further move is possible: every cell is occupied and no two
/// orthogonally adjacent cells hold equal values (`w` is the row length).
pub open spec fn spec_is_over(g: Seq<Option<Value>>, w: int) -> bool {
    &&& forall|i: int| 0 <= i < g.len() ==> g[i] is Some
    &&& forall|i: int| 0 <= i < g.len() && i % w != 0 ==> g[i - 1] != #[trigger] g[i]
    &&& forall|i: int| w <= i < g.len() ==> g[i - w] != #[trigger] g[i]
}

/// A line already compacted toward `y = 0` with no two adjacent equal
/// values: a step leaves such a line unchanged.
pub open spec fn line_settled(c: Seq<Option<Value>>) -> bool {
    &&& forall|y: int| 0 <= y < c.len() - 1 && #[trigger] c[y] is None ==> c[y + 1] is None
    &&& forall|y: int|
        0 <= y < c.len() - 1 && #[trigger] c[y] is Some && c[y + 1] is Some ==> c[y] != c[y + 1]
}

/// Every traversal line of `g` is settled for direction `dir`.
pub open spec fn grid_settled(g: Seq<Option<Value>>, dir: Direction, w: int, h: int) -> bool {
    forall|x: int| #![auto]
        0 <= x < traversal_width(dir, w, h) ==> line_settled(line_of(g, dir, w, h, x))
}

/// Exactly one cell of `g`, the one at index `i`, holds a tile.
pub open spec fn lone_tile(g: Seq<Option<Value>>, i: int) -> bool {
    &&& 0 <= i < g.len()
    &&& g[i] is Some
    &&& forall|j: int| 0 <= j < g.len() && j != i ==> g[j] is None
}

/// Where the tile at linear index `i` ends a step when nothing blocks it:
/// the near edge of its traversal column.
pub open spec fn lone_dest(dir: Direction, w: int, h: int, i: int) -> int {
    cell_index(dir, w, h, crate::traversal::column_of(dir, w, h, i), 0)
}

} // verus!
