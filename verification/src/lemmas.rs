//! Proved laws of the step engine.
//!
//! The public proof functions state what holds of every grid and direction:
//! conservation of tiles, idempotence of a settled grid, at most one merge
//! per destination cell, what each line computes, and where a lone tile
//! travels. The private lemmas carry the inductions over the line model.

use vstd::prelude::*;

verus! {

use crate::game::{Direction, Value, MAX_VALUE};
use crate::model::{
    count_filled,
    count_filled_upto,
    count_merges,
    grid_moves,
    grid_settled,
    line_of,
    line_settled,
    line_slide,
    line_slide_from,
    lone_dest,
    lone_tile,
    merge_pairs,
    padded,
    spec_is_over,
    step_cells,
    step_lines,
    step_moves,
    tiles_of,
    to_grid_move,
    write_line,
    write_line_upto,
    MoveModel,
};
use crate::traversal::{
    cell_index,
    column_of,
    lemma_cell_index_inverse,
    lemma_linear_index_inverse,
    row_of,
    traversal_height,
    traversal_width,
};

/// Sliding a line never changes its length.
pub proof fn lemma_line_slide_len(c: Seq<Option<Value>>, y0: int, y1: int)
    ensures
        line_slide_from(c, y0, y1).0.len() == c.len(),
    decreases c.len() - y1,
{
    if y1 >= c.len() || !(0 <= y0 <= y1) {
    } else if c[y1] is None || y0 == y1 {
        lemma_line_slide_len(c, y0, y1 + 1);
    } else {
        let v = c[y1]->Some_0;
        if c[y0] is None {
            lemma_line_slide_len(c.update(y1, None).update(y0, Some(v)), y0, y1 + 1);
        } else if c[y0]->Some_0 == v && v < MAX_VALUE {
            lemma_line_slide_len(
                c.update(y1, None).update(y0, Some((v + 1) as Value)),
                y0 + 1,
                y1 + 1,
            );
        } else if y0 + 1 == y1 {
            lemma_line_slide_len(c, y0 + 1, y1 + 1);
        } else {
            lemma_line_slide_len(c.update(y1, None).update(y0 + 1, Some(v)), y0 + 1, y1 + 1);
        }
    }
}

/// Replacing one cell changes a prefix count by the difference the cell
/// makes, and only when the cell lies in the prefix.
pub(crate) proof fn lemma_count_filled_upto_update(g: Seq<Option<Value>>, i: int, v: Option<Value>, k: int)
    requires
        0 <= i < g.len(),
        k <= g.len(),
    ensures
        count_filled_upto(g.update(i, v), k) + (if i < k && g[i] is Some {
            1nat
        } else {
            0nat
        }) == count_filled_upto(g, k) + (if i < k && v is Some {
            1nat
        } else {
            0nat
        }),
    decreases k,
{
    if k > 0 {
        lemma_count_filled_upto_update(g, i, v, k - 1);
    }
}

/// A prepended move adds its own merge count.
proof fn lemma_count_merges_prepend(m: MoveModel, t: Seq<MoveModel>)
    ensures
        count_merges(seq![m] + t) == (if m.merge {
            1nat
        } else {
            0nat
        }) + count_merges(t),
{
    let s = seq![m] + t;
    assert(s.skip(1) =~= t);
    assert(s[0] == m);
}

/// Merge counts add over concatenation.
proof fn lemma_count_merges_concat(a: Seq<MoveModel>, b: Seq<MoveModel>)
    ensures
        count_merges(a + b) == count_merges(a) + count_merges(b),
    decreases a.len(),
{
    if a.len() == 0 {
        assert(a + b =~= b);
    } else {
        lemma_count_merges_concat(a.skip(1), b);
        assert((a + b).skip(1) =~= a.skip(1) + b);
        assert((a + b)[0] == a[0]);
    }
}

/// Carrying line moves to grid indices keeps the merge flags.
proof fn lemma_count_merges_grid(ms: Seq<MoveModel>, dir: Direction, w: int, h: int, x: int)
    ensures
        count_merges(grid_moves(ms, dir, w, h, x)) == count_merges(ms),
    decreases ms.len(),
{
    if ms.len() > 0 {
        lemma_count_merges_grid(ms.skip(1), dir, w, h, x);
        assert(grid_moves(ms, dir, w, h, x).skip(1) =~= grid_moves(ms.skip(1), dir, w, h, x));
        assert(grid_moves(ms, dir, w, h, x)[0] == to_grid_move(dir, w, h, x, ms[0]));
    }
}

/// Sliding one line conserves tiles: every merge removes exactly one.
proof fn lemma_line_slide_conserves(c: Seq<Option<Value>>, y0: int, y1: int)
    requires
        0 <= y0 <= y1,
        forall|y: int| y0 < y < y1 ==> (#[trigger] c[y]) is None,
    ensures
        count_filled(line_slide_from(c, y0, y1).0) + count_merges(line_slide_from(c, y0, y1).1)
            == count_filled(c),
    decreases c.len() - y1,
{
    let n = c.len() as int;
    if y1 >= c.len() {
    } else if c[y1] is None || y0 == y1 {
        lemma_line_slide_conserves(c, y0, y1 + 1);
    } else {
        let v = c[y1]->Some_0;
        if c[y0] is None {
            let c2 = c.update(y1, None).update(y0, Some(v));
            assert(line_slide_from(c, y0, y1).0 == line_slide_from(c2, y0, y1 + 1).0);
            assert(line_slide_from(c, y0, y1).1 == seq![
                MoveModel { src: y1, dst: y0, merge: false },
            ] + line_slide_from(c2, y0, y1 + 1).1);
            lemma_line_slide_conserves(c2, y0, y1 + 1);
            lemma_count_filled_upto_update(c, y1, None, n);
            lemma_count_filled_upto_update(c.update(y1, None), y0, Some(v), n);
            lemma_count_merges_prepend(
                MoveModel { src: y1, dst: y0, merge: false },
                line_slide_from(c2, y0, y1 + 1).1,
            );
        } else if c[y0]->Some_0 == v && v < MAX_VALUE {
            let c2 = c.update(y1, None).update(y0, Some((v + 1) as Value));
            assert(line_slide_from(c, y0, y1).0 == line_slide_from(c2, y0 + 1, y1 + 1).0);
            assert(line_slide_from(c, y0, y1).1 == seq![
                MoveModel { src: y1, dst: y0, merge: true },
            ] + line_slide_from(c2, y0 + 1, y1 + 1).1);
            lemma_line_slide_conserves(c2, y0 + 1, y1 + 1);
            lemma_count_filled_upto_update(c, y1, None, n);
            lemma_count_filled_upto_update(c.update(y1, None), y0, Some((v + 1) as Value), n);
            lemma_count_merges_prepend(
                MoveModel { src: y1, dst: y0, merge: true },
                line_slide_from(c2, y0 + 1, y1 + 1).1,
            );
        } else if y0 + 1 == y1 {
            lemma_line_slide_conserves(c, y0 + 1, y1 + 1);
        } else {
            let c2 = c.update(y1, None).update(y0 + 1, Some(v));
            assert(line_slide_from(c, y0, y1).0 == line_slide_from(c2, y0 + 1, y1 + 1).0);
            assert(line_slide_from(c, y0, y1).1 == seq![
                MoveModel { src: y1, dst: y0 + 1, merge: false },
            ] + line_slide_from(c2, y0 + 1, y1 + 1).1);
            lemma_line_slide_conserves(c2, y0 + 1, y1 + 1);
            lemma_count_filled_upto_update(c, y1, None, n);
            lemma_count_filled_upto_update(c.update(y1, None), y0 + 1, Some(v), n);
            lemma_count_merges_prepend(
                MoveModel { src: y1, dst: y0 + 1, merge: false },
                line_slide_from(c2, y0 + 1, y1 + 1).1,
            );
        }
    }
}

/// Writing a prefix of a new line touches no cell outside that prefix.
proof fn lemma_write_line_upto_untouched(
    g: Seq<Option<Value>>,
    dir: Direction,
    w: int,
    h: int,
    x: int,
    nl: Seq<Option<Value>>,
    k: int,
    j: int,
)
    requires
        g.len() == w * h,
        0 <= x < traversal_width(dir, w, h),
        0 <= k <= traversal_height(dir, w, h),
        forall|y: int| 0 <= y < k ==> #[trigger] cell_index(dir, w, h, x, y) != j,
    ensures
        write_line_upto(g, dir, w, h, x, nl, k).len() == g.len(),
        0 <= j < g.len() ==> write_line_upto(g, dir, w, h, x, nl, k)[j] == g[j],
    decreases k,
{
    if k > 0 {
        lemma_write_line_upto_untouched(g, dir, w, h, x, nl, k - 1, j);
        lemma_cell_index_inverse(dir, w, h, x, k - 1);
    }
}

/// Writing a prefix of a new line puts its cells where they belong.
proof fn lemma_write_line_upto_at(
    g: Seq<Option<Value>>,
    dir: Direction,
    w: int,
    h: int,
    x: int,
    nl: Seq<Option<Value>>,
    k: int,
    y: int,
)
    requires
        g.len() == w * h,
        0 <= x < traversal_width(dir, w, h),
        0 <= k <= traversal_height(dir, w, h),
        0 <= y < k,
    ensures
        write_line_upto(g, dir, w, h, x, nl, k).len() == g.len(),
        write_line_upto(g, dir, w, h, x, nl, k)[cell_index(dir, w, h, x, y)] == nl[y],
    decreases k,
{
    lemma_cell_index_inverse(dir, w, h, x, y);
    lemma_cell_index_inverse(dir, w, h, x, k - 1);
    if y == k - 1 {
        assert forall|y2: int| 0 <= y2 < k - 1 implies #[trigger] cell_index(dir, w, h, x, y2)
            != cell_index(dir, w, h, x, y) by {
            lemma_cell_index_inverse(dir, w, h, x, y2);
        }
        lemma_write_line_upto_untouched(g, dir, w, h, x, nl, k - 1, cell_index(dir, w, h, x, y));
    } else {
        lemma_write_line_upto_at(g, dir, w, h, x, nl, k - 1, y);
    }
}

/// Replacing a line changes the grid's tile count by the difference between
/// the new line's count and the old one's.
proof fn lemma_write_line_upto_count(
    g: Seq<Option<Value>>,
    dir: Direction,
    w: int,
    h: int,
    x: int,
    nl: Seq<Option<Value>>,
    k: int,
)
    requires
        g.len() == w * h,
        0 <= x < traversal_width(dir, w, h),
        0 <= k <= traversal_height(dir, w, h),
        nl.len() == traversal_height(dir, w, h),
    ensures
        write_line_upto(g, dir, w, h, x, nl, k).len() == g.len(),
        count_filled(write_line_upto(g, dir, w, h, x, nl, k)) + count_filled_upto(
            line_of(g, dir, w, h, x),
            k,
        ) == count_filled(g) + count_filled_upto(nl, k),
    decreases k,
{
    if k > 0 {
        lemma_write_line_upto_count(g, dir, w, h, x, nl, k - 1);
        let prev = write_line_upto(g, dir, w, h, x, nl, k - 1);
        let i = cell_index(dir, w, h, x, k - 1);
        lemma_cell_index_inverse(dir, w, h, x, k - 1);
        assert forall|y: int| 0 <= y < k - 1 implies #[trigger] cell_index(dir, w, h, x, y)
            != i by {
            lemma_cell_index_inverse(dir, w, h, x, y);
        }
        lemma_write_line_upto_untouched(g, dir, w, h, x, nl, k - 1, i);
        lemma_count_filled_upto_update(prev, i, nl[k - 1], prev.len() as int);
        assert(line_of(g, dir, w, h, x)[k - 1] == g[i]);
    }
}

/// Tile counts over the first `x` lines of a step: what remains plus one per
/// merge is what was there.
proof fn lemma_step_lines_conserves(g: Seq<Option<Value>>, dir: Direction, w: int, h: int, x: int)
    requires
        0 <= w,
        0 <= h,
        g.len() == w * h,
        0 <= x <= traversal_width(dir, w, h),
    ensures
        step_lines(g, dir, w, h, x).0.len() == g.len(),
        count_filled(step_lines(g, dir, w, h, x).0) + count_merges(step_lines(g, dir, w, h, x).1)
            == count_filled(g),
    decreases x,
{
    if x > 0 {
        lemma_step_lines_conserves(g, dir, w, h, x - 1);
        let prev = step_lines(g, dir, w, h, x - 1);
        let ln = line_of(prev.0, dir, w, h, x - 1);
        let slid = line_slide(ln);
        lemma_line_slide_len(ln, 0, 0);
        lemma_line_slide_conserves(ln, 0, 0);
        lemma_write_line_upto_count(prev.0, dir, w, h, x - 1, slid.0, slid.0.len() as int);
        lemma_count_merges_concat(prev.1, grid_moves(slid.1, dir, w, h, x - 1));
        lemma_count_merges_grid(slid.1, dir, w, h, x - 1);
        assert(count_filled_upto(ln, ln.len() as int) == count_filled(ln));
    }
}

/// A scan over empty cells finds nothing to do.
proof fn lemma_line_slide_all_none(c: Seq<Option<Value>>, y0: int, y1: int)
    requires
        0 <= y0 <= y1,
        forall|i: int| y1 <= i < c.len() ==> (#[trigger] c[i]) is None,
    ensures
        line_slide_from(c, y0, y1) == (c, Seq::<MoveModel>::empty()),
    decreases c.len() - y1,
{
    if y1 < c.len() {
        lemma_line_slide_all_none(c, y0, y1 + 1);
    }
}

/// On a settled line, everything past an empty cell is empty.
proof fn lemma_settled_none_tail(c: Seq<Option<Value>>, i: int)
    requires
        line_settled(c),
        0 <= i < c.len(),
        c[i] is None,
    ensures
        forall|j: int| i <= j < c.len() ==> (#[trigger] c[j]) is None,
    decreases c.len() - i,
{
    if i + 1 < c.len() {
        lemma_settled_none_tail(c, i + 1);
    }
}

/// On a settled line the cursor trails the scan by one occupied cell and
/// nothing ever moves.
proof fn lemma_line_slide_settled_from(c: Seq<Option<Value>>, y1: int)
    requires
        line_settled(c),
        1 <= y1 <= c.len(),
        c[y1 - 1] is Some,
    ensures
        line_slide_from(c, y1 - 1, y1) == (c, Seq::<MoveModel>::empty()),
    decreases c.len() - y1,
{
    if y1 == c.len() {
    } else if c[y1] is None {
        lemma_settled_none_tail(c, y1);
        lemma_line_slide_all_none(c, y1 - 1, y1);
    } else {
        lemma_line_slide_settled_from(c, y1 + 1);
        assert(c[y1 - 1] != c[y1]);
        assert(line_slide_from(c, y1 - 1, y1) == line_slide_from(c, y1, y1 + 1));
    }
}

/// A settled line is left exactly as it is, with no move to report.
proof fn lemma_line_slide_settled(c: Seq<Option<Value>>)
    requires
        line_settled(c),
    ensures
        line_slide(c) == (c, Seq::<MoveModel>::empty()),
{
    if c.len() == 0 {
    } else if c[0] is None {
        lemma_settled_none_tail(c, 0);
        lemma_line_slide_all_none(c, 0, 0);
    } else {
        lemma_line_slide_settled_from(c, 1);
        assert(line_slide_from(c, 0, 0) == line_slide_from(c, 0, 1));
    }
}

/// Writing a line's own cells back leaves the grid unchanged.
proof fn lemma_write_line_upto_id(g: Seq<Option<Value>>, dir: Direction, w: int, h: int, x: int, k: int)
    requires
        g.len() == w * h,
        0 <= x < traversal_width(dir, w, h),
        0 <= k <= traversal_height(dir, w, h),
    ensures
        write_line_upto(g, dir, w, h, x, line_of(g, dir, w, h, x), k) == g,
    decreases k,
{
    if k > 0 {
        lemma_write_line_upto_id(g, dir, w, h, x, k - 1);
        lemma_cell_index_inverse(dir, w, h, x, k - 1);
        let i = cell_index(dir, w, h, x, k - 1);
        assert(line_of(g, dir, w, h, x)[k - 1] == g[i]);
        assert(g.update(i, g[i]) =~= g);
    }
}

/// Stepping the first `x` lines of a settled grid does nothing.
proof fn lemma_step_lines_settled(g: Seq<Option<Value>>, dir: Direction, w: int, h: int, x: int)
    requires
        0 <= w,
        0 <= h,
        g.len() == w * h,
        0 <= x <= traversal_width(dir, w, h),
        grid_settled(g, dir, w, h),
    ensures
        step_lines(g, dir, w, h, x) == (g, Seq::<MoveModel>::empty()),
    decreases x,
{
    if x > 0 {
        lemma_step_lines_settled(g, dir, w, h, x - 1);
        let ln = line_of(g, dir, w, h, x - 1);
        lemma_line_slide_settled(ln);
        lemma_write_line_upto_id(g, dir, w, h, x - 1, ln.len() as int);
        assert(grid_moves(Seq::<MoveModel>::empty(), dir, w, h, x - 1) =~= Seq::<
            MoveModel,
        >::empty());
        assert(Seq::<MoveModel>::empty() + Seq::<MoveModel>::empty() =~= Seq::<
            MoveModel,
        >::empty());
    }
}

/// Idempotence: a grid already compacted toward `dir` with no two adjacent
/// equal tiles on any traversal line is left unchanged, and the trace is
/// empty.
pub proof fn lemma_step_settled(g: Seq<Option<Value>>, dir: Direction, w: int, h: int)
    requires
        0 <= w,
        0 <= h,
        g.len() == w * h,
        grid_settled(g, dir, w, h),
    ensures
        step_cells(g, dir, w, h) == g,
        step_moves(g, dir, w, h) == Seq::<MoveModel>::empty(),
{
    lemma_step_lines_settled(g, dir, w, h, traversal_width(dir, w, h));
}

/// A line holding one tile at row `t` compacts it to row 0: unchanged when
/// `t` is 0, otherwise one plain move from `t` to 0.
proof fn lemma_line_slide_lone_scan(c: Seq<Option<Value>>, t: int, y1: int)
    requires
        0 <= y1 <= t < c.len(),
        c[t] is Some,
        forall|j: int| 0 <= j < c.len() && j != t ==> (#[trigger] c[j]) is None,
    ensures
        t == 0 ==> line_slide_from(c, 0, y1) == (c, Seq::<MoveModel>::empty()),
        t > 0 ==> line_slide_from(c, 0, y1) == (
            c.update(t, None).update(0, c[t]),
            seq![MoveModel { src: t, dst: 0, merge: false }],
        ),
    decreases t - y1,
{
    if y1 < t {
        lemma_line_slide_lone_scan(c, t, y1 + 1);
    } else {
        if t == 0 {
            lemma_line_slide_all_none(c, 0, 1);
            assert(line_slide_from(c, 0, 0) == line_slide_from(c, 0, 1));
        } else {
            let v = c[t]->Some_0;
            let c2 = c.update(t, None).update(0, Some(v));
            lemma_line_slide_all_none(c2, 0, t + 1);
            assert(line_slide_from(c, 0, t) == (
                line_slide_from(c2, 0, t + 1).0,
                seq![MoveModel { src: t, dst: 0, merge: false }] + line_slide_from(
                    c2,
                    0,
                    t + 1,
                ).1,
            ));
            assert(seq![MoveModel { src: t, dst: 0, merge: false }] + Seq::<MoveModel>::empty()
                =~= seq![MoveModel { src: t, dst: 0, merge: false }]);
        }
    }
}

/// The lines before the lone tile's column have nothing to do.
proof fn lemma_step_lines_lone_before(
    g: Seq<Option<Value>>,
    dir: Direction,
    w: int,
    h: int,
    i: int,
    x: int,
)
    requires
        0 < w,
        0 < h,
        g.len() == w * h,
        lone_tile(g, i),
        0 <= x <= column_of(dir, w, h, i),
        x <= traversal_width(dir, w, h),
    ensures
        step_lines(g, dir, w, h, x) == (g, Seq::<MoveModel>::empty()),
    decreases x,
{
    if x > 0 {
        lemma_step_lines_lone_before(g, dir, w, h, i, x - 1);
        lemma_linear_index_inverse(dir, w, h, i);
        let ln = line_of(g, dir, w, h, x - 1);
        assert forall|y: int| 0 <= y < ln.len() implies (#[trigger] ln[y]) is None by {
            lemma_cell_index_inverse(dir, w, h, x - 1, y);
        }
        lemma_line_slide_all_none(ln, 0, 0);
        lemma_write_line_upto_id(g, dir, w, h, x - 1, ln.len() as int);
        assert(grid_moves(Seq::<MoveModel>::empty(), dir, w, h, x - 1) =~= Seq::<
            MoveModel,
        >::empty());
        assert(Seq::<MoveModel>::empty() + Seq::<MoveModel>::empty() =~= Seq::<
            MoveModel,
        >::empty());
    }
}

/// Processing the lone tile's own column moves the tile to the near edge of
/// that column and reports the move, unless it already sits there.
proof fn lemma_step_lines_lone_at(g: Seq<Option<Value>>, dir: Direction, w: int, h: int, i: int)
    requires
        0 < w,
        0 < h,
        g.len() == w * h,
        lone_tile(g, i),
    ensures
        step_lines(g, dir, w, h, column_of(dir, w, h, i) + 1).0.len() == g.len(),
        lone_tile(
            step_lines(g, dir, w, h, column_of(dir, w, h, i) + 1).0,
            lone_dest(dir, w, h, i),
        ),
        step_lines(g, dir, w, h, column_of(dir, w, h, i) + 1).0[lone_dest(dir, w, h, i)] == g[i],
        row_of(dir, w, h, i) == 0 ==> step_lines(g, dir, w, h, column_of(dir, w, h, i) + 1).1
            == Seq::<MoveModel>::empty(),
        row_of(dir, w, h, i) != 0 ==> step_lines(g, dir, w, h, column_of(dir, w, h, i) + 1).1
            == seq![MoveModel { src: i, dst: lone_dest(dir, w, h, i), merge: false }],
        row_of(dir, w, h, i) == 0 ==> i == lone_dest(dir, w, h, i),
        row_of(dir, w, h, i) != 0 ==> i != lone_dest(dir, w, h, i),
{
    lemma_linear_index_inverse(dir, w, h, i);
    let xt = column_of(dir, w, h, i);
    let t = row_of(dir, w, h, i);
    let th = traversal_height(dir, w, h);
    let d = lone_dest(dir, w, h, i);
    lemma_cell_index_inverse(dir, w, h, xt, 0);
    lemma_step_lines_lone_before(g, dir, w, h, i, xt);
    let ln = line_of(g, dir, w, h, xt);
    assert forall|y: int| 0 <= y < ln.len() && y != t implies (#[trigger] ln[y]) is None by {
        lemma_cell_index_inverse(dir, w, h, xt, y);
    }
    assert(ln[t] == g[i]);
    lemma_line_slide_lone_scan(ln, t, 0);
    if t == 0 {
        lemma_write_line_upto_id(g, dir, w, h, xt, th);
        assert(grid_moves(Seq::<MoveModel>::empty(), dir, w, h, xt) =~= Seq::<
            MoveModel,
        >::empty());
        assert(Seq::<MoveModel>::empty() + Seq::<MoveModel>::empty() =~= Seq::<
            MoveModel,
        >::empty());
        assert(step_lines(g, dir, w, h, xt + 1).0 == g);
    } else {
        let ln2 = ln.update(t, None).update(0, ln[t]);
        let g2 = write_line(g, dir, w, h, xt, ln2);
        assert(step_lines(g, dir, w, h, xt + 1).0 == g2);
        lemma_write_line_upto_untouched(g, dir, w, h, xt, ln2, th, -1);
        assert(g2.len() == g.len());
        lemma_write_line_upto_at(g, dir, w, h, xt, ln2, th, 0);
        assert(g2[d] == g[i]);
        assert forall|j: int| 0 <= j < g2.len() && j != d implies (#[trigger] g2[j]) is None by {
            lemma_linear_index_inverse(dir, w, h, j);
            let xj = column_of(dir, w, h, j);
            let yj = row_of(dir, w, h, j);
            if xj == xt {
                lemma_write_line_upto_at(g, dir, w, h, xt, ln2, th, yj);
                assert(g2[j] == ln2[yj]);
            } else {
                assert forall|y: int| 0 <= y < th implies #[trigger] cell_index(dir, w, h, xt, y)
                    != j by {
                    lemma_cell_index_inverse(dir, w, h, xt, y);
                }
                lemma_write_line_upto_untouched(g, dir, w, h, xt, ln2, th, j);
            }
        }
        let lm = MoveModel { src: t, dst: 0, merge: false };
        let gm = MoveModel { src: i, dst: d, merge: false };
        assert(grid_moves(seq![lm], dir, w, h, xt) =~= seq![gm]) by {
            assert(grid_moves(seq![lm], dir, w, h, xt)[0] == to_grid_move(dir, w, h, xt, lm));
        }
        assert(Seq::<MoveModel>::empty() + grid_moves(seq![lm], dir, w, h, xt) =~= seq![gm]);
    }
}

/// Once the lone tile's column is done, the remaining lines change nothing.
proof fn lemma_step_lines_lone_stable(
    g: Seq<Option<Value>>,
    dir: Direction,
    w: int,
    h: int,
    i: int,
    x: int,
)
    requires
        0 < w,
        0 < h,
        g.len() == w * h,
        lone_tile(g, i),
        column_of(dir, w, h, i) + 1 <= x <= traversal_width(dir, w, h),
    ensures
        step_lines(g, dir, w, h, x) == step_lines(g, dir, w, h, column_of(dir, w, h, i) + 1),
    decreases x,
{
    let xt = column_of(dir, w, h, i);
    lemma_linear_index_inverse(dir, w, h, i);
    if x > xt + 1 {
        lemma_step_lines_lone_stable(g, dir, w, h, i, x - 1);
        lemma_step_lines_lone_at(g, dir, w, h, i);
        let g2 = step_lines(g, dir, w, h, xt + 1).0;
        let d = lone_dest(dir, w, h, i);
        lemma_cell_index_inverse(dir, w, h, xt, 0);
        let ln = line_of(g2, dir, w, h, x - 1);
        assert forall|y: int| 0 <= y < ln.len() implies (#[trigger] ln[y]) is None by {
            lemma_cell_index_inverse(dir, w, h, x - 1, y);
        }
        lemma_line_slide_all_none(ln, 0, 0);
        lemma_write_line_upto_id(g2, dir, w, h, x - 1, ln.len() as int);
        assert(grid_moves(Seq::<MoveModel>::empty(), dir, w, h, x - 1) =~= Seq::<
            MoveModel,
        >::empty());
        assert(step_lines(g, dir, w, h, x - 1).1 + Seq::<MoveModel>::empty() =~= step_lines(
            g,
            dir,
            w,
            h,
            x - 1,
        ).1);
    }
}

/// A lone tile slides to the near edge of its traversal column: the step
/// leaves exactly that one tile, with its value, at `lone_dest`, and the
/// trace is the single plain move there (empty when it already sits there).
pub proof fn lemma_step_lone_tile(g: Seq<Option<Value>>, dir: Direction, w: int, h: int, i: int)
    requires
        0 <= w,
        0 <= h,
        g.len() == w * h,
        lone_tile(g, i),
    ensures
        0 <= lone_dest(dir, w, h, i) < g.len(),
        step_cells(g, dir, w, h).len() == g.len(),
        lone_tile(step_cells(g, dir, w, h), lone_dest(dir, w, h, i)),
        step_cells(g, dir, w, h)[lone_dest(dir, w, h, i)] == g[i],
        i == lone_dest(dir, w, h, i) ==> step_moves(g, dir, w, h) == Seq::<MoveModel>::empty(),
        i != lone_dest(dir, w, h, i) ==> step_moves(g, dir, w, h) == seq![
            MoveModel { src: i, dst: lone_dest(dir, w, h, i), merge: false },
        ],
{
    assert(0 < w && 0 < h) by (nonlinear_arith)
        requires
            0 <= w,
            0 <= h,
            0 <= i < w * h,
    ;
    lemma_linear_index_inverse(dir, w, h, i);
    lemma_cell_index_inverse(dir, w, h, column_of(dir, w, h, i), 0);
    lemma_step_lines_lone_at(g, dir, w, h, i);
    lemma_step_lines_lone_stable(g, dir, w, h, i, traversal_width(dir, w, h));
}

/// An all-empty suffix contributes no tiles.
proof fn lemma_tiles_of_all_none(s: Seq<Option<Value>>)
    requires
        forall|j: int| 0 <= j < s.len() ==> (#[trigger] s[j]) is None,
    ensures
        tiles_of(s) == Seq::<Value>::empty(),
    decreases s.len(),
{
    if s.len() > 0 {
        lemma_tiles_of_all_none(s.skip(1));
    }
}

/// Skipping empty cells does not change the tile stream.
proof fn lemma_tiles_of_none_prefix(c: Seq<Option<Value>>, a: int, b: int)
    requires
        0 <= a <= b <= c.len(),
        forall|j: int| a <= j < b ==> (#[trigger] c[j]) is None,
    ensures
        tiles_of(c.skip(a)) == tiles_of(c.skip(b)),
    decreases b - a,
{
    if a < b {
        assert(c.skip(a)[0] == c[a]);
        assert(c.skip(a).skip(1) =~= c.skip(a + 1));
        lemma_tiles_of_none_prefix(c, a + 1, b);
    }
}

/// The tile stream from an occupied cell starts with that cell's value.
proof fn lemma_tiles_of_some_head(c: Seq<Option<Value>>, a: int)
    requires
        0 <= a < c.len(),
        c[a] is Some,
    ensures
        tiles_of(c.skip(a)) == seq![c[a]->Some_0] + tiles_of(c.skip(a + 1)),
{
    assert(c.skip(a)[0] == c[a]);
    assert(c.skip(a).skip(1) =~= c.skip(a + 1));
}

/// Laying one more value into a line prepends one occupied cell.
proof fn lemma_padded_cons(x: Value, vs: Seq<Value>, n: int)
    requires
        n >= 1,
    ensures
        padded(seq![x] + vs, n) == seq![Option::Some(x)] + padded(vs, n - 1),
{
    assert(padded(seq![x] + vs, n) =~= seq![Option::Some(x)] + padded(vs, n - 1));
}

/// The cursor pass computes the greedy pairwise merge: from a state where
/// the cells between cursor and scan are empty, the final cells are the
/// untouched prefix before the cursor followed by the merged tile stream,
/// front-aligned.
proof fn lemma_line_slide_merges_from(c: Seq<Option<Value>>, y0: int, y1: int)
    requires
        0 <= y0 <= y1 <= c.len(),
        forall|j: int| y0 < j < y1 ==> (#[trigger] c[j]) is None,
    ensures
        line_slide_from(c, y0, y1).0 == c.take(y0) + padded(
            merge_pairs(tiles_of(c.skip(y0))),
            c.len() - y0,
        ),
    decreases c.len() - y1,
{
    let n = c.len() as int;
    if y1 == n {
        if y0 < n && c[y0] is Some {
            lemma_tiles_of_some_head(c, y0);
            lemma_tiles_of_all_none(c.skip(y0 + 1));
            let single = seq![c[y0]->Some_0];
            assert(single + Seq::<Value>::empty() =~= single);
            assert(single.skip(1) =~= Seq::<Value>::empty());
            assert(merge_pairs(Seq::<Value>::empty()) == Seq::<Value>::empty());
            assert(merge_pairs(single) == single + Seq::<Value>::empty());
        } else if y0 < n {
            lemma_tiles_of_none_prefix(c, y0, n);
            assert(c.skip(n) =~= Seq::<Option<Value>>::empty());
        } else {
            assert(c.skip(y0) =~= Seq::<Option<Value>>::empty());
        }
        assert(c =~= c.take(y0) + padded(merge_pairs(tiles_of(c.skip(y0))), n - y0));
    } else if c[y1] is None || y0 == y1 {
        lemma_line_slide_merges_from(c, y0, y1 + 1);
    } else {
        let v = c[y1]->Some_0;
        let rest = tiles_of(c.skip(y1 + 1));
        lemma_tiles_of_some_head(c, y1);
        if c[y0] is None {
            let c2 = c.update(y1, None).update(y0, Some(v));
            lemma_line_slide_merges_from(c2, y0, y1 + 1);
            lemma_tiles_of_none_prefix(c, y0, y1);
            lemma_tiles_of_some_head(c2, y0);
            lemma_tiles_of_none_prefix(c2, y0 + 1, y1 + 1);
            assert(c2.skip(y1 + 1) =~= c.skip(y1 + 1));
            assert(c2.take(y0) =~= c.take(y0));
            assert(tiles_of(c2.skip(y0)) == tiles_of(c.skip(y0)));
        } else {
            let w = c[y0]->Some_0;
            lemma_tiles_of_some_head(c, y0);
            lemma_tiles_of_none_prefix(c, y0 + 1, y1);
            let stream = tiles_of(c.skip(y0));
            assert(stream == seq![w] + (seq![v] + rest));
            assert(stream[0] == w && stream[1] == v && stream.len() >= 2);
            if w == v && v < MAX_VALUE {
                let c2 = c.update(y1, None).update(y0, Some((v + 1) as Value));
                lemma_line_slide_merges_from(c2, y0 + 1, y1 + 1);
                lemma_tiles_of_none_prefix(c2, y0 + 1, y1 + 1);
                assert(c2.skip(y1 + 1) =~= c.skip(y1 + 1));
                assert(stream.skip(2) =~= rest);
                assert(merge_pairs(stream) == seq![(v + 1) as Value] + merge_pairs(rest));
                lemma_padded_cons((v + 1) as Value, merge_pairs(rest), n - y0);
                assert(c2.take(y0 + 1) =~= c.take(y0) + seq![Option::Some((v + 1) as Value)]);
                assert(c.take(y0) + (seq![Option::Some((v + 1) as Value)] + padded(
                    merge_pairs(rest),
                    n - y0 - 1,
                )) =~= c2.take(y0 + 1) + padded(merge_pairs(rest), n - y0 - 1));
            } else {
                assert(stream.skip(1) =~= seq![v] + rest);
                assert(merge_pairs(stream) == seq![w] + merge_pairs(seq![v] + rest));
                lemma_padded_cons(w, merge_pairs(seq![v] + rest), n - y0);
                if y0 + 1 == y1 {
                    lemma_line_slide_merges_from(c, y0 + 1, y1 + 1);
                    lemma_tiles_of_some_head(c, y0 + 1);
                    assert(tiles_of(c.skip(y0 + 1)) == seq![v] + rest);
                    assert(c.take(y0 + 1) =~= c.take(y0) + seq![Option::Some(w)]);
                    assert(c.take(y0) + (seq![Option::Some(w)] + padded(
                        merge_pairs(seq![v] + rest),
                        n - y0 - 1,
                    )) =~= c.take(y0 + 1) + padded(merge_pairs(seq![v] + rest), n - y0 - 1));
                } else {
                    let c2 = c.update(y1, None).update(y0 + 1, Some(v));
                    lemma_line_slide_merges_from(c2, y0 + 1, y1 + 1);
                    lemma_tiles_of_some_head(c2, y0 + 1);
                    lemma_tiles_of_none_prefix(c2, y0 + 2, y1 + 1);
                    assert(c2.skip(y1 + 1) =~= c.skip(y1 + 1));
                    assert(tiles_of(c2.skip(y0 + 1)) == seq![v] + rest);
                    assert(c2.take(y0 + 1) =~= c.take(y0) + seq![Option::Some(w)]);
                    assert(c.take(y0) + (seq![Option::Some(w)] + padded(
                        merge_pairs(seq![v] + rest),
                        n - y0 - 1,
                    )) =~= c2.take(y0 + 1) + padded(merge_pairs(seq![v] + rest), n - y0 - 1));
                }
            }
        }
    }
}

/// A slid line is the greedy pairwise merge of its tiles, compacted toward
/// the near edge: the direct statement of what compaction computes.
pub proof fn lemma_line_slide_merges(c: Seq<Option<Value>>)
    ensures
        line_slide(c).0 == padded(merge_pairs(tiles_of(c)), c.len() as int),
{
    lemma_line_slide_merges_from(c, 0, 0);
    assert(c.skip(0) =~= c);
    assert(c.take(0) + padded(merge_pairs(tiles_of(c.skip(0))), c.len() as int) =~= padded(
        merge_pairs(tiles_of(c)),
        c.len() as int,
    ));
}

/// Columns not yet processed still hold their original cells.
proof fn lemma_step_lines_later_columns(
    g: Seq<Option<Value>>,
    dir: Direction,
    w: int,
    h: int,
    x: int,
    j: int,
)
    requires
        0 < w,
        0 < h,
        g.len() == w * h,
        0 <= x <= traversal_width(dir, w, h),
        0 <= j < w * h,
        column_of(dir, w, h, j) >= x,
    ensures
        step_lines(g, dir, w, h, x).0.len() == g.len(),
        step_lines(g, dir, w, h, x).0[j] == g[j],
    decreases x,
{
    lemma_step_lines_conserves(g, dir, w, h, x);
    if x > 0 {
        lemma_step_lines_later_columns(g, dir, w, h, x - 1, j);
        let prev = step_lines(g, dir, w, h, x - 1);
        let ln = line_of(prev.0, dir, w, h, x - 1);
        lemma_line_slide_len(ln, 0, 0);
        lemma_linear_index_inverse(dir, w, h, j);
        assert forall|y: int|
            0 <= y < traversal_height(dir, w, h) implies #[trigger] cell_index(dir, w, h, x - 1, y)
            != j by {
            lemma_cell_index_inverse(dir, w, h, x - 1, y);
        }
        lemma_write_line_upto_untouched(
            prev.0,
            dir,
            w,
            h,
            x - 1,
            line_slide(ln).0,
            traversal_height(dir, w, h),
            j,
        );
    }
}

/// Once a cell's own column is processed, later columns leave it alone.
proof fn lemma_step_lines_column_stable(
    g: Seq<Option<Value>>,
    dir: Direction,
    w: int,
    h: int,
    x: int,
    j: int,
)
    requires
        0 < w,
        0 < h,
        g.len() == w * h,
        0 <= j < w * h,
        column_of(dir, w, h, j) + 1 <= x <= traversal_width(dir, w, h),
    ensures
        step_lines(g, dir, w, h, x).0.len() == g.len(),
        step_lines(g, dir, w, h, x).0[j] == step_lines(
            g,
            dir,
            w,
            h,
            column_of(dir, w, h, j) + 1,
        ).0[j],
    decreases x,
{
    lemma_step_lines_conserves(g, dir, w, h, x);
    if x > column_of(dir, w, h, j) + 1 {
        lemma_step_lines_column_stable(g, dir, w, h, x - 1, j);
        lemma_step_lines_conserves(g, dir, w, h, x - 1);
        let prev = step_lines(g, dir, w, h, x - 1);
        let ln = line_of(prev.0, dir, w, h, x - 1);
        lemma_line_slide_len(ln, 0, 0);
        lemma_linear_index_inverse(dir, w, h, j);
        assert forall|y: int|
            0 <= y < traversal_height(dir, w, h) implies #[trigger] cell_index(dir, w, h, x - 1, y)
            != j by {
            lemma_cell_index_inverse(dir, w, h, x - 1, y);
        }
        lemma_write_line_upto_untouched(
            prev.0,
            dir,
            w,
            h,
            x - 1,
            line_slide(ln).0,
            traversal_height(dir, w, h),
            j,
        );
    }
}

/// What a step computes, line by line: every traversal line of the stepped
/// grid is the greedy pairwise merge of that line's tiles, compacted toward
/// the near edge.
pub proof fn lemma_step_merges_lines(g: Seq<Option<Value>>, dir: Direction, w: int, h: int)
    requires
        0 <= w,
        0 <= h,
        g.len() == w * h,
    ensures
        forall|x: int|
            0 <= x < traversal_width(dir, w, h) ==> #[trigger] line_of(
                step_cells(g, dir, w, h),
                dir,
                w,
                h,
                x,
            ) == padded(
                merge_pairs(tiles_of(line_of(g, dir, w, h, x))),
                traversal_height(dir, w, h),
            ),
{
    let tw = traversal_width(dir, w, h);
    let th = traversal_height(dir, w, h);
    assert forall|x: int| 0 <= x < tw implies #[trigger] line_of(
        step_cells(g, dir, w, h),
        dir,
        w,
        h,
        x,
    ) == padded(merge_pairs(tiles_of(line_of(g, dir, w, h, x))), th) by {
        if th <= 0 {
            assert(line_of(step_cells(g, dir, w, h), dir, w, h, x) =~= padded(
                merge_pairs(tiles_of(line_of(g, dir, w, h, x))),
                th,
            ));
        } else {
            lemma_step_lines_conserves(g, dir, w, h, x);
            let prev = step_lines(g, dir, w, h, x);
            let ln = line_of(prev.0, dir, w, h, x);
            assert(ln =~= line_of(g, dir, w, h, x)) by {
                assert forall|y: int| 0 <= y < th implies ln[y] == line_of(
                    g,
                    dir,
                    w,
                    h,
                    x,
                )[y] by {
                    lemma_cell_index_inverse(dir, w, h, x, y);
                    lemma_step_lines_later_columns(g, dir, w, h, x, cell_index(dir, w, h, x, y));
                }
            }
            let slid = line_slide(ln);
            lemma_line_slide_len(ln, 0, 0);
            lemma_line_slide_merges(ln);
            assert forall|y: int| 0 <= y < th implies line_of(
                step_cells(g, dir, w, h),
                dir,
                w,
                h,
                x,
            )[y] == slid.0[y] by {
                lemma_cell_index_inverse(dir, w, h, x, y);
                let j = cell_index(dir, w, h, x, y);
                lemma_step_lines_column_stable(g, dir, w, h, tw, j);
                lemma_write_line_upto_at(prev.0, dir, w, h, x, slid.0, th, y);
            }
            assert(line_of(step_cells(g, dir, w, h), dir, w, h, x) =~= slid.0);
        }
    }
}

/// Traversal reversal, east then west: a lone tile stepped east and then
/// west parks at the start of its row, its value untouched.
pub proof fn lemma_step_east_then_west(g: Seq<Option<Value>>, w: int, h: int, i: int)
    requires
        0 <= w,
        0 <= h,
        g.len() == w * h,
        lone_tile(g, i),
    ensures
        lone_tile(step_cells(step_cells(g, Direction::E, w, h), Direction::W, w, h), (i / w) * w),
        step_cells(step_cells(g, Direction::E, w, h), Direction::W, w, h)[(i / w) * w] == g[i],
{
    assert(0 < w && 0 < h) by (nonlinear_arith)
        requires
            0 <= w,
            0 <= h,
            0 <= i < w * h,
    ;
    vstd::arithmetic::div_mod::lemma_div_pos_is_pos(i, w);
    lemma_step_lone_tile(g, Direction::E, w, h, i);
    let d1 = lone_dest(Direction::E, w, h, i);
    let g1 = step_cells(g, Direction::E, w, h);
    lemma_step_lone_tile(g1, Direction::W, w, h, d1);
    crate::traversal::lemma_div_mod_split(d1, w, i / w, w - 1);
}

/// Traversal reversal, north then south: a lone tile stepped north and then
/// south parks at the foot of its column, its value untouched.
pub proof fn lemma_step_north_then_south(g: Seq<Option<Value>>, w: int, h: int, i: int)
    requires
        0 <= w,
        0 <= h,
        g.len() == w * h,
        lone_tile(g, i),
    ensures
        lone_tile(step_cells(step_cells(g, Direction::N, w, h), Direction::S, w, h), i % w),
        step_cells(step_cells(g, Direction::N, w, h), Direction::S, w, h)[i % w] == g[i],
{
    assert(0 < w && 0 < h) by (nonlinear_arith)
        requires
            0 <= w,
            0 <= h,
            0 <= i < w * h,
    ;
    vstd::arithmetic::div_mod::lemma_mod_bound(i, w);
    lemma_step_lone_tile(g, Direction::N, w, h, i);
    let d1 = lone_dest(Direction::N, w, h, i);
    let g1 = step_cells(g, Direction::N, w, h);
    lemma_step_lone_tile(g1, Direction::S, w, h, d1);
    crate::traversal::lemma_div_mod_split(d1, w, h - 1, i % w);
}

/// The terminal test, characterized: an empty cell or an equal pair of row
/// or column neighbors keeps the game alive; a full grid with neither is
/// over.
pub proof fn lemma_terminal_characterization(g: Seq<Option<Value>>, w: int)
    ensures
        (exists|i: int| 0 <= i < g.len() && g[i] is None) ==> !spec_is_over(g, w),
        (exists|i: int| 0 <= i < g.len() && i % w != 0 && g[i - 1] == #[trigger] g[i])
            ==> !spec_is_over(g, w),
        (exists|i: int| w <= i < g.len() && g[i - w] == #[trigger] g[i]) ==> !spec_is_over(g, w),
        ((forall|i: int| 0 <= i < g.len() ==> g[i] is Some) && (forall|i: int|
            0 <= i < g.len() && i % w != 0 ==> g[i - 1] != #[trigger] g[i]) && (forall|i: int|
            w <= i < g.len() ==> g[i - w] != #[trigger] g[i])) ==> spec_is_over(g, w),
{
    if exists|i: int| 0 <= i < g.len() && g[i] is None {
        let i = choose|i: int| 0 <= i < g.len() && g[i] is None;
        assert(!(g[i] is Some));
    }
}

/// A pass that reports no move leaves the line as it was.
proof fn lemma_line_slide_no_moves(c: Seq<Option<Value>>, y0: int, y1: int)
    requires
        0 <= y0 <= y1,
    ensures
        line_slide_from(c, y0, y1).1.len() == 0 ==> line_slide_from(c, y0, y1).0 == c,
    decreases c.len() - y1,
{
    if y1 >= c.len() {
    } else if c[y1] is None || y0 == y1 {
        lemma_line_slide_no_moves(c, y0, y1 + 1);
    } else if c[y0] is Some && y0 + 1 == y1 && !(c[y0]->Some_0 == c[y1]->Some_0 && c[y1]->Some_0
        < MAX_VALUE) {
        lemma_line_slide_no_moves(c, y0 + 1, y1 + 1);
    }
}

/// Stepping the first `x` lines without a single move changes nothing.
proof fn lemma_step_lines_no_moves(g: Seq<Option<Value>>, dir: Direction, w: int, h: int, x: int)
    requires
        0 <= w,
        0 <= h,
        g.len() == w * h,
        0 <= x <= traversal_width(dir, w, h),
    ensures
        step_lines(g, dir, w, h, x).1.len() == 0 ==> step_lines(g, dir, w, h, x).0 == g,
    decreases x,
{
    if x > 0 {
        lemma_step_lines_no_moves(g, dir, w, h, x - 1);
        if step_lines(g, dir, w, h, x).1.len() == 0 {
            let prev = step_lines(g, dir, w, h, x - 1);
            let ln = line_of(prev.0, dir, w, h, x - 1);
            assert(prev.1.len() == 0);
            assert(line_slide(ln).1.len() == 0);
            lemma_line_slide_no_moves(ln, 0, 0);
            lemma_line_slide_len(ln, 0, 0);
            lemma_write_line_upto_id(g, dir, w, h, x - 1, ln.len() as int);
        }
    }
}

/// A step that reports no move changed nothing: callers may use an empty
/// trace to decide that there is nothing to animate and no tile to spawn.
pub proof fn lemma_step_no_moves(g: Seq<Option<Value>>, dir: Direction, w: int, h: int)
    requires
        0 <= w,
        0 <= h,
        g.len() == w * h,
    ensures
        step_moves(g, dir, w, h).len() == 0 ==> step_cells(g, dir, w, h) == g,
{
    lemma_step_lines_no_moves(g, dir, w, h, traversal_width(dir, w, h));
}

/// A terminal grid is stuck: when every cell is occupied and no two row or
/// column neighbors are equal, a step in any direction changes nothing and
/// reports no move.
pub proof fn lemma_terminal_grid_is_stuck(g: Seq<Option<Value>>, dir: Direction, w: int, h: int)
    requires
        0 <= w,
        0 <= h,
        g.len() == w * h,
        spec_is_over(g, w),
    ensures
        step_cells(g, dir, w, h) == g,
        step_moves(g, dir, w, h) == Seq::<MoveModel>::empty(),
{
    let tw = traversal_width(dir, w, h);
    let th = traversal_height(dir, w, h);
    assert forall|x: int| 0 <= x < tw implies line_settled(
        #[trigger] line_of(g, dir, w, h, x),
    ) by {
        let ln = line_of(g, dir, w, h, x);
        assert forall|y: int| 0 <= y < ln.len() - 1 implies #[trigger] ln[y] is Some && (ln[y + 1]
            is Some ==> ln[y] != ln[y + 1]) by {
            lemma_cell_index_inverse(dir, w, h, x, y);
            lemma_cell_index_inverse(dir, w, h, x, y + 1);
            let i0 = cell_index(dir, w, h, x, y);
            let i1 = cell_index(dir, w, h, x, y + 1);
            assert(ln[y] == g[i0]);
            assert(ln[y + 1] == g[i1]);
            match dir {
                Direction::S => {
                    assert((y + 1) * w == y * w + w) by (nonlinear_arith);
                    assert(i1 == i0 + w);
                    assert(g[i1 - w] != g[i1]);
                },
                Direction::N => {
                    assert((h - 1 - y) * w == (h - 1 - (y + 1)) * w + w) by (nonlinear_arith);
                    assert(i0 == i1 + w);
                    assert(g[i0 - w] != g[i0]);
                },
                Direction::W => {
                    assert(i1 == i0 + 1);
                    crate::traversal::lemma_div_mod_split(i1, w, x, y + 1);
                    assert(g[i1 - 1] != g[i1]);
                },
                Direction::E => {
                    assert(i0 == i1 + 1);
                    crate::traversal::lemma_div_mod_split(i0, w, x, w - 1 - y);
                    assert(g[i0 - 1] != g[i0]);
                },
            }
        }
    }
    lemma_step_settled(g, dir, w, h);
}

/// Prepending a move keeps the trace's bounds and merge ordering, when the
/// tail's moves start at cursor `yt` and a merge at the front lies before it.
proof fn lemma_prepend_moves(m: MoveModel, t: Seq<MoveModel>, y0: int, yt: int, n: int)
    requires
        y0 <= m.dst < m.src < n,
        y0 <= yt,
        m.merge ==> m.dst < yt,
        forall|k: int| 0 <= k < t.len() ==> yt <= (#[trigger] t[k]).dst < t[k].src < n,
        forall|k1: int, k2: int|
            0 <= k1 < k2 < t.len() && (#[trigger] t[k1]).merge && (#[trigger] t[k2]).merge
                ==> t[k1].dst < t[k2].dst,
    ensures
        forall|k: int|
            0 <= k < (seq![m] + t).len() ==> y0 <= (#[trigger] (seq![m] + t)[k]).dst < (seq![m]
                + t)[k].src < n,
        forall|k1: int, k2: int|
            0 <= k1 < k2 < (seq![m] + t).len() && (#[trigger] (seq![m] + t)[k1]).merge
                && (#[trigger] (seq![m] + t)[k2]).merge ==> (seq![m] + t)[k1].dst < (seq![m]
                + t)[k2].dst,
{
    let ms = seq![m] + t;
    assert forall|k: int| 0 <= k < ms.len() implies y0 <= (#[trigger] ms[k]).dst < ms[k].src
        < n by {
        if k == 0 {
            assert(ms[0] == m);
        } else {
            assert(ms[k] == t[k - 1]);
        }
    }
    assert forall|k1: int, k2: int|
        0 <= k1 < k2 < ms.len() && (#[trigger] ms[k1]).merge && (#[trigger] ms[k2]).merge implies
        ms[k1].dst < ms[k2].dst by {
        assert(ms[k2] == t[k2 - 1]);
        if k1 == 0 {
            assert(ms[0] == m);
        } else {
            assert(ms[k1] == t[k1 - 1]);
        }
    }
}

/// Every move of a line heads toward the edge: its destination lies at or
/// past the cursor and strictly before its source; and the destinations of
/// merge moves strictly increase along the trace.
proof fn lemma_line_slide_moves(c: Seq<Option<Value>>, y0: int, y1: int)
    requires
        0 <= y0 <= y1,
    ensures
        forall|k: int|
            0 <= k < line_slide_from(c, y0, y1).1.len() ==> y0 <= (#[trigger] line_slide_from(
                c,
                y0,
                y1,
            ).1[k]).dst < line_slide_from(c, y0, y1).1[k].src < c.len(),
        forall|k1: int, k2: int|
            0 <= k1 < k2 < line_slide_from(c, y0, y1).1.len() && (#[trigger] line_slide_from(
                c,
                y0,
                y1,
            ).1[k1]).merge && (#[trigger] line_slide_from(c, y0, y1).1[k2]).merge
                ==> line_slide_from(c, y0, y1).1[k1].dst < line_slide_from(c, y0, y1).1[k2].dst,
    decreases c.len() - y1,
{
    if y1 >= c.len() {
    } else if c[y1] is None || y0 == y1 {
        lemma_line_slide_moves(c, y0, y1 + 1);
        assert(line_slide_from(c, y0, y1).1 == line_slide_from(c, y0, y1 + 1).1);
    } else {
        let v = c[y1]->Some_0;
        let ms = line_slide_from(c, y0, y1).1;
        if c[y0] is None {
            let c2 = c.update(y1, None).update(y0, Some(v));
            let t = line_slide_from(c2, y0, y1 + 1).1;
            lemma_line_slide_moves(c2, y0, y1 + 1);
            let m = MoveModel { src: y1, dst: y0, merge: false };
            assert(ms == seq![m] + t);
            lemma_prepend_moves(m, t, y0, y0, c.len() as int);
        } else if c[y0]->Some_0 == v && v < MAX_VALUE {
            let c2 = c.update(y1, None).update(y0, Some((v + 1) as Value));
            let t = line_slide_from(c2, y0 + 1, y1 + 1).1;
            lemma_line_slide_moves(c2, y0 + 1, y1 + 1);
            let m = MoveModel { src: y1, dst: y0, merge: true };
            assert(ms == seq![m] + t);
            lemma_prepend_moves(m, t, y0, y0 + 1, c.len() as int);
        } else if y0 + 1 == y1 {
            lemma_line_slide_moves(c, y0 + 1, y1 + 1);
            assert(line_slide_from(c, y0, y1).1 == line_slide_from(c, y0 + 1, y1 + 1).1);
        } else {
            let c2 = c.update(y1, None).update(y0 + 1, Some(v));
            let t = line_slide_from(c2, y0 + 1, y1 + 1).1;
            lemma_line_slide_moves(c2, y0 + 1, y1 + 1);
            let m = MoveModel { src: y1, dst: y0 + 1, merge: false };
            assert(ms == seq![m] + t);
            lemma_prepend_moves(m, t, y0, y0 + 1, c.len() as int);
        }
    }
}

/// Over the first `x` lines of a step, every move's destination lies in a
/// line already processed, and no two merge moves share a destination.
proof fn lemma_step_lines_moves(g: Seq<Option<Value>>, dir: Direction, w: int, h: int, x: int)
    requires
        0 <= w,
        0 <= h,
        g.len() == w * h,
        0 <= x <= traversal_width(dir, w, h),
    ensures
        forall|k: int|
            0 <= k < step_lines(g, dir, w, h, x).1.len() ==> {
                &&& 0 <= (#[trigger] step_lines(g, dir, w, h, x).1[k]).dst < w * h
                &&& column_of(dir, w, h, step_lines(g, dir, w, h, x).1[k].dst) < x
            },
        forall|k1: int, k2: int|
            0 <= k1 < k2 < step_lines(g, dir, w, h, x).1.len() && (#[trigger] step_lines(
                g,
                dir,
                w,
                h,
                x,
            ).1[k1]).merge && (#[trigger] step_lines(g, dir, w, h, x).1[k2]).merge
                ==> step_lines(g, dir, w, h, x).1[k1].dst != step_lines(g, dir, w, h, x).1[k2].dst,
    decreases x,
{
    if x > 0 {
        lemma_step_lines_moves(g, dir, w, h, x - 1);
        lemma_step_lines_conserves(g, dir, w, h, x - 1);
        let prev = step_lines(g, dir, w, h, x - 1);
        let ln = line_of(prev.0, dir, w, h, x - 1);
        let th = traversal_height(dir, w, h);
        let lms = line_slide(ln).1;
        let news = grid_moves(lms, dir, w, h, x - 1);
        lemma_line_slide_moves(ln, 0, 0);
        let ms = step_lines(g, dir, w, h, x).1;
        assert(ms == prev.1 + news);
        assert forall|k: int| 0 <= k < news.len() implies {
            &&& 0 <= (#[trigger] news[k]).dst < w * h
            &&& column_of(dir, w, h, news[k].dst) == x - 1
            &&& row_of(dir, w, h, news[k].dst) == lms[k].dst
            &&& news[k].merge == lms[k].merge
        } by {
            assert(news[k] == to_grid_move(dir, w, h, x - 1, lms[k]));
            lemma_cell_index_inverse(dir, w, h, x - 1, lms[k].dst);
        }
        assert(forall|k: int| 0 <= k < prev.1.len() ==> ms[k] == prev.1[k]);
        assert(forall|k: int| 0 <= k < news.len() ==> ms[k + prev.1.len()] == news[k]);
    }
}

/// At most one merge lands on any cell: in the trace of one step, no
/// destination index carries more than one `merge` move.
pub proof fn lemma_step_one_merge_per_cell(g: Seq<Option<Value>>, dir: Direction, w: int, h: int)
    requires
        0 <= w,
        0 <= h,
        g.len() == w * h,
    ensures
        forall|k1: int, k2: int|
            0 <= k1 < k2 < step_moves(g, dir, w, h).len() && (#[trigger] step_moves(
                g,
                dir,
                w,
                h,
            )[k1]).merge && (#[trigger] step_moves(g, dir, w, h)[k2]).merge ==> step_moves(
                g,
                dir,
                w,
                h,
            )[k1].dst != step_moves(g, dir, w, h)[k2].dst,
{
    lemma_step_lines_moves(g, dir, w, h, traversal_width(dir, w, h));
}

/// Conservation: a step never creates a tile, and each merge in its trace
/// removes exactly one; the counts balance exactly.
pub proof fn lemma_step_conservation(g: Seq<Option<Value>>, dir: Direction, w: int, h: int)
    requires
        0 <= w,
        0 <= h,
        g.len() == w * h,
    ensures
        step_cells(g, dir, w, h).len() == g.len(),
        count_filled(step_cells(g, dir, w, h)) + count_merges(step_moves(g, dir, w, h))
            == count_filled(g),
        count_filled(step_cells(g, dir, w, h)) <= count_filled(g),
{
    lemma_step_lines_conserves(g, dir, w, h, traversal_width(dir, w, h));
}

} // verus!
