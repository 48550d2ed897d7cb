use vstd::prelude::*;

verus! {

use crate::model::{
    count_filled,
    lemma_moves_model_push,
    line_of,
    line_slide,
    line_slide_from,
    move_model,
    moves_model,
    spec_is_over,
    step_cells,
    step_lines,
    step_moves,
    write_line,
    write_line_upto,
};
use crate::traversal::{cell_index, traversal_height, traversal_width};

/// A tile's value: an opaque merge generation. Two adjacent equal generations
/// merge into the next one; mapping a generation to a displayed number is the
/// rendering layer's business.
pub type Value = u8;

/// The largest representable generation. Two equal tiles of this generation
/// no longer merge, so the value never overflows.
pub const MAX_VALUE: Value = 255;

/// State of the game.
#[derive(Clone, PartialEq, Debug)]
pub struct Game {
    pub width: usize,
    pub height: usize,
    pub tiles: Vec<Option<Value>>,
}

/// A compass direction tiles slide in.
#[derive(Clone, Copy, PartialEq, Eq, Structural, Debug)]
pub enum Direction {
    E,
    N,
    W,
    S,
}

/// A record of one tile's displacement during a step: the tile at linear
/// index `src` ends the step at linear index `dst`; `merge` is true when it
/// merged with the tile already at `dst`.
#[derive(Clone, Copy, PartialEq, Eq, Structural, Debug)]
pub struct Move {
    pub src: usize,
    pub dst: usize,
    pub merge: bool,
}

impl Move {
    pub fn new(src: usize, dst: usize, merge: bool) -> (m: Move)
        ensures
            m == (Move { src, dst, merge }),
    {
        Move { src, dst, merge }
    }
}

impl Game {
    /// The grid's cells as a sequence, row-major: index `x + y * width`.
    pub open spec fn cells(self) -> Seq<Option<Value>> {
        self.tiles@
    }

    /// The cell vector always covers the whole rectangle.
    pub open spec fn wf(self) -> bool {
        self.tiles@.len() == self.width * self.height
    }

    pub fn new(width: usize, height: usize) -> (g: Game)
        requires
            width * height <= usize::MAX,
        ensures
            g.wf(),
            g.width == width,
            g.height == height,
            forall|i: int| 0 <= i < g.cells().len() ==> g.cells()[i] is None,
    {
        let n = width * height;
        let mut tiles: Vec<Option<Value>> = Vec::new();
        let mut i: usize = 0;
        while i < n
            invariant
                i <= n,
                tiles@.len() == i,
                forall|j: int| 0 <= j < i ==> tiles@[j] is None,
            decreases n - i,
        {
            tiles.push(None);
            i = i + 1;
        }
        Game { width, height, tiles }
    }

    pub fn width(&self) -> (w: usize)
        ensures
            w == self.width,
    {
        self.width
    }

    pub fn height(&self) -> (h: usize)
        ensures
            h == self.height,
    {
        self.height
    }

    /// Pick a uniformly random empty cell and a value for a tile to spawn
    /// there: the lowest generation, or with probability one in ten the next
    /// one. The grid itself is left untouched.
    pub fn random_tile(&mut self) -> (r: (usize, Value))
        requires
            exists|i: int| 0 <= i < old(self).cells().len() && old(self).cells()[i] is None,
        ensures
            *final(self) == *old(self),
            r.0 < old(self).cells().len(),
            old(self).cells()[r.0 as int] is None,
            r.1 == 1 || r.1 == 2,
    {
        let n = self.tiles.len();
        let mut empties: Vec<usize> = Vec::new();
        let mut i: usize = 0;
        while i < n
            invariant
                i <= n == self.tiles@.len(),
                forall|k: int|
                    0 <= k < empties@.len() ==> (#[trigger] empties@[k]) < n
                        && self.tiles@[empties@[k] as int] is None,
                forall|j: int|
                    0 <= j < i && self.tiles@[j] is None ==> empties@.contains(j as usize),
            decreases n - i,
        {
            let ghost before = empties@;
            if self.tiles[i].is_none() {
                empties.push(i);
            }
            proof {
                assert forall|j: int|
                    0 <= j < i + 1 && self.tiles@[j] is None implies empties@.contains(
                    j as usize,
                ) by {
                    if j < i {
                        let k = choose|k: int|
                            0 <= k < before.len() && before[k] == (j as usize);
                        assert(empties@[k] == j as usize);
                    } else {
                        assert(empties@[empties@.len() - 1] == i as usize);
                    }
                }
            }
            i = i + 1;
        }
        proof {
            let j = choose|j: int| 0 <= j < self.tiles@.len() && self.tiles@[j] is None;
            assert(empties@.contains(j as usize));
        }
        let k = crate::rng::random_below(empties.len());
        let index = empties[k];
        let value: Value = if crate::rng::one_in_ten() {
            2
        } else {
            1
        };
        (index, value)
    }

    /// Spawn one tile on a uniformly random empty cell: the lowest
    /// generation, or with probability one in ten the next one. The grid
    /// must have an empty cell.
    pub fn add_random_tile(&mut self)
        requires
            old(self).wf(),
            exists|i: int| 0 <= i < old(self).cells().len() && old(self).cells()[i] is None,
        ensures
            final(self).width == old(self).width,
            final(self).height == old(self).height,
            final(self).wf(),
            exists|i: int, v: Value|
                #![auto]
                0 <= i < old(self).cells().len() && old(self).cells()[i] is None && (v == 1 || v
                    == 2) && final(self).cells() == old(self).cells().update(i, Some(v)),
            count_filled(final(self).cells()) == count_filled(old(self).cells()) + 1,
    {
        let (index, value) = self.random_tile();
        self.tiles.set(index, Some(value));
        proof {
            assert(self.cells() == old(self).cells().update(index as int, Some(value)));
            crate::lemmas::lemma_count_filled_upto_update(
                old(self).cells(),
                index as int,
                Some(value),
                old(self).cells().len() as int,
            );
        }
    }

    /// Every cell with its coordinates, row-major: entry `i` is
    /// `((i % width, i / width), cell)`.
    pub fn all_tiles(&self) -> (ts: Vec<((usize, usize), Option<Value>)>)
        requires
            self.wf(),
        ensures
            ts@.len() == self.cells().len(),
            forall|i: int|
                0 <= i < ts@.len() ==> {
                    &&& (#[trigger] ts@[i]).0.0 == i % (self.width as int)
                    &&& ts@[i].0.1 == i / (self.width as int)
                    &&& ts@[i].1 == self.cells()[i]
                },
    {
        let w = self.width;
        let n = self.tiles.len();
        let mut ts: Vec<((usize, usize), Option<Value>)> = Vec::new();
        let mut i: usize = 0;
        while i < n
            invariant
                i <= n == self.tiles@.len(),
                w == self.width,
                n == w * self.height,
                ts@.len() == i,
                forall|j: int|
                    0 <= j < i ==> (#[trigger] ts@[j]).0.0 == j % (w as int) && ts@[j].0.1 == j / (
                    w as int) && ts@[j].1 == self.tiles@[j],
            decreases n - i,
        {
            proof {
                assert(w > 0) by (nonlinear_arith)
                    requires
                        w * self.height == n,
                        n > i >= 0,
                        w >= 0,
                ;
            }
            ts.push(((i % w, i / w), self.tiles[i]));
            i = i + 1;
        }
        ts
    }

    /// Whether no further move is possible: every cell is occupied and no
    /// two orthogonally adjacent cells hold equal values.
    pub fn is_over(&self) -> (r: bool)
        requires
            self.wf(),
        ensures
            r == spec_is_over(self.cells(), self.width as int),
    {
        let w = self.width;
        let n = self.tiles.len();
        let mut i: usize = 0;
        while i < n
            invariant
                i <= n == self.tiles@.len(),
                w == self.width,
                n == w * self.height,
                forall|j: int| 0 <= j < i ==> self.tiles@[j] is Some,
                forall|j: int|
                    0 <= j < i && j % (w as int) != 0 ==> self.tiles@[j - 1] != #[trigger] self.tiles@[j],
                forall|j: int| w <= j < i ==> self.tiles@[j - w] != #[trigger] self.tiles@[j],
            decreases n - i,
        {
            proof {
                assert(w > 0) by (nonlinear_arith)
                    requires
                        w * self.height == n,
                        n > i >= 0,
                        w >= 0,
                ;
            }
            proof {
                if i == 0 {
                    vstd::arithmetic::div_mod::lemma_small_mod(0, w as nat);
                }
            }
            let value = self.tiles[i];
            if value.is_some() {
                if i % w != 0 && self.tiles[i - 1] == value {
                    return false;
                }
                if i >= w && self.tiles[i - w] == value {
                    return false;
                }
            } else {
                return false;
            }
            i = i + 1;
        }
        true
    }

    /// Slide every tile as far as possible in direction `dir`, merging
    /// colliding equal tiles, and return the ordered trace of moves (empty
    /// when nothing moved). The cells and the trace are exactly those of the
    /// line-by-line model.
    pub fn step(&mut self, dir: Direction) -> (moves: Vec<Move>)
        requires
            old(self).wf(),
        ensures
            final(self).width == old(self).width,
            final(self).height == old(self).height,
            final(self).wf(),
            final(self).cells() == step_cells(
                old(self).cells(),
                dir,
                old(self).width as int,
                old(self).height as int,
            ),
            moves_model(moves@) == step_moves(
                old(self).cells(),
                dir,
                old(self).width as int,
                old(self).height as int,
            ),
    {
        let w = self.width;
        let h = self.height;
        let ghost wi = w as int;
        let ghost hi = h as int;
        let ghost g0 = self.tiles@;
        let n = self.tiles.len();
        let (tw, th) = dir.traversal_dims(w, h);
        let mut moves: Vec<Move> = Vec::new();
        proof {
            assert(moves_model(moves@) =~= step_lines(g0, dir, wi, hi, 0).1);
        }
        let mut x: usize = 0;
        while x < tw
            invariant
                x <= tw,
                self.width == w,
                self.height == h,
                w * h == n,
                tw == traversal_width(dir, wi, hi),
                th == traversal_height(dir, wi, hi),
                wi == w as int,
                hi == h as int,
                self.tiles@.len() == n,
                g0.len() == n,
                self.tiles@ == step_lines(g0, dir, wi, hi, x as int).0,
                moves_model(moves@) == step_lines(g0, dir, wi, hi, x as int).1,
            decreases tw - x,
        {
            // read the traversal line out of the grid
            let mut line: Vec<Option<Value>> = Vec::new();
            let mut y: usize = 0;
            while y < th
                invariant
                    y <= th,
                    x < tw,
                    self.width == w,
                    self.height == h,
                    w * h == n,
                    tw == traversal_width(dir, wi, hi),
                    th == traversal_height(dir, wi, hi),
                    wi == w as int,
                    hi == h as int,
                    self.tiles@.len() == n,
                    g0.len() == n,
                    self.tiles@ == step_lines(g0, dir, wi, hi, x as int).0,
                    moves_model(moves@) == step_lines(g0, dir, wi, hi, x as int).1,
                    line@.len() == y,
                    forall|j: int|
                        0 <= j < y ==> line@[j] == self.tiles@[cell_index(dir, wi, hi, x as int, j)],
                decreases th - y,
            {
                let i = dir.index_of(w, h, x, y);
                line.push(self.tiles[i]);
                y = y + 1;
            }
            let ghost gmid = self.tiles@;
            proof {
                assert(line@ =~= line_of(gmid, dir, wi, hi, x as int));
            }

            // compact and merge it
            let lmoves = slide_line(&mut line);

            // write the result back
            let ghost nl = line@;
            let mut y: usize = 0;
            while y < th
                invariant
                    y <= th,
                    x < tw,
                    self.width == w,
                    self.height == h,
                    w * h == n,
                    tw == traversal_width(dir, wi, hi),
                    th == traversal_height(dir, wi, hi),
                    wi == w as int,
                    hi == h as int,
                    self.tiles@.len() == n,
                    g0.len() == n,
                    gmid.len() == n,
                    line@ == nl,
                    nl.len() == th,
                    self.tiles@ == write_line_upto(gmid, dir, wi, hi, x as int, nl, y as int),
                decreases th - y,
            {
                let i = dir.index_of(w, h, x, y);
                let val = line[y];
                self.tiles.set(i, val);
                y = y + 1;
            }

            // carry the line's moves to grid coordinates
            let ghost ms_line = step_lines(g0, dir, wi, hi, x as int).1;
            let ghost target = crate::model::grid_moves(moves_model(lmoves@), dir, wi, hi, x as int);
            proof {
                assert(moves_model(moves@) + target.take(0) =~= moves_model(moves@));
            }
            let mut k: usize = 0;
            let lm_len = lmoves.len();
            while k < lm_len
                invariant
                    k <= lm_len == lmoves@.len(),
                    x < tw,
                    w * h == n,
                    tw == traversal_width(dir, wi, hi),
                    th == traversal_height(dir, wi, hi),
                    wi == w as int,
                    hi == h as int,
                    forall|j: int|
                        0 <= j < lmoves@.len() ==> (#[trigger] lmoves@[j]).dst < lmoves@[j].src
                            < th,
                    target == crate::model::grid_moves(moves_model(lmoves@), dir, wi, hi, x as int),
                    moves_model(moves@) == ms_line + target.take(k as int),
                decreases lm_len - k,
            {
                let lm = lmoves[k];
                let ghost ms_pre = moves@;
                let src = dir.index_of(w, h, x, lm.src);
                let dst = dir.index_of(w, h, x, lm.dst);
                moves.push(Move { src, dst, merge: lm.merge });
                proof {
                    lemma_moves_model_push(ms_pre, Move { src, dst, merge: lm.merge });
                    assert(move_model(Move { src, dst, merge: lm.merge }) == target[k as int]);
                    assert(target.take(k as int + 1) =~= target.take(k as int).push(
                        target[k as int],
                    ));
                }
                k = k + 1;
            }
            proof {
                assert(target.take(lm_len as int) =~= target);
                assert(self.tiles@ == write_line(gmid, dir, wi, hi, x as int, nl));
                assert(self.tiles@ == step_lines(g0, dir, wi, hi, x as int + 1).0);
                assert(moves_model(moves@) == step_lines(g0, dir, wi, hi, x as int + 1).1);
            }
            x = x + 1;
        }
        moves
    }
}

/// Compact and merge one traversal line in place, toward index 0, and
/// return the trace of moves in line coordinates.
fn slide_line(line: &mut Vec<Option<Value>>) -> (moves: Vec<Move>)
    ensures
        final(line)@.len() == old(line)@.len(),
        final(line)@ == line_slide(old(line)@).0,
        moves_model(moves@) == line_slide(old(line)@).1,
        forall|k: int| 0 <= k < moves@.len() ==> (#[trigger] moves@[k]).dst < moves@[k].src < old(line)@.len(),
{
    let ghost c0 = line@;
    let mut moves: Vec<Move> = Vec::new();
    let mut y0: usize = 0;
    let mut y1: usize = 0;
    let n = line.len();
    proof {
        assert(moves_model(moves@) + line_slide_from(line@, 0, 0).1 =~= line_slide_from(
            line@,
            0,
            0,
        ).1);
    }
    while y1 < n
        invariant
            y0 <= y1 <= n == line@.len() == c0.len(),
            line_slide(c0).0 == line_slide_from(line@, y0 as int, y1 as int).0,
            line_slide(c0).1 == moves_model(moves@) + line_slide_from(
                line@,
                y0 as int,
                y1 as int,
            ).1,
            forall|k: int| 0 <= k < moves@.len() ==> (#[trigger] moves@[k]).dst < moves@[k].src < c0.len(),
        decreases n - y1,
    {
        let ghost pre = line@;
        let ghost ms_pre = moves@;
        let cur = line[y1];
        if let Some(v) = cur {
            if y0 != y1 {
                let dst = line[y0];
                if dst.is_none() {
                    line.set(y1, None);
                    line.set(y0, Some(v));
                    moves.push(Move { src: y1, dst: y0, merge: false });
                    proof {
                        lemma_moves_model_push(ms_pre, Move { src: y1, dst: y0, merge: false });
                        assert(moves_model(ms_pre) + line_slide_from(pre, y0 as int, y1 as int).1
                            =~= moves_model(moves@) + line_slide_from(
                            line@,
                            y0 as int,
                            y1 as int + 1,
                        ).1);
                    }
                } else {
                    let w = dst.unwrap();
                    if w == v && v < MAX_VALUE {
                        line.set(y1, None);
                        line.set(y0, Some(v + 1));
                        moves.push(Move { src: y1, dst: y0, merge: true });
                        proof {
                            lemma_moves_model_push(ms_pre, Move { src: y1, dst: y0, merge: true });
                            assert(moves_model(ms_pre) + line_slide_from(
                                pre,
                                y0 as int,
                                y1 as int,
                            ).1 =~= moves_model(moves@) + line_slide_from(
                                line@,
                                y0 as int + 1,
                                y1 as int + 1,
                            ).1);
                        }
                        y0 = y0 + 1;
                    } else {
                        y0 = y0 + 1;
                        if y0 != y1 {
                            line.set(y1, None);
                            line.set(y0, Some(v));
                            moves.push(Move { src: y1, dst: y0, merge: false });
                            proof {
                                lemma_moves_model_push(
                                    ms_pre,
                                    Move { src: y1, dst: y0, merge: false },
                                );
                                assert(moves_model(ms_pre) + line_slide_from(
                                    pre,
                                    y0 as int - 1,
                                    y1 as int,
                                ).1 =~= moves_model(moves@) + line_slide_from(
                                    line@,
                                    y0 as int,
                                    y1 as int + 1,
                                ).1);
                            }
                        }
                    }
                }
            }
        }
        y1 = y1 + 1;
    }
    proof {
        assert(moves_model(moves@) + line_slide_from(line@, y0 as int, y1 as int).1 =~= moves_model(
            moves@,
        ));
    }
    moves
}

} // verus!
