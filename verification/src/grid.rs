//! The geometry of the stored grid: coordinates and positions in the array
//! of cells.
//!
//! The grid spans `-1 ..= width` by `-1 ..= height` by `0 .. period`: the
//! box of the pattern with a border one cell wide, in every generation. All
//! generations of one place lie side by side in the array. Places are laid
//! out column by column or row by row.

use crate::cells::Coord;
use vstd::arithmetic::div_mod::{lemma_fundamental_div_mod, lemma_fundamental_div_mod_converse};
use vstd::prelude::*;

verus! {

/// The number of cells of the grid.
pub open spec fn grid_size(w: int, h: int, p: int) -> int {
    (w + 2) * (h + 2) * p
}

/// Whether the dimensions describe a grid that fits in memory.
pub open spec fn dims_ok(w: int, h: int, p: int) -> bool {
    0 <= w && 0 <= h && 1 <= p && grid_size(w, h, p) < isize::MAX
}

/// Whether a coordinate lies in the stored grid.
pub open spec fn in_grid(w: int, h: int, p: int, x: int, y: int, t: int) -> bool {
    -1 <= x <= w && -1 <= y <= h && 0 <= t < p
}

/// Whether a place lies in the box of the pattern.
pub open spec fn in_box(w: int, h: int, x: int, y: int) -> bool {
    0 <= x < w && 0 <= y < h
}

/// The length of a line of the layout: a column when the layout goes column
/// by column, a row otherwise.
pub open spec fn line_len(w: int, h: int, column_first: bool) -> int {
    if column_first {
        h + 2
    } else {
        w + 2
    }
}

/// The position in the array of the cell at a coordinate of the grid.
pub open spec fn cell_index(
    w: int,
    h: int,
    p: int,
    column_first: bool,
    x: int,
    y: int,
    t: int,
) -> int {
    if column_first {
        ((x + 1) * (h + 2) + y + 1) * p + t
    } else {
        ((y + 1) * (w + 2) + x + 1) * p + t
    }
}

/// The coordinate of the cell at a position in the array.
pub open spec fn coord_of(w: int, h: int, p: int, column_first: bool, c: int) -> (int, int, int) {
    let line = line_len(w, h, column_first);
    let t = c % p;
    let place = c / p;
    let major = place / line - 1;
    let minor = place % line - 1;
    if column_first {
        (major, minor, t)
    } else {
        (minor, major, t)
    }
}

/// The position that a link to the given coordinate holds: the cell there,
/// or the sentinel when the coordinate is outside the grid.
pub open spec fn link_to(
    w: int,
    h: int,
    p: int,
    column_first: bool,
    x: int,
    y: int,
    t: int,
) -> int {
    if in_grid(w, h, p, x, y, t) {
        cell_index(w, h, p, column_first, x, y, t)
    } else {
        grid_size(w, h, p)
    }
}

/// Each dimension of a grid is at most its size.
pub proof fn lemma_dims_bounds(w: int, h: int, p: int)
    by (nonlinear_arith)
    requires
        0 <= w,
        0 <= h,
        1 <= p,
    ensures
        w + 2 <= (w + 2) * (h + 2) * p,
        h + 2 <= (w + 2) * (h + 2) * p,
        p <= (w + 2) * (h + 2) * p,
        (w + 2) * (h + 2) <= (w + 2) * (h + 2) * p,
        (h + 2) * (w + 2) == (w + 2) * (h + 2),
        4 <= (w + 2) * (h + 2),
{
}

/// The steps of the computation of a position stay below the bounds of the
/// layout.
proof fn lemma_index_parts(lines: int, line: int, p: int, a: int, b: int, t: int)
    by (nonlinear_arith)
    requires
        0 <= a < lines,
        0 <= b < line,
        0 <= t < p,
    ensures
        0 <= a * line,
        a * line + b < lines * line,
        0 <= (a * line + b) * p,
        (a * line + b) * p + t < lines * line * p,
        lines * line <= lines * line * p,
{
}

/// The position of a cell of the grid lies in the array, and the steps of
/// its computation stay below the size of the grid.
pub proof fn lemma_index_in_range(
    w: int,
    h: int,
    p: int,
    column_first: bool,
    x: int,
    y: int,
    t: int,
)
    requires
        0 <= w,
        0 <= h,
        1 <= p,
        in_grid(w, h, p, x, y, t),
    ensures
        0 <= cell_index(w, h, p, column_first, x, y, t) < grid_size(w, h, p),
        0 <= (x + 1) * (h + 2) <= (x + 1) * (h + 2) + y + 1 < grid_size(w, h, p),
        0 <= (y + 1) * (w + 2) <= (y + 1) * (w + 2) + x + 1 < grid_size(w, h, p),
        (w + 2) * (h + 2) <= grid_size(w, h, p),
{
    lemma_index_parts(w + 2, h + 2, p, x + 1, y + 1, t);
    lemma_index_parts(h + 2, w + 2, p, y + 1, x + 1, t);
    assert((h + 2) * (w + 2) == (w + 2) * (h + 2)) by (nonlinear_arith);
}

/// The coordinate of the position of a coordinate is that coordinate.
pub proof fn lemma_coord_of_index(
    w: int,
    h: int,
    p: int,
    column_first: bool,
    x: int,
    y: int,
    t: int,
)
    requires
        0 <= w,
        0 <= h,
        1 <= p,
        in_grid(w, h, p, x, y, t),
    ensures
        coord_of(w, h, p, column_first, cell_index(w, h, p, column_first, x, y, t)) == (x, y, t),
{
    let line = line_len(w, h, column_first);
    let (a, b) = if column_first {
        (x + 1, y + 1)
    } else {
        (y + 1, x + 1)
    };
    let c = cell_index(w, h, p, column_first, x, y, t);
    assert(c == (a * line + b) * p + t);
    lemma_fundamental_div_mod_converse(c, p, a * line + b, t);
    lemma_fundamental_div_mod_converse(a * line + b, line, a, b);
}

/// The position of the coordinate of a position is that position, and the
/// coordinate lies in the grid.
pub proof fn lemma_index_of_coord(w: int, h: int, p: int, column_first: bool, c: int)
    requires
        0 <= w,
        0 <= h,
        1 <= p,
        0 <= c < grid_size(w, h, p),
    ensures
        ({
            let (x, y, t) = coord_of(w, h, p, column_first, c);
            in_grid(w, h, p, x, y, t) && cell_index(w, h, p, column_first, x, y, t) == c
        }),
{
    let line = line_len(w, h, column_first);
    let lines = if column_first {
        w + 2
    } else {
        h + 2
    };
    let t = c % p;
    let place = c / p;
    lemma_dims_bounds(w, h, p);
    lemma_fundamental_div_mod(c, p);
    lemma_fundamental_div_mod(place, line);
    let a = place / line;
    let b = place % line;
    assert(lines * line * p == grid_size(w, h, p)) by (nonlinear_arith)
        requires
            lines * line == (w + 2) * (h + 2),
    ;
    assert(0 <= place < lines * line) by (nonlinear_arith)
        requires
            c == p * place + t,
            0 <= t < p,
            0 <= c < lines * line * p,
            1 <= p,
    ;
    assert(0 <= a < lines) by (nonlinear_arith)
        requires
            place == line * a + b,
            0 <= b < line,
            0 <= place < lines * line,
            2 <= line,
    ;
    assert((a * line + b) * p + t == c) by (nonlinear_arith)
        requires
            c == p * place + t,
            place == line * a + b,
    ;
}

/// Finds the position of the cell at a coordinate, where the grid holds one.
pub fn index_of(
    width: isize,
    height: isize,
    period: isize,
    column_first: bool,
    coord: Coord,
) -> (found: Option<usize>)
    requires
        dims_ok(width as int, height as int, period as int),
    ensures
        found == if in_grid(
            width as int,
            height as int,
            period as int,
            coord.0 as int,
            coord.1 as int,
            coord.2 as int,
        ) {
            Some(
                cell_index(
                    width as int,
                    height as int,
                    period as int,
                    column_first,
                    coord.0 as int,
                    coord.1 as int,
                    coord.2 as int,
                ) as usize,
            )
        } else {
            None
        },
        found is Some ==> found->0 < grid_size(width as int, height as int, period as int),
{
    let (x, y, t) = coord;
    proof {
        lemma_dims_bounds(width as int, height as int, period as int);
    }
    if x >= -1 && x <= width && y >= -1 && y <= height && 0 <= t && t < period {
        proof {
            lemma_index_in_range(
                width as int,
                height as int,
                period as int,
                column_first,
                x as int,
                y as int,
                t as int,
            );
        }
        let index = if column_first {
            ((x + 1) * (height + 2) + y + 1) * period + t
        } else {
            ((y + 1) * (width + 2) + x + 1) * period + t
        };
        Some(index as usize)
    } else {
        None
    }
}

/// Finds the coordinate of the cell at a position in the array.
pub fn coord_at(
    width: isize,
    height: isize,
    period: isize,
    column_first: bool,
    index: usize,
) -> (coord: Coord)
    requires
        dims_ok(width as int, height as int, period as int),
        index < grid_size(width as int, height as int, period as int),
    ensures
        (coord.0 as int, coord.1 as int, coord.2 as int) == coord_of(
            width as int,
            height as int,
            period as int,
            column_first,
            index as int,
        ),
        in_grid(
            width as int,
            height as int,
            period as int,
            coord.0 as int,
            coord.1 as int,
            coord.2 as int,
        ),
        cell_index(
            width as int,
            height as int,
            period as int,
            column_first,
            coord.0 as int,
            coord.1 as int,
            coord.2 as int,
        ) == index,
{
    proof {
        lemma_dims_bounds(width as int, height as int, period as int);
        lemma_index_of_coord(
            width as int,
            height as int,
            period as int,
            column_first,
            index as int,
        );
    }
    let line = if column_first {
        height + 2
    } else {
        width + 2
    };
    let c = index as isize;
    let t = c % period;
    let place = c / period;
    let major = place / line - 1;
    let minor = place % line - 1;
    if column_first {
        (major, minor, t)
    } else {
        (minor, major, t)
    }
}

} // verus!
