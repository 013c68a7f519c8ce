//! How a world sorts rectangles into the cells of its grid: the plane is
//! cut into cells of one size, and a rectangle belongs to every cell from
//! the one that holds its top-left corner to the one that holds its
//! bottom-right corner.

use crate::grid::least;
use crate::grid::most;
use crate::grid::GridCoord;
use crate::grid::GridRegion;
use crate::motion::between;
use crate::shape::Area;
use crate::shape::Rect;
use vstd::prelude::*;

verus! {

/// The column (or row) of the cell that holds the coordinate `v`, where
/// cells are `size` wide (or high): `v` divided by `size` and rounded down,
/// or the first or last column there is, if that lies beyond it.
pub open spec fn cell_index(v: int, size: int) -> int {
    if v / size < i16::MIN {
        i16::MIN as int
    } else if v / size > i16::MAX {
        i16::MAX as int
    } else {
        v / size
    }
}

/// The cells that a rectangle belongs to, where cells are `cell.0` wide and
/// `cell.1` high.
pub open spec fn region_for(area: Area, cell: (i64, i64)) -> GridRegion {
    GridRegion::spanning(
        GridCoord {
            x: cell_index(area.left(), cell.0 as int) as i16,
            y: cell_index(area.top(), cell.1 as int) as i16,
        },
        GridCoord {
            x: cell_index(area.right(), cell.0 as int) as i16,
            y: cell_index(area.bottom(), cell.1 as int) as i16,
        },
    )
}

/// A coordinate further along lies in the same column or in one further
/// along.
pub proof fn lemma_cell_index_ordered(a: int, b: int, size: int)
    requires
        a <= b,
        size > 0,
    ensures
        cell_index(a, size) <= cell_index(b, size),
        i16::MIN <= cell_index(a, size) <= i16::MAX,
{
    vstd::arithmetic::div_mod::lemma_div_is_ordered(a, b, size);
}

/// The cells that a rectangle belongs to run from the column of its left or
/// right edge, whichever is the lesser, to the column of the other, and
/// from the row of its top or bottom edge to the row of the other.
pub proof fn lemma_region_for(area: Area, cell: (i64, i64))
    requires
        cell.0 > 0,
        cell.1 > 0,
    ensures
        region_for(area, cell).fits(),
        region_for(area, cell).left() == least(
            cell_index(area.left(), cell.0 as int),
            cell_index(area.right(), cell.0 as int),
        ),
        region_for(area, cell).right() == most(
            cell_index(area.left(), cell.0 as int),
            cell_index(area.right(), cell.0 as int),
        ),
        region_for(area, cell).top() == least(
            cell_index(area.top(), cell.1 as int),
            cell_index(area.bottom(), cell.1 as int),
        ),
        region_for(area, cell).bottom() == most(
            cell_index(area.top(), cell.1 as int),
            cell_index(area.bottom(), cell.1 as int),
        ),
{
    let cw = cell.0 as int;
    let ch = cell.1 as int;
    lemma_cell_index_ordered(area.left(), area.left(), cw);
    lemma_cell_index_ordered(area.right(), area.right(), cw);
    lemma_cell_index_ordered(area.top(), area.top(), ch);
    lemma_cell_index_ordered(area.bottom(), area.bottom(), ch);
    GridRegion::lemma_spanning(
        GridCoord {
            x: cell_index(area.left(), cw) as i16,
            y: cell_index(area.top(), ch) as i16,
        },
        GridCoord {
            x: cell_index(area.right(), cw) as i16,
            y: cell_index(area.bottom(), ch) as i16,
        },
    );
}

/// A rectangle that overlaps another one shares a cell with it, wherever
/// between two places the other one stands: the cells of the first meet the
/// region that encloses the cells of the two places.
pub proof fn lemma_overlap_shares_cell(
    blocker: Area,
    from: Area,
    to: Area,
    at: Area,
    cell: (i64, i64),
)
    requires
        cell.0 > 0,
        cell.1 > 0,
        to.w == from.w,
        to.h == from.h,
        at.w == from.w,
        at.h == from.h,
        between(from.x, at.x, to.x),
        between(from.y, at.y, to.y),
        blocker.overlaps(at),
    ensures
        region_for(blocker, cell).meets(
            GridRegion::enclosing(region_for(from, cell), region_for(to, cell)),
        ),
{
    let cw = cell.0 as int;
    let ch = cell.1 as int;
    lemma_region_for(blocker, cell);
    lemma_region_for(from, cell);
    lemma_region_for(to, cell);
    lemma_cell_index_ordered(blocker.left(), at.right(), cw);
    lemma_cell_index_ordered(at.left(), blocker.right(), cw);
    lemma_cell_index_ordered(blocker.top(), at.bottom(), ch);
    lemma_cell_index_ordered(at.top(), blocker.bottom(), ch);
    if from.x <= to.x {
        lemma_cell_index_ordered(from.left(), at.left(), cw);
        lemma_cell_index_ordered(at.right(), to.right(), cw);
    } else {
        lemma_cell_index_ordered(to.left(), at.left(), cw);
        lemma_cell_index_ordered(at.right(), from.right(), cw);
    }
    if from.y <= to.y {
        lemma_cell_index_ordered(from.top(), at.top(), ch);
        lemma_cell_index_ordered(at.bottom(), to.bottom(), ch);
    } else {
        lemma_cell_index_ordered(to.top(), at.top(), ch);
        lemma_cell_index_ordered(at.bottom(), from.bottom(), ch);
    }
}

/// The column (or row) of the cell that holds the coordinate `v`.
pub fn index_of(v: i128, size: i64) -> (index: i16)
    requires
        size > 0,
        v > i128::MIN,
    ensures
        index == cell_index(v as int, size as int),
{
    let quotient: i128 = v / (size as i128);
    let rest: i128 = v % (size as i128);
    proof {
        if v < 0 {
            vstd::arithmetic::div_mod::lemma_div_is_ordered_by_denominator(
                -(v as int),
                1,
                size as int,
            );
            vstd::arithmetic::div_mod::lemma_div_basics(-(v as int));
        }
    }
    let floor: i128 = if rest < 0 {
        quotient - 1
    } else {
        quotient
    };
    proof {
        let d = size as int;
        if v >= 0 {
            assert(floor == v as int / d);
        } else {
            let n = -(v as int);
            vstd::arithmetic::div_mod::lemma_fundamental_div_mod(n, d);
            assert(n == d * (n / d) + n % d);
            if n % d == 0 {
                assert(v as int == (-(n / d)) * d + 0) by (nonlinear_arith)
                    requires
                        n == d * (n / d),
                        v as int == -n,
                ;
                vstd::arithmetic::div_mod::lemma_fundamental_div_mod_converse(
                    v as int,
                    d,
                    -(n / d),
                    0,
                );
            } else {
                assert(v as int == (-(n / d) - 1) * d + (d - n % d)) by (nonlinear_arith)
                    requires
                        n == d * (n / d) + n % d,
                        v as int == -n,
                ;
                vstd::arithmetic::div_mod::lemma_fundamental_div_mod_converse(
                    v as int,
                    d,
                    -(n / d) - 1,
                    d - n % d,
                );
            }
            assert(floor == v as int / d);
        }
    }
    if floor < i16::MIN as i128 {
        i16::MIN
    } else if floor > i16::MAX as i128 {
        i16::MAX
    } else {
        floor as i16
    }
}

/// The cells that `rect` belongs to, where cells are `cell.0` wide and
/// `cell.1` high.
pub fn region_of(rect: &Rect, cell: (i64, i64)) -> (region: GridRegion)
    requires
        cell.0 > 0,
        cell.1 > 0,
    ensures
        region == region_for(rect@, cell),
        region.fits(),
{
    let coord_tl = GridCoord { x: index_of(rect.left(), cell.0), y: index_of(rect.top(), cell.1) };
    let coord_br = GridCoord {
        x: index_of(rect.right(), cell.0),
        y: index_of(rect.bottom(), cell.1),
    };
    proof {
        GridRegion::lemma_spanning(coord_tl, coord_br);
    }
    (coord_tl, coord_br).into()
}

} // verus!
