//! A sparse grid of cells that remembers which items were registered over
//! which rectangle of cells, and answers which items are near a rectangle.

use std::collections::HashMap;
use std::collections::HashSet;
use std::ops::Add;
use vstd::prelude::*;
use vstd::std_specs::iter::IteratorSpec;

verus! {

broadcast use vstd::std_specs::hash::group_hash_axioms;

/// A cell of the grid.
///
/// A pair `(x, y)` converts into it.
#[derive(Debug, Clone, Copy, PartialEq, Eq, Hash, Structural)]
pub struct GridCoord {
    pub x: i16,
    pub y: i16,
}

/// How many cells a region reaches beyond its first one, to the right and
/// downwards.
///
/// A pair `(w, h)` converts into it.
#[derive(Debug, Clone, Copy, PartialEq, Eq, Hash, Structural)]
pub struct GridRange {
    pub w: u16,
    pub h: u16,
}

/// A rectangle of cells: its top-left cell `coord` and the cells that follow
/// up to `range` further along each axis. A range of `(0, 0)` is the one cell
/// at `coord`; a range of `(2, 4)` on `(x, y)` reaches to `(x + 2, y + 4)`
/// inclusive. A region is never smaller than one cell.
#[derive(Debug, Clone, Copy, PartialEq, Eq, Hash, Structural)]
pub struct GridRegion {
    pub coord: GridCoord,
    pub range: GridRange,
}

impl From<(i16, i16)> for GridCoord {
    fn from(coord: (i16, i16)) -> (r: GridCoord) {
        GridCoord { x: coord.0, y: coord.1 }
    }
}

impl vstd::std_specs::convert::FromSpecImpl<(i16, i16)> for GridCoord {
    open spec fn obeys_from_spec() -> bool {
        true
    }

    open spec fn from_spec(coord: (i16, i16)) -> GridCoord {
        GridCoord { x: coord.0, y: coord.1 }
    }
}

impl From<(u16, u16)> for GridRange {
    fn from(range: (u16, u16)) -> (r: GridRange) {
        GridRange { w: range.0, h: range.1 }
    }
}

impl vstd::std_specs::convert::FromSpecImpl<(u16, u16)> for GridRange {
    open spec fn obeys_from_spec() -> bool {
        true
    }

    open spec fn from_spec(range: (u16, u16)) -> GridRange {
        GridRange { w: range.0, h: range.1 }
    }
}

impl From<((i16, i16), (u16, u16))> for GridRegion {
    fn from(coord_span: ((i16, i16), (u16, u16))) -> (r: GridRegion) {
        GridRegion { coord: coord_span.0.into(), range: coord_span.1.into() }
    }
}

impl vstd::std_specs::convert::FromSpecImpl<((i16, i16), (u16, u16))> for GridRegion {
    open spec fn obeys_from_spec() -> bool {
        true
    }

    open spec fn from_spec(coord_span: ((i16, i16), (u16, u16))) -> GridRegion {
        GridRegion {
            coord: GridCoord { x: coord_span.0.0, y: coord_span.0.1 },
            range: GridRange { w: coord_span.1.0, h: coord_span.1.1 },
        }
    }
}

impl From<(GridCoord, GridCoord)> for GridRegion {
    /// The region between two opposite corners, whichever two they are and
    /// in whichever order they come.
    fn from(coords: (GridCoord, GridCoord)) -> (r: GridRegion) {
        let coord0 = coords.0;
        let coord1 = coords.1;
        let left: i16 = if coord0.x <= coord1.x {
            coord0.x
        } else {
            coord1.x
        };
        let top: i16 = if coord0.y <= coord1.y {
            coord0.y
        } else {
            coord1.y
        };
        let right: i16 = if coord0.x <= coord1.x {
            coord1.x
        } else {
            coord0.x
        };
        let bottom: i16 = if coord0.y <= coord1.y {
            coord1.y
        } else {
            coord0.y
        };
        GridRegion {
            coord: GridCoord { x: left, y: top },
            range: GridRange {
                w: (right as i32 - left as i32) as u16,
                h: (bottom as i32 - top as i32) as u16,
            },
        }
    }
}

impl vstd::std_specs::convert::FromSpecImpl<(GridCoord, GridCoord)> for GridRegion {
    open spec fn obeys_from_spec() -> bool {
        true
    }

    open spec fn from_spec(coords: (GridCoord, GridCoord)) -> GridRegion {
        GridRegion::spanning(coords.0, coords.1)
    }
}

impl From<(i16, i16)> for GridRegion {
    fn from(coord: (i16, i16)) -> (r: GridRegion) {
        GridRegion { coord: coord.into(), range: GridRange { w: 0, h: 0 } }
    }
}

impl vstd::std_specs::convert::FromSpecImpl<(i16, i16)> for GridRegion {
    open spec fn obeys_from_spec() -> bool {
        true
    }

    open spec fn from_spec(coord: (i16, i16)) -> GridRegion {
        GridRegion {
            coord: GridCoord { x: coord.0, y: coord.1 },
            range: GridRange { w: 0, h: 0 },
        }
    }
}

impl Add<GridRange> for GridCoord {
    type Output = GridCoord;

    /// The cell that lies `rhs` beyond this one. It has to be a cell of its
    /// own: the sum on each axis must not pass 32767.
    fn add(self, rhs: GridRange) -> (r: GridCoord) {
        GridCoord {
            x: (self.x as i32 + rhs.w as i32) as i16,
            y: (self.y as i32 + rhs.h as i32) as i16,
        }
    }
}

impl vstd::std_specs::ops::AddSpecImpl<GridRange> for GridCoord {
    open spec fn obeys_add_spec() -> bool {
        true
    }

    open spec fn add_req(self, rhs: GridRange) -> bool {
        self.x + rhs.w <= i16::MAX && self.y + rhs.h <= i16::MAX
    }

    open spec fn add_spec(self, rhs: GridRange) -> GridCoord {
        GridCoord { x: (self.x + rhs.w) as i16, y: (self.y + rhs.h) as i16 }
    }
}

impl Add<(u16, u16)> for GridCoord {
    type Output = GridCoord;

    fn add(self, rhs: (u16, u16)) -> (r: GridCoord) {
        let range: GridRange = rhs.into();
        self + range
    }
}

impl vstd::std_specs::ops::AddSpecImpl<(u16, u16)> for GridCoord {
    open spec fn obeys_add_spec() -> bool {
        true
    }

    open spec fn add_req(self, rhs: (u16, u16)) -> bool {
        self.x + rhs.0 <= i16::MAX && self.y + rhs.1 <= i16::MAX
    }

    open spec fn add_spec(self, rhs: (u16, u16)) -> GridCoord {
        GridCoord { x: (self.x + rhs.0) as i16, y: (self.y + rhs.1) as i16 }
    }
}

/// The smaller of two numbers.
pub open spec fn least(a: int, b: int) -> int {
    if a <= b {
        a
    } else {
        b
    }
}

/// The larger of two numbers.
pub open spec fn most(a: int, b: int) -> int {
    if a <= b {
        b
    } else {
        a
    }
}

impl GridRegion {
    /// The column of the leftmost cells.
    pub open spec fn left(self) -> int {
        self.coord.x as int
    }

    /// The column of the rightmost cells.
    pub open spec fn right(self) -> int {
        self.coord.x + self.range.w
    }

    /// The row of the topmost cells.
    pub open spec fn top(self) -> int {
        self.coord.y as int
    }

    /// The row of the lowest cells.
    pub open spec fn bottom(self) -> int {
        self.coord.y + self.range.h
    }

    /// The cell in column `x` and row `y` is one of the region's.
    pub open spec fn covers(self, x: int, y: int) -> bool {
        self.left() <= x <= self.right() && self.top() <= y <= self.bottom()
    }

    /// The two regions have a cell in common.
    pub open spec fn meets(self, other: GridRegion) -> bool {
        &&& self.left() <= other.right()
        &&& other.left() <= self.right()
        &&& self.top() <= other.bottom()
        &&& other.top() <= self.bottom()
    }

    /// Every cell of `inner` is a cell of this region.
    pub open spec fn holds(self, inner: GridRegion) -> bool {
        &&& self.left() <= inner.left()
        &&& inner.right() <= self.right()
        &&& self.top() <= inner.top()
        &&& inner.bottom() <= self.bottom()
    }

    /// The region's last cell is a cell that a [`GridCoord`] can name.
    pub open spec fn spec_fits(self) -> bool {
        self.right() <= i16::MAX && self.bottom() <= i16::MAX
    }

    /// Whether the region's last cell is a cell that a [`GridCoord`] can
    /// name, as every region between two corners is.
    #[verifier::when_used_as_spec(spec_fits)]
    pub fn fits(self) -> (r: bool)
        ensures
            r == self.spec_fits(),
    {
        self.coord.x as i32 + self.range.w as i32 <= i16::MAX as i32 && self.coord.y as i32
            + self.range.h as i32 <= i16::MAX as i32
    }

    /// The region that has `a` and `b` as two opposite corners.
    pub open spec fn spanning(a: GridCoord, b: GridCoord) -> GridRegion {
        GridRegion {
            coord: GridCoord {
                x: least(a.x as int, b.x as int) as i16,
                y: least(a.y as int, b.y as int) as i16,
            },
            range: GridRange {
                w: (most(a.x as int, b.x as int) - least(a.x as int, b.x as int)) as u16,
                h: (most(a.y as int, b.y as int) - least(a.y as int, b.y as int)) as u16,
            },
        }
    }

    /// The smallest region that holds every cell of `r1` and of `r2`.
    pub open spec fn enclosing(r1: GridRegion, r2: GridRegion) -> GridRegion {
        GridRegion {
            coord: GridCoord {
                x: least(r1.left(), r2.left()) as i16,
                y: least(r1.top(), r2.top()) as i16,
            },
            range: GridRange {
                w: (most(r1.right(), r2.right()) - least(r1.left(), r2.left())) as u16,
                h: (most(r1.bottom(), r2.bottom()) - least(r1.top(), r2.top())) as u16,
            },
        }
    }

    /// Two regions meet exactly when some cell is in both.
    pub proof fn lemma_meets_is_shared_cell(self, other: GridRegion)
        ensures
            self.meets(other) <==> exists|x: int, y: int|
                self.covers(x, y) && #[trigger] other.covers(x, y),
    {
        if self.meets(other) {
            let x = most(self.left(), other.left());
            let y = most(self.top(), other.top());
            assert(self.covers(x, y) && other.covers(x, y));
        }
    }

    /// The region between two opposite corners is the same whichever corner
    /// comes first, begins at the lesser and ends at the greater coordinate
    /// on each axis.
    pub proof fn lemma_spanning(a: GridCoord, b: GridCoord)
        ensures
            GridRegion::spanning(a, b) == GridRegion::spanning(b, a),
            GridRegion::spanning(a, b).fits(),
            GridRegion::spanning(a, b).left() == least(a.x as int, b.x as int),
            GridRegion::spanning(a, b).right() == most(a.x as int, b.x as int),
            GridRegion::spanning(a, b).top() == least(a.y as int, b.y as int),
            GridRegion::spanning(a, b).bottom() == most(a.y as int, b.y as int),
    {
    }

    /// The enclosing region of two regions that fit holds both, and every
    /// region `r` that holds both holds it.
    pub proof fn lemma_enclosing_is_least(r1: GridRegion, r2: GridRegion, r: GridRegion)
        requires
            r1.fits(),
            r2.fits(),
        ensures
            GridRegion::enclosing(r1, r2).fits(),
            GridRegion::enclosing(r1, r2).holds(r1),
            GridRegion::enclosing(r1, r2).holds(r2),
            r.holds(r1) && r.holds(r2) ==> r.holds(GridRegion::enclosing(r1, r2)),
    {
    }

    /// The region of `range` further cells from `coord` on.
    pub fn new(coord: [i16; 2], range: [u16; 2]) -> (r: GridRegion)
        ensures
            r == (GridRegion {
                coord: GridCoord { x: coord[0], y: coord[1] },
                range: GridRange { w: range[0], h: range[1] },
            }),
    {
        GridRegion {
            coord: GridCoord { x: coord[0], y: coord[1] },
            range: GridRange { w: range[0], h: range[1] },
        }
    }

    /// The region that is the one cell in column `x` and row `y`.
    pub fn square(x: i16, y: i16) -> (r: GridRegion)
        ensures
            r == (GridRegion { coord: GridCoord { x, y }, range: GridRange { w: 0, h: 0 } }),
            forall|cx: int, cy: int| r.covers(cx, cy) <==> cx == x && cy == y,
    {
        GridRegion { coord: GridCoord { x, y }, range: GridRange { w: 0, h: 0 } }
    }

    /// A new region that bounds both `r1` and `r2`.
    pub fn bounding(r1: GridRegion, r2: GridRegion) -> (r: GridRegion)
        requires
            r1.fits(),
            r2.fits(),
        ensures
            r == GridRegion::enclosing(r1, r2),
            r.fits(),
            r.left() == least(r1.left(), r2.left()),
            r.right() == most(r1.right(), r2.right()),
            r.top() == least(r1.top(), r2.top()),
            r.bottom() == most(r1.bottom(), r2.bottom()),
    {
        if r1 == r2 {
            return r1;
        }
        let c1_tl = r1.coord;
        let c1_br = r1.coord + r1.range;
        let c2_tl = r2.coord;
        let c2_br = r2.coord + r2.range;
        let tl = GridCoord {
            x: if c1_tl.x <= c2_tl.x {
                c1_tl.x
            } else {
                c2_tl.x
            },
            y: if c1_tl.y <= c2_tl.y {
                c1_tl.y
            } else {
                c2_tl.y
            },
        };
        let br = GridCoord {
            x: if c1_br.x >= c2_br.x {
                c1_br.x
            } else {
                c2_br.x
            },
            y: if c1_br.y >= c2_br.y {
                c1_br.y
            } else {
                c2_br.y
            },
        };
        (tl, br).into()
    }
}

/// The lowest column or row that a cell of a region can lie in.
pub const CELL_MIN: i32 = -32768;

/// The highest column or row that a cell of a region can lie in: the last
/// cell of the widest region that begins at the highest coordinate.
pub const CELL_MAX: i32 = 98302;

/// The cell in column `x` and row `y` can belong to a region.
pub open spec fn is_cell(x: int, y: int) -> bool {
    CELL_MIN <= x <= CELL_MAX && CELL_MIN <= y <= CELL_MAX
}

/// The number under which the grid files the cell in column `x` and row `y`.
pub closed spec fn cell_key(x: int, y: int) -> u64 {
    ((x - CELL_MIN) * 0x1_0000_0000 + (y - CELL_MIN)) as u64
}

/// No two cells are filed under one number.
proof fn lemma_cell_keys_differ(x1: int, y1: int, x2: int, y2: int)
    requires
        is_cell(x1, y1),
        is_cell(x2, y2),
        x1 != x2 || y1 != y2,
    ensures
        cell_key(x1, y1) != cell_key(x2, y2),
{
}

fn key_of(x: i32, y: i32) -> (key: u64)
    requires
        is_cell(x as int, y as int),
    ensures
        key == cell_key(x as int, y as int),
{
    let column: u64 = (x as i64 - CELL_MIN as i64) as u64;
    let row: u64 = (y as i64 - CELL_MIN as i64) as u64;
    column * 0x1_0000_0000 + row
}

/// `item` is filed under the cell in column `x` and row `y`.
spec fn filed(cells: Map<u64, HashSet<usize>>, x: int, y: int, item: usize) -> bool {
    cells.contains_key(cell_key(x, y)) && cells[cell_key(x, y)]@.contains(item)
}

/// The items filed under the cell in column `x` and row `y`.
spec fn items_in(cells: Map<u64, HashSet<usize>>, x: int, y: int) -> Set<usize> {
    Set::new(|item: usize| filed(cells, x, y, item))
}

/// No cell is filed that holds nothing.
spec fn pruned(cells: Map<u64, HashSet<usize>>) -> bool {
    forall|key: u64| #[trigger] cells.contains_key(key) ==> !cells[key]@.is_empty()
}

/// Files `item` under the cell in column `x` and row `y`.
fn file_item(cells: &mut HashMap<u64, HashSet<usize>>, x: i32, y: i32, item: usize)
    requires
        is_cell(x as int, y as int),
        pruned(old(cells)@),
    ensures
        pruned(final(cells)@),
        forall|cx: int, cy: int, other: usize|
            is_cell(cx, cy) ==> (#[trigger] filed(final(cells)@, cx, cy, other) <==> filed(
                old(cells)@,
                cx,
                cy,
                other,
            ) || (cx == x && cy == y && other == item)),
{
    let key: u64 = key_of(x, y);
    let mut items: HashSet<usize> = match cells.remove(&key) {
        Some(items) => items,
        None => HashSet::new(),
    };
    items.insert(item);
    cells.insert(key, items);
    proof {
        assert(items@.contains(item));
        assert forall|cx: int, cy: int, other: usize| is_cell(cx, cy) implies (#[trigger] filed(
            cells@,
            cx,
            cy,
            other,
        ) <==> filed(old(cells)@, cx, cy, other) || (cx == x && cy == y && other == item)) by {
            if cx != x || cy != y {
                lemma_cell_keys_differ(cx, cy, x as int, y as int);
            }
        }
    }
}

/// Takes `item` out of the cell in column `x` and row `y`, and the cell out
/// of the files if nothing is left in it.
fn unfile_item(cells: &mut HashMap<u64, HashSet<usize>>, x: i32, y: i32, item: usize)
    requires
        is_cell(x as int, y as int),
        pruned(old(cells)@),
    ensures
        pruned(final(cells)@),
        forall|cx: int, cy: int, other: usize|
            is_cell(cx, cy) ==> (#[trigger] filed(final(cells)@, cx, cy, other) <==> filed(
                old(cells)@,
                cx,
                cy,
                other,
            ) && !(cx == x && cy == y && other == item)),
{
    let key: u64 = key_of(x, y);
    match cells.remove(&key) {
        Some(items) => {
            let mut items = items;
            items.remove(&item);
            if !items.is_empty() {
                cells.insert(key, items);
            }
        },
        None => {},
    }
    proof {
        assert forall|cx: int, cy: int, other: usize| is_cell(cx, cy) implies (#[trigger] filed(
            cells@,
            cx,
            cy,
            other,
        ) <==> filed(old(cells)@, cx, cy, other) && !(cx == x && cy == y && other == item)) by {
            if cx != x || cy != y {
                lemma_cell_keys_differ(cx, cy, x as int, y as int);
            }
        }
    }
}

/// Files `item` under every cell of `region`.
fn file_region(cells: &mut HashMap<u64, HashSet<usize>>, item: usize, region: GridRegion)
    requires
        pruned(old(cells)@),
    ensures
        pruned(final(cells)@),
        forall|x: int, y: int, other: usize|
            is_cell(x, y) ==> (#[trigger] filed(final(cells)@, x, y, other) <==> filed(
                old(cells)@,
                x,
                y,
                other,
            ) || (other == item && region.covers(x, y))),
{
    let left: i32 = region.coord.x as i32;
    let right: i32 = left + region.range.w as i32;
    let top: i32 = region.coord.y as i32;
    let bottom: i32 = top + region.range.h as i32;
    let mut x: i32 = left;
    while x <= right
        invariant
            left == region.left(),
            right == region.right(),
            top == region.top(),
            bottom == region.bottom(),
            left <= x <= right + 1,
            pruned(cells@),
            forall|cx: int, cy: int, other: usize|
                is_cell(cx, cy) ==> (#[trigger] filed(cells@, cx, cy, other) <==> filed(
                    old(cells)@,
                    cx,
                    cy,
                    other,
                ) || (other == item && region.covers(cx, cy) && cx < x)),
        decreases right + 1 - x,
    {
        let mut y: i32 = top;
        while y <= bottom
            invariant
                left == region.left(),
                right == region.right(),
                top == region.top(),
                bottom == region.bottom(),
                left <= x <= right,
                top <= y <= bottom + 1,
                pruned(cells@),
                forall|cx: int, cy: int, other: usize|
                    is_cell(cx, cy) ==> (#[trigger] filed(cells@, cx, cy, other) <==> filed(
                        old(cells)@,
                        cx,
                        cy,
                        other,
                    ) || (other == item && region.covers(cx, cy) && (cx < x || cx == x && cy
                        < y))),
            decreases bottom + 1 - y,
        {
            file_item(cells, x, y, item);
            y += 1;
        }
        x += 1;
    }
}

/// Takes `item` out of every cell of `region`.
fn unfile_region(cells: &mut HashMap<u64, HashSet<usize>>, item: usize, region: GridRegion)
    requires
        pruned(old(cells)@),
    ensures
        pruned(final(cells)@),
        forall|x: int, y: int, other: usize|
            is_cell(x, y) ==> (#[trigger] filed(final(cells)@, x, y, other) <==> filed(
                old(cells)@,
                x,
                y,
                other,
            ) && !(other == item && region.covers(x, y))),
{
    let left: i32 = region.coord.x as i32;
    let right: i32 = left + region.range.w as i32;
    let top: i32 = region.coord.y as i32;
    let bottom: i32 = top + region.range.h as i32;
    let mut x: i32 = left;
    while x <= right
        invariant
            left == region.left(),
            right == region.right(),
            top == region.top(),
            bottom == region.bottom(),
            left <= x <= right + 1,
            pruned(cells@),
            forall|cx: int, cy: int, other: usize|
                is_cell(cx, cy) ==> (#[trigger] filed(cells@, cx, cy, other) <==> filed(
                    old(cells)@,
                    cx,
                    cy,
                    other,
                ) && !(other == item && region.covers(cx, cy) && cx < x)),
        decreases right + 1 - x,
    {
        let mut y: i32 = top;
        while y <= bottom
            invariant
                left == region.left(),
                right == region.right(),
                top == region.top(),
                bottom == region.bottom(),
                left <= x <= right,
                top <= y <= bottom + 1,
                pruned(cells@),
                forall|cx: int, cy: int, other: usize|
                    is_cell(cx, cy) ==> (#[trigger] filed(cells@, cx, cy, other) <==> filed(
                        old(cells)@,
                        cx,
                        cy,
                        other,
                    ) && !(other == item && region.covers(cx, cy) && (cx < x || cx == x && cy
                        < y))),
            decreases bottom + 1 - y,
        {
            unfile_item(cells, x, y, item);
            y += 1;
        }
        x += 1;
    }
}

/// The numbers of `list` rise from each to the next.
pub open spec fn ascending(list: Seq<usize>) -> bool {
    forall|i: int, j: int| 0 <= i < j < list.len() ==> list[i] < list[j]
}

/// Puts `item` in its place in the ascending `list`, unless it is there.
fn note_item(list: &mut Vec<usize>, item: usize)
    requires
        ascending(old(list)@),
    ensures
        ascending(final(list)@),
        final(list)@.to_set() == old(list)@.to_set().insert(item),
{
    let mut at: usize = 0;
    while at < list.len() && list[at] < item
        invariant
            at <= list@.len(),
            list@ == old(list)@,
            forall|i: int| 0 <= i < at ==> list@[i] < item,
        decreases list@.len() - at,
    {
        at += 1;
    }
    if at < list.len() && list[at] == item {
        assert(list@.to_set() =~= list@.to_set().insert(item));
        return ;
    }
    list.insert(at, item);
    proof {
        let before = old(list)@;
        assert forall|other: usize| #[trigger] list@.to_set().contains(other) <==> other == item
            || before.to_set().contains(other) by {
            if other == item {
                assert(list@[at as int] == item);
            }
            if before.contains(other) {
                let i = choose|i: int| 0 <= i < before.len() && before[i] == other;
                if i < at {
                    assert(list@[i] == other);
                } else {
                    assert(list@[i + 1] == other);
                }
            }
            if list@.contains(other) && other != item {
                let i = choose|i: int| 0 <= i < list@.len() && list@[i] == other;
                if i < at {
                    assert(before[i] == other);
                } else {
                    assert(before[i - 1] == other);
                }
            }
        }
        assert(list@.to_set() =~= before.to_set().insert(item));
    }
}

/// Notes every item of `items` in the ascending `list`.
fn note_items(list: &mut Vec<usize>, items: &HashSet<usize>)
    requires
        ascending(old(list)@),
    ensures
        ascending(final(list)@),
        final(list)@.to_set() == old(list)@.to_set().union(items@),
{
    let ghost all: Seq<usize> = items.iter().remaining().unref();
    for item in it: items.iter()
        invariant
            it.seq().unref() == all,
            all.to_set() == items@,
            ascending(list@),
            list@.to_set() == old(list)@.to_set().union(all.take(it.index()).to_set()),
    {
        let ghost seen = all.take(it.index());
        note_item(list, *item);
        proof {
            let next = all.take(it.index() + 1);
            assert(next =~= seen.push(*item));
            assert forall|other: usize| #[trigger] next.to_set().contains(other) <==> other == *item
                || seen.to_set().contains(other) by {
                if seen.contains(other) {
                    let i = choose|i: int| 0 <= i < seen.len() && seen[i] == other;
                    assert(next[i] == other);
                }
                if other == *item {
                    assert(next[next.len() - 1] == other);
                }
                if next.contains(other) {
                    let i = choose|i: int| 0 <= i < next.len() && next[i] == other;
                    if i < seen.len() {
                        assert(seen[i] == other);
                    }
                }
            }
            assert(list@.to_set() =~= old(list)@.to_set().union(next.to_set()));
        }
    }
    proof {
        assert(all.take(all.len() as int) =~= all);
    }
}

/// A record of where items are: each item is registered over one region of
/// cells, and any region can be asked which items have a cell in it.
///
/// A collision system, for one, registers each body over the cells that it
/// touches, and then has only the bodies near a moving one to look at.
pub struct Grid {
    coord_items: HashMap<u64, HashSet<usize>>,
    item_regions: HashMap<usize, GridRegion>,
}

impl View for Grid {
    type V = Map<usize, GridRegion>;

    /// The region that each registered item was last registered over.
    closed spec fn view(&self) -> Map<usize, GridRegion> {
        self.item_regions@
    }
}

impl Grid {
    /// The two halves of the record agree: an item is filed under a cell
    /// exactly when the region it is registered over covers that cell, and
    /// no cell is filed that holds nothing.
    pub closed spec fn wf(&self) -> bool {
        &&& pruned(self.coord_items@)
        &&& self@.dom().finite()
        &&& forall|x: int, y: int, item: usize|
            is_cell(x, y) ==> (#[trigger] filed(self.coord_items@, x, y, item)
                <==> self@.contains_key(item) && self@[item].covers(x, y))
    }

    /// The items that `query` reports for `region`: those registered over a
    /// region that has a cell in common with it.
    pub open spec fn near(regions: Map<usize, GridRegion>, region: GridRegion) -> Set<usize> {
        Set::new(|item: usize| regions.contains_key(item) && regions[item].meets(region))
    }

    pub fn new() -> (grid: Grid)
        ensures
            grid.wf(),
            grid@ == Map::<usize, GridRegion>::empty(),
    {
        Grid { coord_items: HashMap::new(), item_regions: HashMap::new() }
    }

    /// The number of items registered.
    pub fn len(&self) -> (n: usize)
        requires
            self.wf(),
        ensures
            n == self@.len(),
    {
        self.item_regions.len()
    }

    /// Whether any item is registered over the cell `coord`.
    pub fn holds_cell(&self, coord: GridCoord) -> (r: bool)
        requires
            self.wf(),
        ensures
            r == exists|item: usize|
                self@.contains_key(item) && #[trigger] self@[item].covers(
                    coord.x as int,
                    coord.y as int,
                ),
    {
        let key: u64 = key_of(coord.x as i32, coord.y as i32);
        let r = self.coord_items.contains_key(&key);
        proof {
            let x = coord.x as int;
            let y = coord.y as int;
            if r {
                let items = self.coord_items@[key]@;
                assert(!items.is_empty());
                let item = choose|item: usize| items.contains(item);
                assert(filed(self.coord_items@, x, y, item));
                assert(self@.contains_key(item) && self@[item].covers(x, y));
            } else {
                assert forall|item: usize|
                    self@.contains_key(item) implies !#[trigger] self@[item].covers(x, y) by {
                    assert(!filed(self.coord_items@, x, y, item));
                }
            }
        }
        r
    }

    /// The region that `item` is registered over, if it is registered.
    pub fn region_of(&self, item: usize) -> (r: Option<GridRegion>)
        requires
            self.wf(),
        ensures
            r == (if self@.contains_key(item) {
                Some(self@[item])
            } else {
                None::<GridRegion>
            }),
    {
        match self.item_regions.get(&item) {
            Some(region) => Some(*region),
            None => None,
        }
    }

    /// Registers `item` over `region`, and over no cell beyond it: an
    /// earlier registration of the item is dropped.
    pub fn insert(&mut self, item: usize, region: GridRegion)
        requires
            old(self).wf(),
        ensures
            final(self).wf(),
            final(self)@ == old(self)@.insert(item, region),
    {
        self.remove(item);
        file_region(&mut self.coord_items, item, region);
        self.item_regions.insert(item, region);
        assert(self@ =~= old(self)@.insert(item, region));
    }

    /// Drops the registration of `item`, if it has one.
    pub fn remove(&mut self, item: usize)
        requires
            old(self).wf(),
        ensures
            final(self).wf(),
            final(self)@ == old(self)@.remove(item),
    {
        if let Some(region) = self.item_regions.remove(&item) {
            unfile_region(&mut self.coord_items, item, region);
        }
        assert(self@ =~= old(self)@.remove(item));
    }

    /// The items registered over a region that has a cell in common with
    /// `region`, each once, in ascending order. Whether what an item stands
    /// for reaches into `region` itself is not asked: the cells decide.
    pub fn query(&self, region: GridRegion) -> (items: Vec<usize>)
        requires
            self.wf(),
        ensures
            ascending(items@),
            items@.to_set() == Grid::near(self@, region),
    {
        let mut items: Vec<usize> = Vec::new();
        let left: i32 = region.coord.x as i32;
        let right: i32 = left + region.range.w as i32;
        let top: i32 = region.coord.y as i32;
        let bottom: i32 = top + region.range.h as i32;
        let mut x: i32 = left;
        while x <= right
            invariant
                self.wf(),
                left == region.left(),
                right == region.right(),
                top == region.top(),
                bottom == region.bottom(),
                left <= x <= right + 1,
                ascending(items@),
                forall|item: usize| #[trigger]
                    items@.to_set().contains(item) <==> self@.contains_key(item) && reaches(
                        self@[item],
                        (left as int, x - 1),
                        (top as int, bottom as int),
                    ),
            decreases right + 1 - x,
        {
            let mut y: i32 = top;
            while y <= bottom
                invariant
                    self.wf(),
                    left == region.left(),
                    right == region.right(),
                    top == region.top(),
                    bottom == region.bottom(),
                    left <= x <= right,
                    top <= y <= bottom + 1,
                    ascending(items@),
                    forall|item: usize| #[trigger]
                        items@.to_set().contains(item) <==> self@.contains_key(item) && (reaches(
                            self@[item],
                            (left as int, x - 1),
                            (top as int, bottom as int),
                        ) || reaches(self@[item], (x as int, x as int), (top as int, y - 1))),
                decreases bottom + 1 - y,
            {
                let key: u64 = key_of(x, y);
                let ghost noted = items@.to_set();
                let ghost here = items_in(self.coord_items@, x as int, y as int);
                match self.coord_items.get(&key) {
                    Some(cell) => {
                        assert(cell@ =~= here);
                        note_items(&mut items, cell);
                    },
                    None => {
                        assert(here =~= Set::<usize>::empty());
                    },
                }
                proof {
                    assert(items@.to_set() =~= noted.union(here));
                    assert forall|item: usize| #[trigger]
                        items@.to_set().contains(item) <==> self@.contains_key(item) && (reaches(
                            self@[item],
                            (left as int, x - 1),
                            (top as int, bottom as int),
                        ) || reaches(
                            self@[item],
                            (x as int, x as int),
                            (top as int, y as int),
                        )) by {
                        assert(here.contains(item) == filed(
                            self.coord_items@,
                            x as int,
                            y as int,
                            item,
                        ));
                        assert(noted.contains(item) <==> self@.contains_key(item) && (reaches(
                            self@[item],
                            (left as int, x - 1),
                            (top as int, bottom as int),
                        ) || reaches(self@[item], (x as int, x as int), (top as int, y - 1))));
                    }
                }
                y += 1;
            }
            x += 1;
        }
        proof {
            assert(items@.to_set() =~= Grid::near(self@, region));
        }
        items
    }
}

/// The region has a cell in the columns from `columns.0` to `columns.1` and
/// the rows from `rows.0` to `rows.1`.
spec fn reaches(region: GridRegion, columns: (int, int), rows: (int, int)) -> bool {
    &&& columns.0 <= columns.1
    &&& rows.0 <= rows.1
    &&& region.left() <= columns.1
    &&& columns.0 <= region.right()
    &&& region.top() <= rows.1
    &&& rows.0 <= region.bottom()
}

/// One change to a grid.
pub enum GridOp {
    /// `insert` of an item over a region.
    Insert(usize, GridRegion),
    /// `remove` of an item.
    Remove(usize),
}

impl GridOp {
    /// The item that the change is about.
    pub open spec fn item(self) -> usize {
        match self {
            GridOp::Insert(item, _) => item,
            GridOp::Remove(item) => item,
        }
    }

    /// What the change makes of what a grid holds.
    pub open spec fn apply(self, regions: Map<usize, GridRegion>) -> Map<usize, GridRegion> {
        match self {
            GridOp::Insert(item, region) => regions.insert(item, region),
            GridOp::Remove(item) => regions.remove(item),
        }
    }
}

/// What a grid holds after the changes `ops` were made to a new one, in
/// their order.
pub open spec fn after_ops(ops: Seq<GridOp>) -> Map<usize, GridRegion>
    decreases ops.len(),
{
    if ops.len() == 0 {
        Map::empty()
    } else {
        ops.last().apply(after_ops(ops.drop_last()))
    }
}

/// The region that the last of the changes `ops` about `item` registered it
/// over: none, if that change was a removal or there was no change about it.
pub open spec fn last_registered(ops: Seq<GridOp>, item: usize) -> Option<GridRegion>
    decreases ops.len(),
{
    if ops.len() == 0 {
        None
    } else if ops.last().item() == item {
        match ops.last() {
            GridOp::Insert(_, region) => Some(region),
            GridOp::Remove(_) => None,
        }
    } else {
        last_registered(ops.drop_last(), item)
    }
}

/// After any changes, a query reports exactly the items whose last
/// registration was over a region that has a cell in common with the one
/// asked about: never one that was removed since, always one that was
/// registered so and not removed.
pub proof fn lemma_query_tells_last_registration(ops: Seq<GridOp>, region: GridRegion, item: usize)
    ensures
        Grid::near(after_ops(ops), region).contains(item) <==> {
            &&& last_registered(ops, item) matches Some(last)
            &&& last.meets(region)
        },
        after_ops(ops).contains_key(item) <==> last_registered(ops, item) is Some,
        after_ops(ops).contains_key(item) ==> last_registered(ops, item) == Some(
            after_ops(ops)[item],
        ),
    decreases ops.len(),
{
    if ops.len() > 0 {
        lemma_query_tells_last_registration(ops.drop_last(), region, item);
    }
}

} // verus!
