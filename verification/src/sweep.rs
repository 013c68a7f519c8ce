//! What holds of the way a body is moved along an axis and pushed back by
//! the bodies in its way.

use crate::motion::between;
use crate::motion::distance;
use crate::motion::pushed_x;
use crate::motion::pushed_y;
use crate::motion::WorldModel;
use crate::shape::Area;
use vstd::prelude::*;

verus! {

/// A rectangle that is pushed back on the horizontal axis by a blocker that
/// it did not overlap before it set out comes to stand between where it
/// stood and where it was moved to, and does not overlap the blocker
/// there. Where the blocker has pushed it back, it stands flush with the
/// blocker's left or right side.
pub proof fn lemma_pushed_x_between(blocker: Area, from: Area, x: int)
    requires
        blocker.overlaps(from.at_x(x)) ==> !blocker.overlaps(from),
    ensures
        between(from.x, pushed_x(blocker, from, x), x),
        !blocker.overlaps(from.at_x(pushed_x(blocker, from, x))),
        pushed_x(blocker, from, x) != x ==> {
            let stopped = from.at_x(pushed_x(blocker, from, x));
            stopped.right() == blocker.left() || stopped.left() == blocker.right()
        },
{
}

/// A rectangle that is pushed back on the vertical axis by a blocker that
/// it did not overlap where the horizontal pass left it comes to stand
/// between where it stood and where it was moved to, and does not overlap
/// the blocker there. Where the blocker has pushed it back, it stands flush
/// with the blocker's top or bottom side.
pub proof fn lemma_pushed_y_between(blocker: Area, from: Area, x: int, y: int)
    requires
        blocker.overlaps(from.at_x(x).at_y(y)) ==> !blocker.overlaps(from.at_x(x)),
    ensures
        between(from.y, pushed_y(blocker, from, x, y), y),
        !blocker.overlaps(from.at_x(x).at_y(pushed_y(blocker, from, x, y))),
        pushed_y(blocker, from, x, y) != y ==> {
            let stopped = from.at_x(x).at_y(pushed_y(blocker, from, x, y));
            stopped.bottom() == blocker.top() || stopped.top() == blocker.bottom()
        },
{
}

/// A rectangle that overlaps a blocker neither where it stood nor at a
/// place along the horizontal axis that is nearer than the two are wide
/// together overlaps it nowhere in between: it has not got past it.
pub proof fn lemma_no_jump_x(blocker: Area, from: Area, far: int, x: int)
    requires
        !blocker.overlaps(from),
        !blocker.overlaps(from.at_x(far)),
        between(from.x, x, far),
        distance(from.x, far) < from.w + blocker.w,
    ensures
        !blocker.overlaps(from.at_x(x)),
{
}

/// A rectangle that overlaps a blocker neither where it stood nor at a
/// place along the vertical axis that is nearer than the two are high
/// together overlaps it nowhere in between.
pub proof fn lemma_no_jump_y(blocker: Area, from: Area, far: int, y: int)
    requires
        !blocker.overlaps(from),
        !blocker.overlaps(from.at_y(far)),
        between(from.y, y, far),
        distance(from.y, far) < from.h + blocker.h,
    ensures
        !blocker.overlaps(from.at_y(y)),
{
}

impl WorldModel {
    /// A body that is free to move along the horizontal axis ends up
    /// between where it stood and where it was moved to.
    pub proof fn lemma_swept_x_between(self, me: int, n: int, x: int)
        requires
            self.clear_x(me, n, x),
        ensures
            between(self.body_at(me).pos.x as int, self.swept_x(me, n, x), x),
        decreases n,
    {
        if n > 0 {
            assert(self.clear_x(me, n - 1, x));
            self.lemma_swept_x_between(me, n - 1, x);
            if self.blocks(me, n - 1) {
                assert(self.runs_into_x(me, n - 1, x) ==> !self.overlapping(me, n - 1));
                lemma_pushed_x_between(
                    self.body_at(n - 1).area(),
                    self.body_at(me).area(),
                    self.swept_x(me, n - 1, x),
                );
            }
        }
    }

    /// A body that is free to move along the vertical axis ends up between
    /// where it stood and where it was moved to.
    pub proof fn lemma_swept_y_between(self, me: int, n: int, x: int, y: int)
        requires
            self.clear_y(me, n, x, y),
        ensures
            between(self.body_at(me).pos.y as int, self.swept_y(me, n, x, y), y),
        decreases n,
    {
        if n > 0 {
            assert(self.clear_y(me, n - 1, x, y));
            self.lemma_swept_y_between(me, n - 1, x, y);
            if self.blocks(me, n - 1) {
                assert(self.runs_into_y(me, n - 1, x, y) ==> !self.overlapping_at(me, n - 1, x));
                lemma_pushed_y_between(
                    self.body_at(n - 1).area(),
                    self.body_at(me).area(),
                    x,
                    self.swept_y(me, n - 1, x, y),
                );
            }
        }
    }

    /// Every push along the horizontal axis takes a body that is free to
    /// move back towards where it stood: after the turn of the slots below
    /// `n` it stands between there and where it stood after the turn of the
    /// slots below `m`.
    pub proof fn lemma_swept_x_settles(self, me: int, m: int, n: int, x: int)
        requires
            0 <= m <= n,
            self.clear_x(me, n, x),
        ensures
            between(self.body_at(me).pos.x as int, self.swept_x(me, n, x), self.swept_x(me, m, x)),
        decreases n - m,
    {
        self.lemma_swept_x_between(me, n, x);
        if n > m {
            assert(self.clear_x(me, n - 1, x));
            self.lemma_swept_x_settles(me, m, n - 1, x);
            self.lemma_swept_x_between(me, n - 1, x);
            if self.blocks(me, n - 1) {
                assert(self.runs_into_x(me, n - 1, x) ==> !self.overlapping(me, n - 1));
                lemma_pushed_x_between(
                    self.body_at(n - 1).area(),
                    self.body_at(me).area(),
                    self.swept_x(me, n - 1, x),
                );
            }
        }
    }

    /// Every push along the vertical axis takes a body that is free to move
    /// back towards where it stood.
    pub proof fn lemma_swept_y_settles(self, me: int, m: int, n: int, x: int, y: int)
        requires
            0 <= m <= n,
            self.clear_y(me, n, x, y),
        ensures
            between(
                self.body_at(me).pos.y as int,
                self.swept_y(me, n, x, y),
                self.swept_y(me, m, x, y),
            ),
        decreases n - m,
    {
        self.lemma_swept_y_between(me, n, x, y);
        if n > m {
            assert(self.clear_y(me, n - 1, x, y));
            self.lemma_swept_y_settles(me, m, n - 1, x, y);
            self.lemma_swept_y_between(me, n - 1, x, y);
            if self.blocks(me, n - 1) {
                assert(self.runs_into_y(me, n - 1, x, y) ==> !self.overlapping_at(me, n - 1, x));
                lemma_pushed_y_between(
                    self.body_at(n - 1).area(),
                    self.body_at(me).area(),
                    x,
                    self.swept_y(me, n - 1, x, y),
                );
            }
        }
    }

    /// The horizontal pass does not leave a body inside a blocker: a body
    /// that is free to move, did not overlap the blocker in slot `other`
    /// before it set out, and is moved less far than the two are wide
    /// together does not overlap it once the slots below `n` have had
    /// their turn, the blocker's among them.
    pub proof fn lemma_swept_x_apart(self, me: int, other: int, n: int, x: int)
        requires
            0 <= other < n,
            self.clear_x(me, n, x),
            self.blocks(me, other),
            !self.overlapping(me, other),
            distance(self.body_at(me).pos.x as int, x) < self.body_at(me).area().w + self.body_at(
                other,
            ).area().w,
        ensures
            !self.overlapping_at(me, other, self.swept_x(me, n, x)),
    {
        let from = self.body_at(me).area();
        let blocker = self.body_at(other).area();
        let turned = self.swept_x(me, other + 1, x);
        assert(self.clear_x(me, other + 1, x));
        lemma_pushed_x_between(blocker, from, self.swept_x(me, other, x));
        self.lemma_swept_x_between(me, other + 1, x);
        self.lemma_swept_x_settles(me, other + 1, n, x);
        lemma_no_jump_x(blocker, from, turned, self.swept_x(me, n, x));
    }

    /// The vertical pass does not leave a body inside a blocker: a body
    /// that is free to move, did not overlap the blocker in slot `other`
    /// where the horizontal pass left it, and is moved less far than the
    /// two are high together does not overlap it once the slots below `n`
    /// have had their turn, the blocker's among them.
    pub proof fn lemma_swept_y_apart(self, me: int, other: int, n: int, x: int, y: int)
        requires
            0 <= other < n,
            self.clear_y(me, n, x, y),
            self.blocks(me, other),
            !self.overlapping_at(me, other, x),
            distance(self.body_at(me).pos.y as int, y) < self.body_at(me).area().h + self.body_at(
                other,
            ).area().h,
        ensures
            !self.body_at(other).area().overlaps(
                self.body_at(me).area().at_x(x).at_y(self.swept_y(me, n, x, y)),
            ),
    {
        let across = self.body_at(me).area().at_x(x);
        let blocker = self.body_at(other).area();
        let turned = self.swept_y(me, other + 1, x, y);
        assert(self.clear_y(me, other + 1, x, y));
        lemma_pushed_y_between(blocker, self.body_at(me).area(), x, self.swept_y(me, other, x, y));
        self.lemma_swept_y_between(me, other + 1, x, y);
        self.lemma_swept_y_settles(me, other + 1, n, x, y);
        lemma_no_jump_y(blocker, across, turned, self.swept_y(me, n, x, y));
    }

    /// A step does not leave a body inside a blocker after its horizontal
    /// pass: a body that is free to move on that axis, did not overlap the
    /// blocker in slot `other` before the step, and cannot jump it does not
    /// overlap it where the horizontal pass leaves it.
    pub proof fn lemma_moved_x_apart(self, me: int, other: int)
        requires
            self.shift(me).0 != 0 ==> self.clear_x(
                me,
                self.pool.slots.len() as int,
                self.aim(me).0,
            ),
            self.blocks(me, other),
            !self.overlapping(me, other),
            self.cannot_jump(me, other),
        ensures
            !self.overlapping_at(me, other, self.moved_x(me)),
    {
        let from = self.body_at(me).area();
        if self.shift(me).0 != 0 {
            self.lemma_swept_x_apart(me, other, self.pool.slots.len() as int, self.aim(me).0);
        } else {
            assert(from.at_x(from.x) == from);
        }
    }

    /// A step does not leave a body inside a blocker: a body that the step
    /// finds free to move, that did not overlap the blocker in slot `other`
    /// before the step, and that cannot jump it does not overlap it where
    /// the step takes it.
    pub proof fn lemma_moved_apart(self, me: int, other: int)
        requires
            self.clear(me),
            self.blocks(me, other),
            !self.overlapping(me, other),
            self.cannot_jump(me, other),
        ensures
            !self.body_at(other).area().overlaps(
                self.body_at(me).area().at_x(self.moved_x(me)).at_y(self.moved_y(me)),
            ),
    {
        let from = self.body_at(me).area();
        let across = from.at_x(self.moved_x(me));
        self.lemma_moved_x_apart(me, other);
        if self.shift(me).1 != 0 {
            self.lemma_swept_y_apart(
                me,
                other,
                self.pool.slots.len() as int,
                self.moved_x(me),
                self.aim(me).1,
            );
        } else {
            assert(across.at_y(from.y) == across);
        }
    }

    /// A body that a step finds free to move is moved to a place that
    /// coordinates can name, between where it stood and where it aimed.
    pub proof fn lemma_moved_in_range(self, me: int)
        requires
            self.clear(me),
        ensures
            between(self.body_at(me).pos.x as int, self.moved_x(me), self.aim(me).0),
            between(self.body_at(me).pos.y as int, self.moved_y(me), self.aim(me).1),
            self.moved(me).x == self.moved_x(me),
            self.moved(me).y == self.moved_y(me),
    {
        let n = self.pool.slots.len() as int;
        if self.shift(me).0 != 0 {
            self.lemma_swept_x_between(me, n, self.aim(me).0);
        }
        if self.shift(me).1 != 0 {
            self.lemma_swept_y_between(me, n, self.moved_x(me), self.aim(me).1);
        }
    }
}

impl WorldModel {
    /// Bodies that are out of the way do not change where a body ends up on
    /// the horizontal axis, nor whether it is free to move.
    pub proof fn lemma_skip_x(self, me: int, to: Area, n: int, m: int)
        requires
            0 <= n <= m,
            self.clear_x(me, n, to.x),
            forall|other: int|
                n <= other < m && #[trigger] self.blocks(me, other) ==> self.out_of_way(
                    me,
                    other,
                    to,
                ),
        ensures
            self.swept_x(me, m, to.x) == self.swept_x(me, n, to.x),
            self.clear_x(me, m, to.x),
        decreases m - n,
    {
        if m > n {
            self.lemma_skip_x(me, to, n, m - 1);
            let from = self.body_at(me).area();
            let x = self.swept_x(me, m - 1, to.x);
            self.lemma_swept_x_between(me, m - 1, to.x);
            if self.blocks(me, m - 1) {
                assert(self.on_the_way(me, to, from.at_x(x)));
            }
        }
    }

    /// Bodies that are out of the way do not change where a body ends up on
    /// the vertical axis, nor whether it is free to move.
    pub proof fn lemma_skip_y(self, me: int, to: Area, x: int, n: int, m: int)
        requires
            0 <= n <= m,
            between(self.body_at(me).area().x, x, to.x),
            self.clear_y(me, n, x, to.y),
            forall|other: int|
                n <= other < m && #[trigger] self.blocks(me, other) ==> self.out_of_way(
                    me,
                    other,
                    to,
                ),
        ensures
            self.swept_y(me, m, x, to.y) == self.swept_y(me, n, x, to.y),
            self.clear_y(me, m, x, to.y),
        decreases m - n,
    {
        if m > n {
            self.lemma_skip_y(me, to, x, n, m - 1);
            let from = self.body_at(me).area();
            let y = self.swept_y(me, m - 1, x, to.y);
            self.lemma_swept_y_between(me, m - 1, x, to.y);
            if self.blocks(me, m - 1) {
                assert(self.on_the_way(me, to, from.at_x(x).at_y(y)));
            }
        }
    }
}

impl WorldModel {
    /// There are no bodies beyond the last slot: to look further changes
    /// nothing on the horizontal axis.
    pub proof fn lemma_clear_x_beyond(self, me: int, len: int, n: int, x: int)
        requires
            len == self.pool.slots.len(),
            len <= n,
        ensures
            self.swept_x(me, n, x) == self.swept_x(me, len, x),
            self.clear_x(me, n, x) ==> self.clear_x(me, len, x),
        decreases n - len,
    {
        if n > len {
            assert(!self.blocks(me, n - 1));
            self.lemma_clear_x_beyond(me, len, n - 1, x);
        }
    }

    /// There are no bodies beyond the last slot: to look further changes
    /// nothing on the vertical axis.
    pub proof fn lemma_clear_y_beyond(self, me: int, len: int, n: int, x: int, y: int)
        requires
            len == self.pool.slots.len(),
            len <= n,
        ensures
            self.swept_y(me, n, x, y) == self.swept_y(me, len, x, y),
            self.clear_y(me, n, x, y) ==> self.clear_y(me, len, x, y),
        decreases n - len,
    {
        if n > len {
            assert(!self.blocks(me, n - 1));
            self.lemma_clear_y_beyond(me, len, n - 1, x, y);
        }
    }
}

impl WorldModel {
    /// With no body in its way a body ends up on the horizontal axis where
    /// it was moved to.
    pub proof fn lemma_unblocked_x(self, me: int, n: int, x: int)
        requires
            forall|other: int| !self.blocks(me, other),
        ensures
            self.swept_x(me, n, x) == x,
            self.clear_x(me, n, x),
        decreases n,
    {
        if n > 0 {
            self.lemma_unblocked_x(me, n - 1, x);
        }
    }

    /// With no body in its way a body ends up on the vertical axis where it
    /// was moved to.
    pub proof fn lemma_unblocked_y(self, me: int, n: int, x: int, y: int)
        requires
            forall|other: int| !self.blocks(me, other),
        ensures
            self.swept_y(me, n, x, y) == y,
            self.clear_y(me, n, x, y),
        decreases n,
    {
        if n > 0 {
            self.lemma_unblocked_y(me, n - 1, x, y);
        }
    }
}

} // verus!
