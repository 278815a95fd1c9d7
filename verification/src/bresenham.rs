//! The Bresenham walk along a line segment, as a mathematical object: the
//! sequence of grid points that the occlusion tests visit.

use crate::arctan::abs_int;
use vstd::prelude::*;

verus! {

/// A line segment from `(x0, y0)` to `(x1, y1)`.
pub struct Segment {
    pub x0: int,
    pub y0: int,
    pub x1: int,
    pub y1: int,
}

/// A point of a walk, with the error term that decides the next step.
pub struct WalkState {
    pub x: int,
    pub y: int,
    pub err: int,
}

impl Segment {
    /// The extent of the segment along x.
    pub open spec fn dx(self) -> int {
        abs_int(self.x1 - self.x0)
    }

    /// The extent of the segment along y.
    pub open spec fn dy(self) -> int {
        abs_int(self.y1 - self.y0)
    }

    /// The direction of the walk along x.
    pub open spec fn sx(self) -> int {
        if self.x0 < self.x1 {
            1
        } else {
            -1
        }
    }

    /// The direction of the walk along y.
    pub open spec fn sy(self) -> int {
        if self.y0 < self.y1 {
            1
        } else {
            -1
        }
    }

    /// The state that follows `s`: the walk moves along x when twice the
    /// error exceeds `-dy`, and along y when twice the error is below `dx`.
    pub open spec fn next(self, s: WalkState) -> WalkState {
        let moves_x = 2 * s.err > -self.dy();
        let moves_y = 2 * s.err < self.dx();
        WalkState {
            x: if moves_x {
                s.x + self.sx()
            } else {
                s.x
            },
            y: if moves_y {
                s.y + self.sy()
            } else {
                s.y
            },
            err: s.err - (if moves_x {
                self.dy()
            } else {
                0
            }) + (if moves_y {
                self.dx()
            } else {
                0
            }),
        }
    }

    /// The state of the walk after `k` steps.
    pub open spec fn state(self, k: nat) -> WalkState
        decreases k,
    {
        if k == 0 {
            WalkState { x: self.x0, y: self.y0, err: self.dx() - self.dy() }
        } else {
            self.next(self.state((k - 1) as nat))
        }
    }

    /// Whether the walk stands on the end of the segment after `k` steps.
    pub open spec fn arrived(self, k: nat) -> bool {
        self.state(k).x == self.x1 && self.state(k).y == self.y1
    }

    /// Whether the walk takes its `k`-th step at all: it stops on the end of
    /// the segment.
    pub open spec fn visits(self, k: nat) -> bool {
        forall|j: nat| j < k ==> !#[trigger] self.arrived(j)
    }

    /// The number of steps from one end of the segment to the other.
    pub open spec fn steps(self) -> nat {
        (if self.dx() >= self.dy() {
            self.dx()
        } else {
            self.dy()
        }) as nat
    }
}

/// How far the walk has moved along x after `k` steps.
pub open spec fn moved_x(seg: Segment, k: nat) -> int {
    (seg.state(k).x - seg.x0) * seg.sx()
}

/// How far the walk has moved along y after `k` steps.
pub open spec fn moved_y(seg: Segment, k: nat) -> int {
    (seg.state(k).y - seg.y0) * seg.sy()
}

/// On its way the walk advances along the longer axis with every step, and
/// along the other axis in proportion; it never passes the end of the
/// segment on either axis.
pub proof fn lemma_walk_progress(seg: Segment, k: nat)
    requires
        k <= seg.steps(),
    ensures
        0 <= moved_x(seg, k) <= seg.dx(),
        0 <= moved_y(seg, k) <= seg.dy(),
        seg.dx() >= seg.dy() ==> moved_x(seg, k) == k,
        seg.dx() < seg.dy() ==> moved_y(seg, k) == k,
        seg.state(k).err == seg.dx() - seg.dy() - seg.dy() * moved_x(seg, k) + seg.dx() * moved_y(
            seg,
            k,
        ),
        seg.dx() >= seg.dy() && seg.dx() > 0 ==> -seg.dy() < 2 * seg.state(k).err < 3 * seg.dx() - 2
            * seg.dy() || (seg.dx() == seg.dy() && seg.state(k).err == 0),
        seg.dx() < seg.dy() ==> 2 * seg.dx() - 3 * seg.dy() < 2 * seg.state(k).err < seg.dx(),
    decreases k,
{
    let a = seg.dx();
    let b = seg.dy();
    if k == 0 {
        assert(moved_x(seg, 0) == 0);
        assert(moved_y(seg, 0) == 0);
        assert(b * 0 == 0 && a * 0 == 0);
    } else {
        let j = (k - 1) as nat;
        lemma_walk_progress(seg, j);
        let s = seg.state(j);
        let t = seg.state(k);
        let ix = moved_x(seg, j);
        let iy = moved_y(seg, j);
        let sx = seg.sx();
        let sy = seg.sy();
        assert(sx * sx == 1 && sy * sy == 1);
        let moves_x = 2 * s.err > -b;
        let moves_y = 2 * s.err < a;
        assert(moved_x(seg, k) == ix + if moves_x { 1int } else { 0 }) by (nonlinear_arith)
            requires
                moved_x(seg, k) == (t.x - seg.x0) * sx,
                ix == (s.x - seg.x0) * sx,
                t.x == if moves_x { s.x + sx } else { s.x },
                sx * sx == 1,
        ;
        assert(moved_y(seg, k) == iy + if moves_y { 1int } else { 0 }) by (nonlinear_arith)
            requires
                moved_y(seg, k) == (t.y - seg.y0) * sy,
                iy == (s.y - seg.y0) * sy,
                t.y == if moves_y { s.y + sy } else { s.y },
                sy * sy == 1,
        ;
        assert(b * (ix + 1) == b * ix + b) by (nonlinear_arith);
        assert(a * (iy + 1) == a * iy + a) by (nonlinear_arith);
        if a >= b {
            assert(ix == j);
            assert(a > 0);
            assert(moves_x);
            assert(moved_y(seg, k) <= b) by (nonlinear_arith)
                requires
                    moved_y(seg, k) == iy + if moves_y { 1int } else { 0 },
                    moves_y == (2 * s.err < a),
                    s.err == a - b - b * ix + a * iy,
                    0 <= ix < a,
                    0 <= iy <= b,
                    a >= b,
                    b >= 0,
            ;
        } else {
            assert(iy == j);
            assert(moves_y);
            assert(moved_x(seg, k) <= a) by (nonlinear_arith)
                requires
                    moved_x(seg, k) == ix + if moves_x { 1int } else { 0 },
                    moves_x == (2 * s.err > -b),
                    s.err == a - b - b * ix + a * iy,
                    0 <= iy < b,
                    0 <= ix <= a,
                    a < b,
                    a >= 0,
            ;
        }
    }
}

/// The walk reaches the end of the segment after `steps()` steps and not
/// before, and every point on the way lies between the two ends.
pub proof fn lemma_walk_arrives(seg: Segment, k: nat)
    requires
        k <= seg.steps(),
    ensures
        seg.arrived(k) <==> k == seg.steps(),
        seg.visits(k),
        seg.x0 <= seg.state(k).x <= seg.x1 || seg.x1 <= seg.state(k).x <= seg.x0,
        seg.y0 <= seg.state(k).y <= seg.y1 || seg.y1 <= seg.state(k).y <= seg.y0,
{
    lemma_walk_progress(seg, k);
    let a = seg.dx();
    let b = seg.dy();
    let s = seg.state(k);
    let ix = moved_x(seg, k);
    let iy = moved_y(seg, k);
    let sx = seg.sx();
    let sy = seg.sy();
    assert(s.x - seg.x0 == ix * sx) by (nonlinear_arith)
        requires
            ix == (s.x - seg.x0) * sx,
            sx == 1 || sx == -1,
    ;
    assert(s.y - seg.y0 == iy * sy) by (nonlinear_arith)
        requires
            iy == (s.y - seg.y0) * sy,
            sy == 1 || sy == -1,
    ;
    assert(ix * sx == if sx == 1 { ix } else { -ix }) by (nonlinear_arith)
        requires
            sx == 1 || sx == -1,
    ;
    assert(iy * sy == if sy == 1 { iy } else { -iy }) by (nonlinear_arith)
        requires
            sy == 1 || sy == -1,
    ;
    if k == seg.steps() {
        if a >= b {
            if a > 0 {
                assert(iy == b) by (nonlinear_arith)
                    requires
                        ix == a,
                        0 <= iy <= b,
                        a >= b,
                        a > 0,
                        s.err == a - b - b * ix + a * iy,
                        -b < 2 * s.err || (a == b && s.err == 0),
                ;
            }
        } else {
            assert(ix == a) by (nonlinear_arith)
                requires
                    iy == b,
                    0 <= ix <= a,
                    a < b,
                    s.err == a - b - b * ix + a * iy,
                    2 * s.err < a,
            ;
        }
    }
    assert forall|j: nat| j < k implies !#[trigger] seg.arrived(j) by {
        lemma_walk_progress(seg, j);
        let jx = moved_x(seg, j);
        let jy = moved_y(seg, j);
        if seg.arrived(j) {
            assert(jx == a) by (nonlinear_arith)
                requires
                    jx == (seg.x1 - seg.x0) * sx,
                    a == abs_int(seg.x1 - seg.x0),
                    sx == if seg.x0 < seg.x1 { 1int } else { -1 },
            ;
            assert(jy == b) by (nonlinear_arith)
                requires
                    jy == (seg.y1 - seg.y0) * sy,
                    b == abs_int(seg.y1 - seg.y0),
                    sy == if seg.y0 < seg.y1 { 1int } else { -1 },
            ;
        }
    }
}

} // verus!
