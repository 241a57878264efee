//! Rectangles, their quadrants, and the grid of cells that repeated
//! subdivision gives, with the laws of tiling.

use vstd::prelude::*;

verus! {

/// An axis-aligned rectangle on the integer grid.
///
/// The extent is half-open on both axes: the rectangle holds the points
/// `(px, py)` with `x <= px < x + w` and `y <= py < y + h`. A rectangle with
/// `w == 0` or `h == 0` holds no point at all.
pub struct Rect {
    pub x: nat,
    pub y: nat,
    pub w: nat,
    pub h: nat,
}

impl Rect {
    /// The rectangle with the given origin and extent.
    pub open spec fn of(x: u16, y: u16, w: u16, h: u16) -> Rect {
        Rect { x: x as nat, y: y as nat, w: w as nat, h: h as nat }
    }

    /// The rectangle that a tuple `(x, y, w, h)` stands for.
    pub open spec fn of_tuple(t: (u16, u16, u16, u16)) -> Rect {
        Rect::of(t.0, t.1, t.2, t.3)
    }

    /// Whether the point `(px, py)` lies in the rectangle.
    pub open spec fn contains(self, px: int, py: int) -> bool {
        self.x <= px < self.x + self.w && self.y <= py < self.y + self.h
    }

    /// Whether the far corner of the rectangle still has `u16` coordinates.
    pub open spec fn representable(self) -> bool {
        self.x + self.w <= u16::MAX && self.y + self.h <= u16::MAX
    }

    /// The width of the two quadrants that start at the rectangle's left edge.
    /// An odd width leaves its extra unit here.
    pub open spec fn near_w(self) -> nat {
        (self.w - self.w / 2) as nat
    }

    /// The height of the two quadrants that start at the rectangle's top edge.
    /// An odd height leaves its extra unit here.
    pub open spec fn near_h(self) -> nat {
        (self.h - self.h / 2) as nat
    }

    /// Quadrant `i` of the rectangle, for `i` in `0..4`.
    ///
    /// Quadrants 0 and 1 share the rectangle's top edge, quadrants 0 and 2 its
    /// left edge. Both sides are halved; the quadrants nearer the origin take
    /// the extra unit of an odd side.
    pub open spec fn quadrant(self, i: int) -> Rect {
        if i == 0 {
            Rect { x: self.x, y: self.y, w: self.near_w(), h: self.near_h() }
        } else if i == 1 {
            Rect { x: self.x + self.near_w(), y: self.y, w: self.w / 2, h: self.near_h() }
        } else if i == 2 {
            Rect { x: self.x, y: self.y + self.near_h(), w: self.near_w(), h: self.h / 2 }
        } else {
            Rect {
                x: self.x + self.near_w(),
                y: self.y + self.near_h(),
                w: self.w / 2,
                h: self.h / 2,
            }
        }
    }
}

/// The leaf cells of `root` after `depth` rounds of subdivision, in scan
/// order: all cells of quadrant 0 come first, then those of quadrant 1, 2, 3.
pub open spec fn grid(root: Rect, depth: nat) -> Seq<Rect>
    decreases depth,
{
    if depth == 0 {
        seq![root]
    } else {
        let d = (depth - 1) as nat;
        grid(root.quadrant(0), d) + grid(root.quadrant(1), d) + grid(root.quadrant(2), d) + grid(
            root.quadrant(3),
            d,
        )
    }
}

/// Whether some cell of `cells` holds the point `(px, py)`.
pub open spec fn some_cell_contains(cells: Seq<Rect>, px: int, py: int) -> bool {
    exists|k: int| 0 <= k < cells.len() && (#[trigger] cells[k]).contains(px, py)
}

/// The four quadrants cover their parent: a point lies in the parent exactly
/// when it lies in one of the quadrants.
pub proof fn lemma_quadrants_cover(r: Rect, px: int, py: int)
    ensures
        r.contains(px, py) <==> (exists|i: int|
            0 <= i < 4 && (#[trigger] r.quadrant(i)).contains(px, py)),
{
    if r.contains(px, py) {
        let i: int = if px < r.x + r.near_w() {
            if py < r.y + r.near_h() {
                0
            } else {
                2
            }
        } else {
            if py < r.y + r.near_h() {
                1
            } else {
                3
            }
        };
        assert(r.quadrant(i).contains(px, py));
    }
}

/// Sibling quadrants do not overlap: no point lies in two of them.
pub proof fn lemma_quadrants_disjoint(r: Rect, i: int, j: int, px: int, py: int)
    requires
        0 <= i < 4,
        0 <= j < 4,
        i != j,
    ensures
        !(r.quadrant(i).contains(px, py) && r.quadrant(j).contains(px, py)),
{
}

/// A quadrant of a representable rectangle is representable.
pub proof fn lemma_quadrant_representable(r: Rect, i: int)
    requires
        r.representable(),
    ensures
        r.quadrant(i).representable(),
{
}

/// Every cell of a grid lies inside the root.
pub proof fn lemma_grid_inside(root: Rect, depth: nat, k: int, px: int, py: int)
    requires
        0 <= k < grid(root, depth).len(),
        grid(root, depth)[k].contains(px, py),
    ensures
        root.contains(px, py),
    decreases depth,
{
    if depth > 0 {
        let d = (depth - 1) as nat;
        let g0 = grid(root.quadrant(0), d);
        let g1 = grid(root.quadrant(1), d);
        let g2 = grid(root.quadrant(2), d);
        let g3 = grid(root.quadrant(3), d);
        if k < g0.len() {
            lemma_grid_inside(root.quadrant(0), d, k, px, py);
        } else if k < g0.len() + g1.len() {
            lemma_grid_inside(root.quadrant(1), d, k - g0.len(), px, py);
        } else if k < g0.len() + g1.len() + g2.len() {
            lemma_grid_inside(root.quadrant(2), d, k - g0.len() - g1.len(), px, py);
        } else {
            lemma_grid_inside(root.quadrant(3), d, k - g0.len() - g1.len() - g2.len(), px, py);
        }
        lemma_quadrants_cover(root, px, py);
    }
}

/// Tiling, the covering half: the cells of a grid together hold exactly the
/// points of the root, at every depth.
pub proof fn lemma_grid_covers(root: Rect, depth: nat, px: int, py: int)
    ensures
        root.contains(px, py) <==> some_cell_contains(grid(root, depth), px, py),
    decreases depth,
{
    let g = grid(root, depth);
    if some_cell_contains(g, px, py) {
        let k = choose|k: int| 0 <= k < g.len() && (#[trigger] g[k]).contains(px, py);
        lemma_grid_inside(root, depth, k, px, py);
    }
    if root.contains(px, py) {
        if depth == 0 {
            assert(g[0].contains(px, py));
        } else {
            let d = (depth - 1) as nat;
            let g0 = grid(root.quadrant(0), d);
            let g1 = grid(root.quadrant(1), d);
            let g2 = grid(root.quadrant(2), d);
            let g3 = grid(root.quadrant(3), d);
            lemma_quadrants_cover(root, px, py);
            let i = choose|i: int| 0 <= i < 4 && (#[trigger] root.quadrant(i)).contains(px, py);
            lemma_grid_covers(root.quadrant(i), d, px, py);
            let gi = grid(root.quadrant(i), d);
            let k = choose|k: int| 0 <= k < gi.len() && (#[trigger] gi[k]).contains(px, py);
            let o1 = g0.len() as int;
            let o2 = o1 + g1.len();
            let o3 = o2 + g2.len();
            let off: int = if i == 0 {
                0
            } else if i == 1 {
                o1
            } else if i == 2 {
                o2
            } else {
                o3
            };
            assert(g[off + k] == gi[k]);
        }
    }
}

/// Tiling, the disjoint half: two different cells of a grid share no point.
pub proof fn lemma_grid_disjoint(root: Rect, depth: nat, j: int, k: int, px: int, py: int)
    requires
        0 <= j < grid(root, depth).len(),
        0 <= k < grid(root, depth).len(),
        j != k,
    ensures
        !(grid(root, depth)[j].contains(px, py) && grid(root, depth)[k].contains(px, py)),
    decreases depth,
{
    if depth > 0 {
        let d = (depth - 1) as nat;
        let g0 = grid(root.quadrant(0), d);
        let g1 = grid(root.quadrant(1), d);
        let g2 = grid(root.quadrant(2), d);
        let g3 = grid(root.quadrant(3), d);
        let o1 = g0.len() as int;
        let o2 = o1 + g1.len();
        let o3 = o2 + g2.len();
        let qj: int = if j < o1 {
            0
        } else if j < o2 {
            1
        } else if j < o3 {
            2
        } else {
            3
        };
        let qk: int = if k < o1 {
            0
        } else if k < o2 {
            1
        } else if k < o3 {
            2
        } else {
            3
        };
        let oj: int = if qj == 0 {
            0
        } else if qj == 1 {
            o1
        } else if qj == 2 {
            o2
        } else {
            o3
        };
        let ok: int = if qk == 0 {
            0
        } else if qk == 1 {
            o1
        } else if qk == 2 {
            o2
        } else {
            o3
        };
        let g = grid(root, depth);
        assert(g[j] == grid(root.quadrant(qj), d)[j - oj]);
        assert(g[k] == grid(root.quadrant(qk), d)[k - ok]);
        if g[j].contains(px, py) && g[k].contains(px, py) {
            if qj == qk {
                lemma_grid_disjoint(root.quadrant(qj), d, j - oj, k - ok, px, py);
            } else {
                lemma_grid_inside(root.quadrant(qj), d, j - oj, px, py);
                lemma_grid_inside(root.quadrant(qk), d, k - ok, px, py);
                lemma_quadrants_disjoint(root, qj, qk, px, py);
            }
        }
    }
}

/// Containment: a point of the root lies in exactly one cell of the grid.
pub proof fn lemma_grid_unique_cell(root: Rect, depth: nat, px: int, py: int)
    requires
        root.contains(px, py),
    ensures
        exists|k: int|
            0 <= k < grid(root, depth).len() && (#[trigger] grid(root, depth)[k]).contains(px, py)
                && (forall|j: int|
                0 <= j < grid(root, depth).len() && (#[trigger] grid(root, depth)[j]).contains(
                    px,
                    py,
                ) ==> j == k),
{
    let g = grid(root, depth);
    lemma_grid_covers(root, depth, px, py);
    let k = choose|k: int| 0 <= k < g.len() && (#[trigger] g[k]).contains(px, py);
    assert forall|j: int| 0 <= j < g.len() && (#[trigger] g[j]).contains(px, py) implies j
        == k by {
        if j != k {
            lemma_grid_disjoint(root, depth, j, k, px, py);
        }
    }
}

/// Splits a rectangle into its four quadrants, in the order of
/// [`Rect::quadrant`].
pub fn divide_into_4(rect_x: u16, rect_y: u16, rect_w: u16, rect_h: u16) -> (quads: [(
    u16,
    u16,
    u16,
    u16,
); 4])
    requires
        Rect::of(rect_x, rect_y, rect_w, rect_h).representable(),
    ensures
        forall|i: int|
            0 <= i < 4 ==> Rect::of_tuple(#[trigger] quads[i]) == Rect::of(
                rect_x,
                rect_y,
                rect_w,
                rect_h,
            ).quadrant(i),
{
    let half_w: u16 = rect_w / 2;
    let half_h: u16 = rect_h / 2;
    let near_w: u16 = rect_w - half_w;
    let near_h: u16 = rect_h - half_h;
    [
        (rect_x, rect_y, near_w, near_h),
        (rect_x + near_w, rect_y, half_w, near_h),
        (rect_x, rect_y + near_h, near_w, half_h),
        (rect_x + near_w, rect_y + near_h, half_w, half_h),
    ]
}

} // verus!
