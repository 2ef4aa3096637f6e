//! Connectable rectangles: axis-aligned boxes that the grid builder decorates
//! with up to four connector node indices, one per side.

use vstd::prelude::*;

verus! {

/// Largest magnitude allowed for a rectangle's position, and largest value
/// allowed for its width and height.  Keeping rectangle geometry within this
/// bound keeps every derived node coordinate within `grid::MAX_NODE_COORD` and
/// keeps all distance arithmetic free of overflow.
pub const MAX_RECT_COORD: i64 = 100_000_000;

/// A rectangle that can be connected to the routing grid.
///
/// `x`/`y` is the top-left corner, `width`/`height` the extent.  The four
/// `*_con` fields are indices into a `Grid`'s node list, set by the grid
/// builder when a connector node was inserted for that side and `None` when no
/// lattice edge was found there.  They are only meaningful for the grid that
/// wrote them: any rebuild invalidates them.
pub struct ConRect {
    pub x: i64,
    pub y: i64,
    pub width: i64,
    pub height: i64,
    pub left_con: Option<usize>,
    pub right_con: Option<usize>,
    pub top_con: Option<usize>,
    pub bottom_con: Option<usize>,
}

/// The sequence a single optional connector contributes to `connectors`.
pub open spec fn opt_con_seq(o: Option<usize>) -> Seq<usize> {
    match o {
        Option::Some(v) => seq![v],
        Option::None => seq![],
    }
}

impl ConRect {
    /// The rectangle's geometry lies within the coordinate bound and has
    /// non-negative extent.
    pub open spec fn geom_ok(self) -> bool {
        &&& -MAX_RECT_COORD <= self.x <= MAX_RECT_COORD
        &&& -MAX_RECT_COORD <= self.y <= MAX_RECT_COORD
        &&& 0 <= self.width <= MAX_RECT_COORD
        &&& 0 <= self.height <= MAX_RECT_COORD
    }

    /// Horizontal center of the rectangle (rounded toward the left edge).
    pub open spec fn center_x(self) -> int {
        self.x + self.width / 2
    }

    /// Vertical center of the rectangle (rounded toward the top edge).
    pub open spec fn center_y(self) -> int {
        self.y + self.height / 2
    }

    /// True when the two rectangles occupy the same geometry, whatever their
    /// connector fields hold.
    pub open spec fn same_geom(self, other: ConRect) -> bool {
        self.x == other.x && self.y == other.y && self.width == other.width
            && self.height == other.height
    }

    /// The connectors that are set, in left, right, top, bottom order.
    pub open spec fn connectors_seq(self) -> Seq<usize> {
        opt_con_seq(self.left_con) + opt_con_seq(self.right_con) + opt_con_seq(self.top_con)
            + opt_con_seq(self.bottom_con)
    }

    /// A fresh rectangle with the given geometry and no connectors.
    pub fn new(x: i64, y: i64, width: i64, height: i64) -> (r: ConRect)
        ensures
            r.x == x,
            r.y == y,
            r.width == width,
            r.height == height,
            r.left_con is None,
            r.right_con is None,
            r.top_con is None,
            r.bottom_con is None,
    {
        ConRect {
            x,
            y,
            width,
            height,
            left_con: None,
            right_con: None,
            top_con: None,
            bottom_con: None,
        }
    }

    /// All connectors that are currently set, in left, right, top, bottom
    /// order.
    pub fn connectors(&self) -> (r: Vec<usize>)
        ensures
            r@ == self.connectors_seq(),
    {
        let mut ret: Vec<usize> = Vec::new();
        if let Some(v) = self.left_con {
            ret.push(v);
        }
        if let Some(v) = self.right_con {
            ret.push(v);
        }
        if let Some(v) = self.top_con {
            ret.push(v);
        }
        if let Some(v) = self.bottom_con {
            ret.push(v);
        }
        assert(ret@ =~= self.connectors_seq());
        ret
    }
}

} // verus!
