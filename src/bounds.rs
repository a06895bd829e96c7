use vstd::prelude::*;

verus! {

/// An axis-aligned rectangle: `x`, `y` of its corner, and its extent.
///
/// Coordinates are whole world units (blocks or chunks). A node's region is
/// halved with integer division: the left and top halves get `width / 2` and
/// `height / 2`, the right and bottom halves the rest, so the four quadrants
/// cover their parent exactly.
#[derive(Clone, Copy, Debug, PartialEq, Eq, Structural)]
pub struct Bounds {
    pub x: i64,
    pub y: i64,
    pub width: i64,
    pub height: i64,
}

/// One of the four equal parts of a region.
#[derive(Clone, Copy, Debug, PartialEq, Eq, Structural)]
pub enum Quadrant {
    TopLeft,
    TopRight,
    BottomRight,
    BottomLeft,
}

/// Elements of a `QuadTree` report the region they occupy.
pub trait Bounded {
    /// The region of the element, as a value.
    spec fn spec_bounds(&self) -> Bounds;

    /// Returns the region of the element.
    fn bounds(&self) -> (r: Bounds)
        ensures
            r == self.spec_bounds(),
    ;
}

impl Bounded for Bounds {
    open spec fn spec_bounds(&self) -> Bounds {
        *self
    }

    fn bounds(&self) -> (r: Bounds) {
        *self
    }
}

impl Bounds {
    /// The right edge, `x + width`.
    pub open spec fn right(self) -> int {
        self.x + self.width
    }

    /// The bottom edge, `y + height`.
    pub open spec fn bottom(self) -> int {
        self.y + self.height
    }

    /// Non-negative extent, and far edges that fit in `i64`.
    pub open spec fn wf(self) -> bool {
        &&& self.width >= 0
        &&& self.height >= 0
        &&& self.right() <= i64::MAX
        &&& self.bottom() <= i64::MAX
    }

    /// The vertical line between the left and the right halves.
    pub open spec fn mid_x(self) -> int {
        self.x + self.width / 2
    }

    /// The horizontal line between the top and the bottom halves.
    pub open spec fn mid_y(self) -> int {
        self.y + self.height / 2
    }

    pub open spec fn fits_left(self, r: Bounds) -> bool {
        r.x >= self.x && r.right() < self.mid_x()
    }

    pub open spec fn fits_right(self, r: Bounds) -> bool {
        r.x >= self.mid_x() && r.right() < self.right()
    }

    pub open spec fn fits_top(self, r: Bounds) -> bool {
        r.y >= self.y && r.bottom() < self.mid_y()
    }

    pub open spec fn fits_bottom(self, r: Bounds) -> bool {
        r.y >= self.mid_y() && r.bottom() < self.bottom()
    }

    /// The one quadrant of `self` that holds `r` strictly, if there is one.
    /// A far edge must lie strictly before the dividing line or the far
    /// edge of `self`.
    pub open spec fn quadrant_of(self, r: Bounds) -> Option<Quadrant> {
        if self.fits_top(r) && self.fits_left(r) {
            Some(Quadrant::TopLeft)
        } else if self.fits_top(r) && self.fits_right(r) {
            Some(Quadrant::TopRight)
        } else if self.fits_bottom(r) && self.fits_right(r) {
            Some(Quadrant::BottomRight)
        } else if self.fits_bottom(r) && self.fits_left(r) {
            Some(Quadrant::BottomLeft)
        } else {
            None
        }
    }

    /// The region of quadrant `q` of `self`.
    pub open spec fn spec_quadrant(self, q: Quadrant) -> Bounds {
        let hw = self.width / 2;
        let hh = self.height / 2;
        match q {
            Quadrant::TopLeft => Bounds { x: self.x, y: self.y, width: hw as i64, height: hh as i64 },
            Quadrant::TopRight => Bounds {
                x: (self.x + hw) as i64,
                y: self.y,
                width: (self.width - hw) as i64,
                height: hh as i64,
            },
            Quadrant::BottomRight => Bounds {
                x: (self.x + hw) as i64,
                y: (self.y + hh) as i64,
                width: (self.width - hw) as i64,
                height: (self.height - hh) as i64,
            },
            Quadrant::BottomLeft => Bounds {
                x: self.x,
                y: (self.y + hh) as i64,
                width: hw as i64,
                height: (self.height - hh) as i64,
            },
        }
    }

    /// `r` starts inside `self` and ends strictly before its far edges.
    /// The far edges are `x + width` and `y + height`, so the test holds
    /// for regions that do not start at the origin too.
    pub open spec fn spec_contains(self, r: Bounds) -> bool {
        &&& r.x >= self.x
        &&& r.right() < self.right()
        &&& r.y >= self.y
        &&& r.bottom() < self.bottom()
    }

    /// Returns the quadrant of `self` that holds `r` strictly, if any.
    pub fn quadrant(&self, r: &Bounds) -> (q: Option<Quadrant>)
        requires
            self.wf(),
        ensures
            q == self.quadrant_of(*r),
    {
        let mid_x = self.x as i128 + (self.width / 2) as i128;
        let mid_y = self.y as i128 + (self.height / 2) as i128;
        let r_right = r.x as i128 + r.width as i128;
        let r_bottom = r.y as i128 + r.height as i128;
        let fits_left = r.x as i128 >= self.x as i128 && r_right < mid_x;
        let fits_right = r.x as i128 >= mid_x && r_right < self.x as i128 + self.width as i128;
        let fits_top = r.y as i128 >= self.y as i128 && r_bottom < mid_y;
        let fits_bottom = r.y as i128 >= mid_y && r_bottom < self.y as i128 + self.height as i128;
        if fits_top && fits_left {
            Some(Quadrant::TopLeft)
        } else if fits_top && fits_right {
            Some(Quadrant::TopRight)
        } else if fits_bottom && fits_right {
            Some(Quadrant::BottomRight)
        } else if fits_bottom && fits_left {
            Some(Quadrant::BottomLeft)
        } else {
            None
        }
    }

    /// Returns the region of quadrant `q` of `self`.
    pub fn quadrant_bounds(&self, q: Quadrant) -> (r: Bounds)
        requires
            self.wf(),
        ensures
            r == self.spec_quadrant(q),
            r.wf(),
    {
        let hw = self.width / 2;
        let hh = self.height / 2;
        match q {
            Quadrant::TopLeft => Bounds { x: self.x, y: self.y, width: hw, height: hh },
            Quadrant::TopRight => Bounds { x: self.x + hw, y: self.y, width: self.width - hw, height: hh },
            Quadrant::BottomRight => Bounds {
                x: self.x + hw,
                y: self.y + hh,
                width: self.width - hw,
                height: self.height - hh,
            },
            Quadrant::BottomLeft => Bounds {
                x: self.x,
                y: self.y + hh,
                width: hw,
                height: self.height - hh,
            },
        }
    }

    /// Whether `r` starts inside `self` and ends strictly before its far edges.
    pub fn contains(&self, r: &Bounds) -> (b: bool)
        ensures
            b == self.spec_contains(*r),
    {
        r.x as i128 >= self.x as i128
            && (r.x as i128 + r.width as i128) < self.x as i128 + self.width as i128
            && r.y as i128 >= self.y as i128
            && (r.y as i128 + r.height as i128) < self.y as i128 + self.height as i128
    }
}

} // verus!
