//! The grid on which wires are routed.

use vstd::prelude::*;

verus! {

/// The cost of entering a cell of the grid.
pub type Weight = usize;

/// The weight of a cell that a component occupies.
pub const OCCUPIED_WEIGHT: Weight = 999999;

/// A grid of cells, each with a weight. Row `y` holds the cells with that
/// ordinate; every row has `width` cells.
pub struct Screen {
    width: usize,
    height: usize,
    weights: Vec<Vec<Weight>>,
}

/// A grid as plain values.
pub struct ScreenView {
    pub width: usize,
    pub height: usize,
    pub weights: Seq<Seq<Weight>>,
}

impl ScreenView {
    /// There are `height` rows of `width` cells each.
    pub open spec fn wf(self) -> bool {
        &&& self.weights.len() == self.height
        &&& forall|y: int| 0 <= y < self.height ==> (#[trigger] self.weights[y]).len() == self.width
    }

    /// A grid of the given size with every weight zero.
    pub open spec fn blank(width: usize, height: usize) -> ScreenView {
        ScreenView {
            width,
            height,
            weights: Seq::new(height as nat, |y: int| Seq::new(width as nat, |x: int| 0usize)),
        }
    }

    /// Whether the point lies on the grid.
    pub open spec fn holds(self, x: int, y: int) -> bool {
        0 <= x < self.width && 0 <= y < self.height
    }
}

impl View for Screen {
    type V = ScreenView;

    closed spec fn view(&self) -> ScreenView {
        ScreenView {
            width: self.width,
            height: self.height,
            weights: self.weights@.map_values(|r: Vec<Weight>| r@),
        }
    }
}

impl Screen {
    pub open spec fn wf(&self) -> bool {
        self@.wf()
    }

    /// A grid of the given size with every weight zero.
    pub fn new(width: usize, height: usize) -> (s: Screen)
        ensures
            s@ == ScreenView::blank(width, height),
            s.wf(),
    {
        let mut weights: Vec<Vec<Weight>> = Vec::new();
        let mut y: usize = 0;
        while y < height
            invariant
                y <= height,
                weights@.len() == y,
                forall|k: int|
                    0 <= k < y ==> (#[trigger] weights@[k])@ == Seq::new(
                        width as nat,
                        |x: int| 0usize,
                    ),
            decreases height - y,
        {
            let mut row: Vec<Weight> = Vec::new();
            let mut x: usize = 0;
            while x < width
                invariant
                    x <= width,
                    row@ =~= Seq::new(x as nat, |k: int| 0usize),
                decreases width - x,
            {
                row.push(0);
                x = x + 1;
            }
            weights.push(row);
            y = y + 1;
        }
        let s = Screen { weights, width, height };
        assert(s@.weights =~= ScreenView::blank(width, height).weights);
        s
    }

    /// The weight of the cell at `(x, y)`, if the point lies on the grid.
    pub fn at(&self, x: usize, y: usize) -> (r: Option<&Weight>)
        requires
            self.wf(),
        ensures
            match r {
                Some(w) => self@.holds(x as int, y as int) && *w == self@.weights[y as int][x as int],
                None => !self@.holds(x as int, y as int),
            },
    {
        if x < self.width && y < self.height {
            assert(self@.weights[y as int].len() == self.width);
            Some(&self.weights[y][x])
        } else {
            None
        }
    }

    pub fn logical_width(&self) -> (w: usize)
        ensures
            w == self@.width,
    {
        self.width
    }

    pub fn logical_height(&self) -> (h: usize)
        ensures
            h == self@.height,
    {
        self.height
    }

    /// Gives the cell at `(x, y)` the weight `w`; tells whether the point
    /// lies on the grid. A point off the grid changes nothing.
    pub fn set_weight(&mut self, x: usize, y: usize, w: Weight) -> (done: bool)
        requires
            old(self).wf(),
        ensures
            final(self).wf(),
            done == old(self)@.holds(x as int, y as int),
            final(self)@ == if done {
                ScreenView {
                    weights: old(self)@.weights.update(
                        y as int,
                        old(self)@.weights[y as int].update(x as int, w),
                    ),
                    ..old(self)@
                }
            } else {
                old(self)@
            },
    {
        if x < self.width && y < self.height {
            assert(self@.weights[y as int].len() == self.width);
            self.weights[y][x] = w;
            assert(self@.weights =~= old(self)@.weights.update(
                y as int,
                old(self)@.weights[y as int].update(x as int, w),
            ));
            true
        } else {
            false
        }
    }

    /// Gives the grid the size `neww` by `newh`: the cells that both sizes
    /// hold keep their weights, and the new cells have weight zero.
    pub fn resize(&mut self, neww: usize, newh: usize)
        requires
            old(self).wf(),
        ensures
            final(self).wf(),
            final(self)@.width == neww,
            final(self)@.height == newh,
            forall|x: int, y: int|
                0 <= x < neww && 0 <= y < newh ==> #[trigger] final(self)@.weights[y][x] == if old(self)@.holds(x, y) {
                    old(self)@.weights[y][x]
                } else {
                    0usize
                },
    {
        let mut weights: Vec<Vec<Weight>> = Vec::new();
        let mut y: usize = 0;
        while y < newh
            invariant
                y <= newh,
                self.wf(),
                *self == *old(self),
                weights@.len() == y,
                forall|k: int| 0 <= k < y ==> (#[trigger] weights@[k])@.len() == neww,
                forall|x: int, k: int|
                    0 <= x < neww && 0 <= k < y ==> #[trigger] weights@[k]@[x] == if self@.holds(
                        x,
                        k,
                    ) {
                        self@.weights[k][x]
                    } else {
                        0usize
                    },
            decreases newh - y,
        {
            let mut row: Vec<Weight> = Vec::new();
            let mut x: usize = 0;
            while x < neww
                invariant
                    x <= neww,
                    y < newh,
                    self.wf(),
                    row@.len() == x,
                    forall|k: int|
                        0 <= k < x ==> #[trigger] row@[k] == if self@.holds(k, y as int) {
                            self@.weights[y as int][k]
                        } else {
                            0usize
                        },
                decreases neww - x,
            {
                let w = if x < self.width && y < self.height {
                    assert(self@.weights[y as int].len() == self.width);
                    self.weights[y][x]
                } else {
                    0
                };
                row.push(w);
                x = x + 1;
            }
            weights.push(row);
            y = y + 1;
        }
        self.weights = weights;
        self.width = neww;
        self.height = newh;
    }
}

/// Gives every cell of the grid the weight zero.
pub fn clear_screen(s: &mut Screen)
    requires
        old(s).wf(),
    ensures
        final(s)@ == ScreenView::blank(old(s)@.width, old(s)@.height),
        final(s).wf(),
{
    let blank = Screen::new(s.logical_width(), s.logical_height());
    *s = blank;
}

/// The cell at `(x, y)` lies in the block from `(x0, y0)` up to, but not
/// with, `(x1, y1)`.
pub open spec fn in_block(x: int, y: int, x0: i32, y0: i32, x1: i32, y1: i32) -> bool {
    x0 <= x < x1 && y0 <= y < y1
}

/// Marks the cells of the block from `(x0, y0)` up to, but not with,
/// `(x1, y1)` as occupied; the part of the block that lies off the grid is
/// left out.
pub fn mark_obstacle(s: &mut Screen, x0: i32, y0: i32, x1: i32, y1: i32)
    requires
        old(s).wf(),
    ensures
        final(s).wf(),
        final(s)@.width == old(s)@.width,
        final(s)@.height == old(s)@.height,
        forall|x: int, y: int|
            old(s)@.holds(x, y) ==> #[trigger] final(s)@.weights[y][x] == if in_block(
                x,
                y,
                x0,
                y0,
                x1,
                y1,
            ) {
                OCCUPIED_WEIGHT
            } else {
                old(s)@.weights[y][x]
            },
{
    let width = s.logical_width();
    let height = s.logical_height();
    let mut y: usize = 0;
    while y < height
        invariant
            y <= height,
            s.wf(),
            s@.width == old(s)@.width,
            s@.height == old(s)@.height,
            width == s@.width,
            height == s@.height,
            forall|x: int, k: int|
                old(s)@.holds(x, k) ==> #[trigger] s@.weights[k][x] == if k < y && in_block(
                    x,
                    k,
                    x0,
                    y0,
                    x1,
                    y1,
                ) {
                    OCCUPIED_WEIGHT
                } else {
                    old(s)@.weights[k][x]
                },
        decreases height - y,
    {
        let mut x: usize = 0;
        while x < width
            invariant
                x <= width,
                y < height,
                s.wf(),
                s@.width == old(s)@.width,
                s@.height == old(s)@.height,
                width == s@.width,
                height == s@.height,
                forall|c: int, k: int|
                    old(s)@.holds(c, k) ==> #[trigger] s@.weights[k][c] == if (k < y || (k == y
                        && c < x)) && in_block(c, k, x0, y0, x1, y1) {
                        OCCUPIED_WEIGHT
                    } else {
                        old(s)@.weights[k][c]
                    },
            decreases width - x,
        {
            let inside = x0 as i128 <= x as i128 && (x as i128) < x1 as i128 && y0 as i128
                <= y as i128 && (y as i128) < y1 as i128;
            if inside {
                let ghost before = s@;
                s.set_weight(x, y, OCCUPIED_WEIGHT);
                assert forall|c: int, k: int| old(s)@.holds(c, k) implies #[trigger] s@.weights[k][c]
                    == if (k < y || (k == y && c < x + 1)) && in_block(c, k, x0, y0, x1, y1) {
                    OCCUPIED_WEIGHT
                } else {
                    old(s)@.weights[k][c]
                } by {
                    assert(before.weights[k][c] == if (k < y || (k == y && c < x)) && in_block(
                        c,
                        k,
                        x0,
                        y0,
                        x1,
                        y1,
                    ) {
                        OCCUPIED_WEIGHT
                    } else {
                        old(s)@.weights[k][c]
                    });
                }
            }
            x = x + 1;
        }
        y = y + 1;
    }
}

} // verus!
