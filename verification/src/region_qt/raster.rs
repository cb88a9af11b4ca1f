//! The raster/overlay projector: paint every leaf's color back into a pixel
//! grid, and collect the two split-line segments of every interior node for
//! overlay rendering.

use vstd::prelude::*;

use crate::region_qt::pixels::PixelSource;
use crate::region_qt::primitives::{
    lemma_quadrant_geometry, lemma_quadrants_partition, Point,
};
use crate::region_qt::{RegionError, RegionNodeQt, RegionQt, Rgba};

verus! {

/// The split segments of the subtree, in pre-order: every interior node
/// contributes the vertical line `x = center.x` over its rows, then the
/// horizontal line `y = center.y` over its columns; leaves contribute
/// nothing.
pub open spec fn spec_lines(n: RegionNodeQt) -> Seq<(Point, Point)>
    decreases n,
{
    match n {
        RegionNodeQt::Leaf { .. } => Seq::empty(),
        RegionNodeQt::Interior { bounding, c0, c1, c2, c3 } => {
            let c = bounding.spec_center();
            seq![
                (Point { x: c.x, y: bounding.min.y }, Point { x: c.x, y: bounding.max.y }),
                (Point { x: bounding.min.x, y: c.y }, Point { x: bounding.max.x, y: c.y }),
            ] + spec_lines(*c0) + spec_lines(*c1) + spec_lines(*c2) + spec_lines(*c3)
        },
    }
}

impl RegionNodeQt {
    /// Append the split segments of this subtree in pre-order.
    pub fn lines(&self, lines: &mut Vec<(Point, Point)>)
        requires
            self.wf(),
        ensures
            final(lines)@ == old(lines)@ + spec_lines(*self),
        decreases *self,
    {
        match self {
            RegionNodeQt::Leaf { .. } => {
                proof {
                    assert(lines@ =~= old(lines)@ + spec_lines(*self));
                }
            },
            RegionNodeQt::Interior { bounding, c0, c1, c2, c3 } => {
                let c = bounding.center();
                lines.push((Point { x: c.x, y: bounding.min.y }, Point { x: c.x, y: bounding.max.y }));
                lines.push((Point { x: bounding.min.x, y: c.y }, Point { x: bounding.max.x, y: c.y }));
                c0.lines(lines);
                c1.lines(lines);
                c2.lines(lines);
                c3.lines(lines);
                proof {
                    assert(lines@ =~= old(lines)@ + spec_lines(*self));
                }
            },
        }
    }
}

/// Paint the leaves of the subtree into `buf`: pixels inside the node's box
/// take the tree's color for them; everything else keeps its old color.
fn paint_node(n: &RegionNodeQt, buf: &mut PixelSource)
    requires
        n.wf(),
        old(buf).wf(),
        n.bounding().max.x <= old(buf).spec_width(),
        n.bounding().max.y <= old(buf).spec_height(),
    ensures
        final(buf).wf(),
        final(buf).spec_width() == old(buf).spec_width(),
        final(buf).spec_height() == old(buf).spec_height(),
        forall|x: int, y: int| old(buf).in_range(x, y) ==>
            #[trigger] final(buf).color_at(x, y) == if n.bounding().contains_pixel(x, y) {
                n.color_at(x, y)
            } else {
                old(buf).color_at(x, y)
            },
    decreases *n,
{
    match n {
        RegionNodeQt::Leaf { bounding, color } => {
            let mut x = bounding.min.x;
            while x < bounding.max.x
                invariant
                    buf.wf(),
                    buf.spec_width() == old(buf).spec_width(),
                    buf.spec_height() == old(buf).spec_height(),
                    bounding.valid(),
                    bounding.max.x <= buf.spec_width(),
                    bounding.max.y <= buf.spec_height(),
                    bounding.min.x <= x <= bounding.max.x,
                    forall|i: int, j: int| old(buf).in_range(i, j) ==>
                        #[trigger] buf.color_at(i, j) == if bounding.contains_pixel(i, j)
                            && i < x {
                            *color
                        } else {
                            old(buf).color_at(i, j)
                        },
                decreases bounding.max.x - x,
            {
                let mut y = bounding.min.y;
                while y < bounding.max.y
                    invariant
                        buf.wf(),
                        buf.spec_width() == old(buf).spec_width(),
                        buf.spec_height() == old(buf).spec_height(),
                        bounding.valid(),
                        bounding.max.x <= buf.spec_width(),
                        bounding.max.y <= buf.spec_height(),
                        bounding.min.x <= x < bounding.max.x,
                        bounding.min.y <= y <= bounding.max.y,
                        forall|i: int, j: int| old(buf).in_range(i, j) ==>
                            #[trigger] buf.color_at(i, j) == if bounding.contains_pixel(i, j)
                                && (i < x || (i == x && j < y)) {
                                *color
                            } else {
                                old(buf).color_at(i, j)
                            },
                    decreases bounding.max.y - y,
                {
                    buf.set_pixel(x, y, *color);
                    y = y + 1;
                }
                x = x + 1;
            }
        },
        RegionNodeQt::Interior { bounding, c0, c1, c2, c3 } => {
            proof {
                lemma_quadrant_geometry(*bounding);
            }
            let ghost b0 = *buf;
            paint_node(c0, buf);
            let ghost b1 = *buf;
            paint_node(c1, buf);
            let ghost b2 = *buf;
            paint_node(c2, buf);
            let ghost b3 = *buf;
            paint_node(c3, buf);
            proof {
                lemma_quadrants_partition(*bounding);
                assert forall|x: int, y: int| b0.in_range(x, y) implies
                    #[trigger] buf.color_at(x, y) == if n.bounding().contains_pixel(x, y) {
                        n.color_at(x, y)
                    } else {
                        b0.color_at(x, y)
                    } by {
                    if bounding.contains_pixel(x, y) {
                        let i = bounding.quadrant_index(x, y);
                        assert(bounding.spec_quadrant(i).contains_pixel(x, y));
                        if i == 0 {
                            assert(!bounding.spec_quadrant(1).contains_pixel(x, y));
                            assert(!bounding.spec_quadrant(2).contains_pixel(x, y));
                            assert(!bounding.spec_quadrant(3).contains_pixel(x, y));
                            assert(buf.color_at(x, y) == c0.color_at(x, y));
                        } else if i == 1 {
                            assert(!bounding.spec_quadrant(2).contains_pixel(x, y));
                            assert(!bounding.spec_quadrant(3).contains_pixel(x, y));
                            assert(buf.color_at(x, y) == c1.color_at(x, y));
                        } else if i == 2 {
                            assert(!bounding.spec_quadrant(3).contains_pixel(x, y));
                            assert(buf.color_at(x, y) == c2.color_at(x, y));
                        } else {
                            assert(buf.color_at(x, y) == c3.color_at(x, y));
                        }
                    } else {
                        assert(!bounding.spec_quadrant(0).contains_pixel(x, y));
                        assert(!bounding.spec_quadrant(1).contains_pixel(x, y));
                        assert(!bounding.spec_quadrant(2).contains_pixel(x, y));
                        assert(!bounding.spec_quadrant(3).contains_pixel(x, y));
                    }
                }
            }
        },
    }
}

impl RegionQt {
    /// Rasterize the tree into a pixel grid of its recorded dimensions.
    pub fn to_pixel_buffer(&self) -> (r: Result<PixelSource, RegionError>)
        requires
            self.wf(),
            self.spec_width() * self.spec_height() <= usize::MAX,
        ensures
            match r {
                Ok(buf) => {
                    &&& self.is_built()
                    &&& buf.wf()
                    &&& buf.spec_width() == self.spec_width()
                    &&& buf.spec_height() == self.spec_height()
                    &&& forall|x: int, y: int| buf.in_range(x, y) ==>
                        #[trigger] buf.color_at(x, y) == self.root_node().color_at(x, y)
                },
                Err(e) => !self.is_built() && e == RegionError::EmptyTree,
            },
    {
        match &self.root {
            None => Err(RegionError::EmptyTree),
            Some(root) => {
                let mut buf = PixelSource::filled(
                    self.width,
                    self.height,
                    Rgba { r: 0, g: 0, b: 0, a: 0 },
                );
                paint_node(root, &mut buf);
                Ok(buf)
            },
        }
    }

    /// Collect the split-line overlay of the whole tree.
    pub fn get_lines(&self) -> (r: Result<Vec<(Point, Point)>, RegionError>)
        requires
            self.wf(),
        ensures
            match r {
                Ok(v) => self.is_built() && v@ == spec_lines(self.root_node()),
                Err(e) => !self.is_built() && e == RegionError::EmptyTree,
            },
    {
        match &self.root {
            None => Err(RegionError::EmptyTree),
            Some(root) => {
                let mut v: Vec<(Point, Point)> = Vec::new();
                root.lines(&mut v);
                proof {
                    assert(v@ =~= spec_lines(self.root_node()));
                }
                Ok(v)
            },
        }
    }
}

/// Inside its box, a well-formed node that represents an image assigns
/// every pixel the image's own color.
proof fn lemma_node_color(n: RegionNodeQt, g: PixelSource, x: int, y: int)
    requires
        n.wf(),
        n.represents(g),
        n.bounding().contains_pixel(x, y),
    ensures
        n.color_at(x, y) == g.color_at(x, y),
    decreases n,
{
    match n {
        RegionNodeQt::Leaf { .. } => {},
        RegionNodeQt::Interior { bounding, c0, c1, c2, c3 } => {
            lemma_quadrants_partition(bounding);
            let i = bounding.quadrant_index(x, y);
            assert(bounding.spec_quadrant(i).contains_pixel(x, y));
            if i == 0 {
                lemma_node_color(*c0, g, x, y);
            } else if i == 1 {
                lemma_node_color(*c1, g, x, y);
            } else if i == 2 {
                lemma_node_color(*c2, g, x, y);
            } else {
                lemma_node_color(*c3, g, x, y);
            }
        },
    }
}

/// Lossless partition: a built tree that represents an image assigns every
/// in-range pixel exactly the image's color, so rasterizing the tree built
/// from an image reproduces that image pixel for pixel.
pub proof fn lemma_rasterize_reproduces_source(t: RegionQt, g: PixelSource)
    requires
        t.wf(),
        g.wf(),
        t.represents(g),
    ensures
        forall|x: int, y: int| g.in_range(x, y) ==>
            #[trigger] t.root_node().color_at(x, y) == g.color_at(x, y),
{
    assert forall|x: int, y: int| g.in_range(x, y) implies
        #[trigger] t.root_node().color_at(x, y) == g.color_at(x, y) by {
        assert(t.root_node().bounding().contains_pixel(x, y));
        lemma_node_color(t.root_node(), g, x, y);
    }
}

} // verus!
