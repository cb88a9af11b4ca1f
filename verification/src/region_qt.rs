//! The region quadtree: node type, build engine, and the public tree facade.

use vstd::prelude::*;

use crate::region_qt::pixels::PixelSource;
use crate::region_qt::primitives::{
    lemma_quadrant_geometry, BoundingBox, Point,
};

pub mod codec;
pub mod pixels;
pub mod primitives;
pub mod raster;

verus! {

/// One RGBA pixel value.
#[derive(Clone, Copy, PartialEq, Eq, Structural, Debug)]
pub struct Rgba {
    pub r: u8,
    pub g: u8,
    pub b: u8,
    pub a: u8,
}

/// The outcome of examining a region: `Gray` marks a heterogeneous region
/// that must be subdivided; `Data` carries the single color of a homogeneous
/// region.
#[derive(Clone, Copy, PartialEq, Eq, Structural, Debug)]
pub enum Color {
    Gray,
    Data(Rgba),
}

/// Why an operation on the tree could not be carried out.
#[derive(Clone, Copy, PartialEq, Eq, Structural, Debug)]
pub enum RegionError {
    /// An operation that needs a built root was invoked on an empty tree.
    EmptyTree,
    /// A serialized tree was truncated or otherwise malformed.
    CorruptData,
}

/// Every pixel of the box carries the color of the box's `min` corner pixel.
pub open spec fn homogeneous(g: PixelSource, b: BoundingBox) -> bool {
    forall|x: int, y: int| #[trigger] b.contains_pixel(x, y) ==>
        g.color_at(x, y) == g.color_at(b.min.x as int, b.min.y as int)
}

/// The box lies inside the grid, and its `min` corner names a real pixel.
pub open spec fn box_in_grid(b: BoundingBox, g: PixelSource) -> bool {
    &&& b.valid()
    &&& b.min.x < g.spec_width()
    &&& b.min.y < g.spec_height()
    &&& b.max.x <= g.spec_width()
    &&& b.max.y <= g.spec_height()
}

/// Extract the color of the pixel at `coord`.
fn get_color(img: &PixelSource, coord: (u32, u32)) -> (c: Color)
    requires
        img.wf(),
        coord.0 < img.spec_width(),
        coord.1 < img.spec_height(),
    ensures
        c == Color::Data(img.color_at(coord.0 as int, coord.1 as int)),
{
    Color::Data(img.pixel(coord.0, coord.1))
}

/// Scan the box. If every pixel matches the `min` corner pixel the region is
/// homogeneous and its color is returned; the first mismatch ends the scan
/// with `Gray`.
pub fn calculate_color(img: &PixelSource, bounding: &BoundingBox) -> (c: Color)
    requires
        img.wf(),
        box_in_grid(*bounding, *img),
    ensures
        (c == Color::Gray) <==> !homogeneous(*img, *bounding),
        c != Color::Gray ==> c == Color::Data(
            img.color_at(bounding.min.x as int, bounding.min.y as int)),
{
    let xl = bounding.min.x;
    let yl = bounding.min.y;
    let current_color = get_color(img, (xl, yl));

    let mut x = xl;
    while x < bounding.max.x
        invariant
            img.wf(),
            box_in_grid(*bounding, *img),
            current_color == Color::Data(img.color_at(xl as int, yl as int)),
            xl == bounding.min.x,
            yl == bounding.min.y,
            xl <= x <= bounding.max.x,
            forall|i: int, j: int|
                xl <= i < x && yl <= j < bounding.max.y ==>
                    #[trigger] img.color_at(i, j) == img.color_at(xl as int, yl as int),
        decreases bounding.max.x - x,
    {
        let mut y = yl;
        while y < bounding.max.y
            invariant
                img.wf(),
                box_in_grid(*bounding, *img),
                current_color == Color::Data(img.color_at(xl as int, yl as int)),
                xl == bounding.min.x,
                yl == bounding.min.y,
                xl <= x < bounding.max.x,
                yl <= y <= bounding.max.y,
                forall|i: int, j: int|
                    xl <= i < x && yl <= j < bounding.max.y ==>
                        #[trigger] img.color_at(i, j) == img.color_at(xl as int, yl as int),
                forall|j: int| yl <= j < y ==>
                    #[trigger] img.color_at(x as int, j) == img.color_at(xl as int, yl as int),
            decreases bounding.max.y - y,
        {
            let next_color = get_color(img, (x, y));
            if next_color != current_color {
                proof {
                    assert(bounding.contains_pixel(x as int, y as int));
                    assert(!homogeneous(*img, *bounding));
                }
                return Color::Gray;
            }
            y = y + 1;
        }
        x = x + 1;
    }
    proof {
        assert forall|i: int, j: int| #[trigger] bounding.contains_pixel(i, j) implies
            img.color_at(i, j) == img.color_at(xl as int, yl as int) by {}
    }
    current_color
}

/// A region node: either a homogeneous leaf or an interior node whose four
/// children quarter its box in canonical order.
#[derive(Debug)]
pub enum RegionNodeQt {
    Leaf { bounding: BoundingBox, color: Rgba },
    Interior {
        bounding: BoundingBox,
        c0: Box<RegionNodeQt>,
        c1: Box<RegionNodeQt>,
        c2: Box<RegionNodeQt>,
        c3: Box<RegionNodeQt>,
    },
}

impl RegionNodeQt {
    /// The box this node covers.
    pub open spec fn bounding(self) -> BoundingBox {
        match self {
            RegionNodeQt::Leaf { bounding, .. } => bounding,
            RegionNodeQt::Interior { bounding, .. } => bounding,
        }
    }

    pub open spec fn spec_is_leaf(self) -> bool {
        self is Leaf
    }

    /// The child at a canonical quadrant index of an interior node.
    pub open spec fn child(self, i: int) -> RegionNodeQt
        recommends
            self is Interior,
            0 <= i < 4,
    {
        match self {
            RegionNodeQt::Interior { c0, c1, c2, c3, .. } => {
                if i == 0 {
                    *c0
                } else if i == 1 {
                    *c1
                } else if i == 2 {
                    *c2
                } else {
                    *c3
                }
            },
            RegionNodeQt::Leaf { .. } => self,
        }
    }

    /// Structural well-formedness: boxes are valid, an interior node sits on
    /// a divisible box, and its children cover exactly the four quadrants.
    pub open spec fn wf(self) -> bool
        decreases self,
    {
        self.bounding().valid() && match self {
            RegionNodeQt::Leaf { .. } => true,
            RegionNodeQt::Interior { bounding, c0, c1, c2, c3 } => {
                &&& bounding.divisible()
                &&& c0.bounding() == bounding.spec_quadrant(0)
                &&& c1.bounding() == bounding.spec_quadrant(1)
                &&& c2.bounding() == bounding.spec_quadrant(2)
                &&& c3.bounding() == bounding.spec_quadrant(3)
                &&& c0.wf()
                &&& c1.wf()
                &&& c2.wf()
                &&& c3.wf()
            },
        }
    }

    /// Leaf homogeneity against a source image: every leaf stores exactly
    /// the color that the image holds throughout the leaf's box.
    pub open spec fn represents(self, g: PixelSource) -> bool
        decreases self,
    {
        match self {
            RegionNodeQt::Leaf { bounding, color } =>
                forall|x: int, y: int| #[trigger] bounding.contains_pixel(x, y) ==>
                    g.color_at(x, y) == color,
            RegionNodeQt::Interior { c0, c1, c2, c3, .. } => {
                &&& c0.represents(g)
                &&& c1.represents(g)
                &&& c2.represents(g)
                &&& c3.represents(g)
            },
        }
    }

    /// The color the tree assigns to pixel `(x, y)`: the color of the leaf
    /// whose box holds the pixel, found by the center comparison at every
    /// interior node.
    pub open spec fn color_at(self, x: int, y: int) -> Rgba
        decreases self,
    {
        match self {
            RegionNodeQt::Leaf { color, .. } => color,
            RegionNodeQt::Interior { bounding, c0, c1, c2, c3 } => {
                let i = bounding.quadrant_index(x, y);
                if i == 0 {
                    c0.color_at(x, y)
                } else if i == 1 {
                    c1.color_at(x, y)
                } else if i == 2 {
                    c2.color_at(x, y)
                } else {
                    c3.color_at(x, y)
                }
            },
        }
    }

    /// Whether the node is a leaf.
    pub fn is_leaf(&self) -> (r: bool)
        ensures
            r == self.spec_is_leaf(),
    {
        match self {
            RegionNodeQt::Leaf { .. } => true,
            RegionNodeQt::Interior { .. } => false,
        }
    }
}

/// A heterogeneous region spans more than one pixel, so its box is divisible.
proof fn lemma_heterogeneous_box_divisible(g: PixelSource, b: BoundingBox)
    requires
        b.valid(),
        !homogeneous(g, b),
    ensures
        b.width() >= 1,
        b.height() >= 1,
        b.divisible(),
{
    if b.width() == 0 || b.height() == 0 {
        assert forall|x: int, y: int| #[trigger] b.contains_pixel(x, y) implies
            g.color_at(x, y) == g.color_at(b.min.x as int, b.min.y as int) by {}
    }
    if !b.divisible() {
        assert forall|x: int, y: int| #[trigger] b.contains_pixel(x, y) implies
            g.color_at(x, y) == g.color_at(b.min.x as int, b.min.y as int) by {
            assert(x == b.min.x && y == b.min.y);
        }
    }
}

/// Build the subtree for one region: a leaf when the region is homogeneous,
/// otherwise an interior node whose four quadrants are built recursively.
fn build_node(img: &PixelSource, bounding: BoundingBox) -> (n: RegionNodeQt)
    requires
        img.wf(),
        box_in_grid(bounding, *img),
    ensures
        n.wf(),
        n.bounding() == bounding,
        n.represents(*img),
    decreases bounding.width() + bounding.height(),
{
    let color = calculate_color(img, &bounding);
    match color {
        Color::Data(c) => RegionNodeQt::Leaf { bounding, color: c },
        Color::Gray => {
            proof {
                // a region within a single pixel is always homogeneous, so
                // this region is divisible: the guard below the recursion
                lemma_heterogeneous_box_divisible(*img, bounding);
                lemma_quadrant_geometry(bounding);
            }
            let q0 = bounding.quadrant(0);
            let q1 = bounding.quadrant(1);
            let q2 = bounding.quadrant(2);
            let q3 = bounding.quadrant(3);
            let n0 = Box::new(build_node(img, q0));
            let n1 = Box::new(build_node(img, q1));
            let n2 = Box::new(build_node(img, q2));
            let n3 = Box::new(build_node(img, q3));
            RegionNodeQt::Interior { bounding, c0: n0, c1: n1, c2: n2, c3: n3 }
        },
    }
}

/// The public tree handle: an optional root plus the image dimensions
/// recorded at build time.
#[derive(Debug)]
pub struct RegionQt {
    root: Option<Box<RegionNodeQt>>,
    width: u32,
    height: u32,
}

impl RegionQt {
    pub closed spec fn spec_root(self) -> Option<Box<RegionNodeQt>> {
        self.root
    }

    pub closed spec fn spec_width(self) -> u32 {
        self.width
    }

    pub closed spec fn spec_height(self) -> u32 {
        self.height
    }

    /// Whether `build` (or a successful `load`) has populated the tree.
    pub open spec fn is_built(self) -> bool {
        self.spec_root() is Some
    }

    /// The root node of a built tree.
    pub open spec fn root_node(self) -> RegionNodeQt
        recommends
            self.is_built(),
    {
        match self.spec_root() {
            Some(n) => *n,
            None => RegionNodeQt::Leaf {
                bounding: BoundingBox { min: Point { x: 0, y: 0 }, max: Point { x: 0, y: 0 } },
                color: Rgba { r: 0, g: 0, b: 0, a: 0 },
            },
        }
    }

    /// The box covering the whole image.
    pub open spec fn full_box(self) -> BoundingBox {
        BoundingBox {
            min: Point { x: 0, y: 0 },
            max: Point { x: self.spec_width(), y: self.spec_height() },
        }
    }

    /// A built tree has at least one pixel per axis, a well-formed root, and
    /// a root box that covers exactly the recorded dimensions.
    pub open spec fn wf(self) -> bool {
        self.is_built() ==> {
            &&& self.spec_width() >= 1
            &&& self.spec_height() >= 1
            &&& self.root_node().wf()
            &&& self.root_node().bounding() == self.full_box()
        }
    }

    /// The tree faithfully partitions the image `g`.
    pub open spec fn represents(self, g: PixelSource) -> bool {
        &&& self.is_built()
        &&& self.spec_width() == g.spec_width()
        &&& self.spec_height() == g.spec_height()
        &&& self.root_node().represents(g)
    }

    /// Create an empty tree.
    pub fn new() -> (r: RegionQt)
        ensures
            r.wf(),
            !r.is_built(),
    {
        RegionQt { root: None, width: 0, height: 0 }
    }

    /// Build the region quadtree for a decoded image, discarding any
    /// previous tree.
    pub fn build(&mut self, img: &PixelSource)
        requires
            img.wf(),
            img.spec_width() >= 1,
            img.spec_height() >= 1,
        ensures
            final(self).wf(),
            final(self).represents(*img),
            final(self).spec_width() == img.spec_width(),
            final(self).spec_height() == img.spec_height(),
            final(self).spec_width() * final(self).spec_height() <= usize::MAX,
    {
        proof {
            img.lemma_wf_cell_bound();
        }
        let w = img.width();
        let h = img.height();
        self.width = w;
        self.height = h;
        let bb = BoundingBox::new(Point { x: 0, y: 0 }, Point { x: w, y: h });
        let root = build_node(img, bb);
        self.root = Some(Box::new(root));
    }

    /// The width and height recorded when the tree was built.
    pub fn dimensions(&self) -> (r: Result<(u32, u32), RegionError>)
        ensures
            match r {
                Ok(d) => self.is_built() && d.0 == self.spec_width() && d.1 == self.spec_height(),
                Err(e) => !self.is_built() && e == RegionError::EmptyTree,
            },
    {
        match &self.root {
            Some(_) => Ok((self.width, self.height)),
            None => Err(RegionError::EmptyTree),
        }
    }
}

/// A tree built over a single-pixel image is one leaf: an interior root
/// would need a divisible box, and a `1 x 1` box is not divisible.
pub proof fn lemma_unit_tree_is_leaf(t: RegionQt)
    requires
        t.wf(),
        t.is_built(),
        t.spec_width() == 1,
        t.spec_height() == 1,
    ensures
        t.root_node() is Leaf,
{
}

} // verus!
