use region_quadtree::region_qt::pixels::PixelSource;
use region_quadtree::region_qt::primitives::{BoundingBox, Point};
use region_quadtree::region_qt::{RegionError, RegionNodeQt, RegionQt, Rgba};

fn rgba(r: u8, g: u8, b: u8, a: u8) -> Rgba {
    Rgba { r, g, b, a }
}

fn p(x: u32, y: u32) -> Point {
    Point { x, y }
}

fn build_tree(width: u32, height: u32, pixels: Vec<Rgba>) -> (RegionQt, PixelSource) {
    let img = PixelSource::new(width, height, pixels).unwrap();
    let mut tree = RegionQt::new();
    tree.build(&img);
    (tree, img)
}

#[test]
fn unit_image_single_leaf() {
    // a 1x1 image always yields a single leaf tree
    let (tree, _) = build_tree(1, 1, vec![rgba(9, 8, 7, 6)]);
    assert_eq!(tree.dimensions(), Ok((1, 1)));
    let bytes = tree.save().unwrap();
    assert_eq!(bytes, vec![1, 0, 0, 0, 1, 0, 0, 0, 1, 9, 8, 7, 6]);
}

#[test]
fn uniform_image_single_leaf() {
    // a fully uniform 4x4 image collapses to one leaf over (0,0)-(4,4)
    let color = rgba(10, 20, 30, 255);
    let (tree, img) = build_tree(4, 4, vec![color; 16]);
    assert_eq!(tree.dimensions(), Ok((4, 4)));
    let bytes = tree.save().unwrap();
    assert_eq!(bytes, vec![4, 0, 0, 0, 4, 0, 0, 0, 1, 10, 20, 30, 255]);
    // no interior node, so no overlay lines
    assert_eq!(tree.get_lines().unwrap(), Vec::new());
    // and rasterization reproduces the uniform image
    let out = tree.to_pixel_buffer().unwrap();
    assert!(out.same_image(&img));
}

#[test]
fn checkerboard_quadrant_assignment() {
    // 2x2 image with 4 distinct pixel colors: one interior root whose
    // children are the four 1x1 leaves in canonical quadrant order
    let a = rgba(1, 11, 21, 255); // pixel (0,0)
    let b = rgba(2, 12, 22, 255); // pixel (1,0)
    let c = rgba(3, 13, 23, 255); // pixel (0,1)
    let d = rgba(4, 14, 24, 255); // pixel (1,1)
    let (tree, img) = build_tree(2, 2, vec![a, b, c, d]);
    let bytes = tree.save().unwrap();
    let expected = vec![
        2, 0, 0, 0, // width
        2, 0, 0, 0, // height
        0, // interior root
        1, 3, 13, 23, 255, // child 0, top-left: pixel (0,1)
        1, 4, 14, 24, 255, // child 1, top-right: pixel (1,1)
        1, 1, 11, 21, 255, // child 2, bottom-left: pixel (0,0)
        1, 2, 12, 22, 255, // child 3, bottom-right: pixel (1,0)
    ];
    assert_eq!(bytes, expected);
    // exactly the root's center cross
    let lines = tree.get_lines().unwrap();
    assert_eq!(lines, vec![(p(1, 0), p(1, 2)), (p(0, 1), p(2, 1))]);
    let out = tree.to_pixel_buffer().unwrap();
    assert!(out.same_image(&img));
}

fn sample_image() -> (u32, u32, Vec<Rgba>) {
    // an irregular 4x3 image: a solid left half, varied right half
    let bg = rgba(50, 60, 70, 255);
    let mut pixels = vec![bg; 12];
    pixels[2] = rgba(200, 0, 0, 255); // (2,0)
    pixels[7] = rgba(0, 200, 0, 255); // (3,1)
    pixels[10] = rgba(0, 0, 200, 128); // (2,2)
    (4, 3, pixels)
}

#[test]
fn lossless_partition() {
    // rasterize(build(img)) equals img pixel for pixel
    let (w, h, pixels) = sample_image();
    let (tree, img) = build_tree(w, h, pixels);
    let out = tree.to_pixel_buffer().unwrap();
    assert!(out.same_image(&img));
    assert!(img.same_image(&out));
}

#[test]
fn round_trip_identity() {
    // decode(encode(t)) restores dimensions, bytes, and rasterized output
    let (w, h, pixels) = sample_image();
    let (tree, img) = build_tree(w, h, pixels);
    let bytes = tree.save().unwrap();
    let restored = RegionQt::load(&bytes).unwrap();
    assert_eq!(restored.dimensions(), Ok((w, h)));
    assert_eq!(restored.save().unwrap(), bytes);
    assert_eq!(restored.get_lines().unwrap(), tree.get_lines().unwrap());
    let out = restored.to_pixel_buffer().unwrap();
    assert!(out.same_image(&img));
}

#[test]
fn rebuild_discards_previous_tree() {
    let (tree_small, _) = build_tree(1, 1, vec![rgba(5, 5, 5, 5)]);
    let color = rgba(10, 20, 30, 255);
    let img = PixelSource::new(4, 4, vec![color; 16]).unwrap();
    let mut tree = tree_small;
    tree.build(&img);
    assert_eq!(tree.dimensions(), Ok((4, 4)));
    assert_eq!(
        tree.save().unwrap(),
        vec![4, 0, 0, 0, 4, 0, 0, 0, 1, 10, 20, 30, 255]
    );
}

#[test]
fn empty_tree_is_refused() {
    let tree = RegionQt::new();
    assert_eq!(tree.dimensions(), Err(RegionError::EmptyTree));
    assert_eq!(tree.save().unwrap_err(), RegionError::EmptyTree);
    assert_eq!(tree.get_lines().unwrap_err(), RegionError::EmptyTree);
    assert_eq!(tree.to_pixel_buffer().unwrap_err(), RegionError::EmptyTree);
}

#[test]
fn corrupt_truncated_stream() {
    // valid header but stream cut mid-node
    let color = rgba(10, 20, 30, 255);
    let (tree, _) = build_tree(4, 4, vec![color; 16]);
    let mut bytes = tree.save().unwrap();
    bytes.pop();
    assert_eq!(RegionQt::load(&bytes).unwrap_err(), RegionError::CorruptData);
}

#[test]
fn corrupt_short_header() {
    assert_eq!(RegionQt::load(&Vec::new()).unwrap_err(), RegionError::CorruptData);
    assert_eq!(
        RegionQt::load(&vec![4, 0, 0, 0, 4, 0]).unwrap_err(),
        RegionError::CorruptData
    );
}

#[test]
fn corrupt_invalid_tag() {
    let mut bytes = vec![1, 0, 0, 0, 1, 0, 0, 0, 1, 9, 8, 7, 6];
    bytes[8] = 7; // neither leaf nor interior
    assert_eq!(RegionQt::load(&bytes).unwrap_err(), RegionError::CorruptData);
}

#[test]
fn corrupt_trailing_bytes() {
    let mut bytes = vec![1, 0, 0, 0, 1, 0, 0, 0, 1, 9, 8, 7, 6];
    bytes.push(0);
    assert_eq!(RegionQt::load(&bytes).unwrap_err(), RegionError::CorruptData);
}

#[test]
fn corrupt_zero_dimension() {
    let bytes = vec![0, 0, 0, 0, 1, 0, 0, 0, 1, 9, 8, 7, 6];
    assert_eq!(RegionQt::load(&bytes).unwrap_err(), RegionError::CorruptData);
}

#[test]
fn corrupt_split_of_single_pixel() {
    // an interior tag over an indivisible 1x1 box is refused
    let bytes = vec![1, 0, 0, 0, 1, 0, 0, 0, 0];
    assert_eq!(RegionQt::load(&bytes).unwrap_err(), RegionError::CorruptData);
}

#[test]
fn load_accepts_exact_encoding() {
    let bytes = vec![1, 0, 0, 0, 2, 0, 0, 0, 0, 1, 1, 1, 1, 1, 1, 2, 2, 2, 2, 1, 3, 3, 3, 3, 1, 4, 4, 4, 4];
    // a 1x2 image split into four children (two of them empty boxes)
    let tree = RegionQt::load(&bytes).unwrap();
    assert_eq!(tree.dimensions(), Ok((1, 2)));
    assert_eq!(tree.save().unwrap(), bytes);
}

#[test]
fn tall_thin_image_splits() {
    // a 1x2 image with two colors must split once and still round-trip
    let top = rgba(1, 2, 3, 255);
    let bottom = rgba(4, 5, 6, 255);
    let (tree, img) = build_tree(1, 2, vec![top, bottom]);
    let out = tree.to_pixel_buffer().unwrap();
    assert!(out.same_image(&img));
    let bytes = tree.save().unwrap();
    let restored = RegionQt::load(&bytes).unwrap();
    assert!(restored.to_pixel_buffer().unwrap().same_image(&img));
    assert_eq!(restored.get_lines().unwrap(), tree.get_lines().unwrap());
}

#[test]
fn leaf_and_interior_nodes() {
    let leaf = |min: Point, max: Point, color: Rgba| RegionNodeQt::Leaf {
        bounding: BoundingBox::new(min, max),
        color,
    };
    let gray = rgba(128, 128, 128, 255);
    assert!(leaf(p(0, 0), p(2, 2), gray).is_leaf());
    let interior = RegionNodeQt::Interior {
        bounding: BoundingBox::new(p(0, 0), p(2, 2)),
        c0: Box::new(leaf(p(0, 1), p(1, 2), gray)),
        c1: Box::new(leaf(p(1, 1), p(2, 2), gray)),
        c2: Box::new(leaf(p(0, 0), p(1, 1), gray)),
        c3: Box::new(leaf(p(1, 0), p(2, 1), gray)),
    };
    assert!(!interior.is_leaf());
}
