use region_quadtree::region_qt::pixels::PixelSource;
use region_quadtree::region_qt::primitives::{BoundingBox, Point};
use region_quadtree::region_qt::{calculate_color, Color, Rgba};

fn p(x: u32, y: u32) -> Point {
    Point { x, y }
}

#[test]
fn point_arithmetic() {
    let a = p(3, 7);
    let b = p(1, 2);
    assert_eq!(a.add(b), p(4, 9));
    assert_eq!(a.sub(b), p(2, 5));
    assert_eq!(p(7, 9).div(2), p(3, 4));
    assert_eq!(Point::from((5, 6)), p(5, 6));
}

#[test]
fn center_floor_bias() {
    // odd-sized boxes split floor-toward-min
    assert_eq!(BoundingBox::new(p(0, 0), p(3, 3)).center(), p(1, 1));
    assert_eq!(BoundingBox::new(p(1, 2), p(4, 7)).center(), p(2, 4));
    assert_eq!(BoundingBox::new(p(0, 0), p(4, 4)).center(), p(2, 2));
    assert_eq!(BoundingBox::new(p(5, 5), p(5, 5)).center(), p(5, 5));
}

#[test]
fn quadrant_layout() {
    // canonical order: top-left, top-right, bottom-left, bottom-right
    let b = BoundingBox::new(p(0, 0), p(4, 4));
    let q0 = b.quadrant(0);
    let q1 = b.quadrant(1);
    let q2 = b.quadrant(2);
    let q3 = b.quadrant(3);
    assert_eq!((*q0.min(), *q0.max()), (p(0, 2), p(2, 4)));
    assert_eq!((*q1.min(), *q1.max()), (p(2, 2), p(4, 4)));
    assert_eq!((*q2.min(), *q2.max()), (p(0, 0), p(2, 2)));
    assert_eq!((*q3.min(), *q3.max()), (p(2, 0), p(4, 2)));
}

#[test]
fn quadrant_layout_odd() {
    let b = BoundingBox::new(p(0, 0), p(3, 5));
    let q0 = b.quadrant(0);
    let q1 = b.quadrant(1);
    let q2 = b.quadrant(2);
    let q3 = b.quadrant(3);
    assert_eq!((*q0.min(), *q0.max()), (p(0, 2), p(1, 5)));
    assert_eq!((*q1.min(), *q1.max()), (p(1, 2), p(3, 5)));
    assert_eq!((*q2.min(), *q2.max()), (p(0, 0), p(1, 2)));
    assert_eq!((*q3.min(), *q3.max()), (p(1, 0), p(3, 2)));
}

#[test]
fn contains_and_bounds() {
    let b = BoundingBox::new(p(1, 1), p(3, 4));
    assert!(b.contains(p(1, 1)));
    assert!(b.contains(p(3, 4)));
    assert!(b.contains(p(2, 2)));
    assert!(!b.contains(p(0, 2)));
    assert!(!b.contains(p(4, 2)));
    let edges = b.get_bounds();
    assert_eq!(edges.len(), 4);
    assert_eq!(edges[0], (p(1, 1), p(1, 4)));
    assert_eq!(edges[1], (p(1, 4), p(3, 4)));
    assert_eq!(edges[2], (p(3, 4), p(3, 1)));
    assert_eq!(edges[3], (p(3, 1), p(1, 1)));
}

fn rgba(r: u8, g: u8, b: u8, a: u8) -> Rgba {
    Rgba { r, g, b, a }
}

#[test]
fn pixel_source_shape_check() {
    let red = rgba(255, 0, 0, 255);
    assert!(PixelSource::new(2, 2, vec![red; 4]).is_some());
    assert!(PixelSource::new(2, 2, vec![red; 3]).is_none());
    assert!(PixelSource::new(0, 5, vec![red; 1]).is_none());
    assert!(PixelSource::new(0, 5, Vec::new()).is_some());
}

#[test]
fn pixel_source_read_back() {
    let colors = vec![
        rgba(1, 0, 0, 255),
        rgba(2, 0, 0, 255),
        rgba(3, 0, 0, 255),
        rgba(4, 0, 0, 255),
        rgba(5, 0, 0, 255),
        rgba(6, 0, 0, 255),
    ];
    let g = PixelSource::new(3, 2, colors).unwrap();
    assert_eq!(g.width(), 3);
    assert_eq!(g.height(), 2);
    assert_eq!(g.pixel(0, 0).r, 1);
    assert_eq!(g.pixel(2, 0).r, 3);
    assert_eq!(g.pixel(0, 1).r, 4);
    assert_eq!(g.pixel(2, 1).r, 6);
}

#[test]
fn set_pixel_updates_one_cell() {
    let black = rgba(0, 0, 0, 255);
    let white = rgba(255, 255, 255, 255);
    let mut g = PixelSource::new(2, 2, vec![black; 4]).unwrap();
    g.set_pixel(1, 0, white);
    assert_eq!(g.pixel(1, 0), white);
    assert_eq!(g.pixel(0, 0), black);
    assert_eq!(g.pixel(0, 1), black);
    assert_eq!(g.pixel(1, 1), black);
}

#[test]
fn homogeneity_scan() {
    let red = rgba(200, 0, 0, 255);
    let blue = rgba(0, 0, 200, 255);
    let uniform = PixelSource::new(2, 2, vec![red; 4]).unwrap();
    let whole = BoundingBox::new(p(0, 0), p(2, 2));
    assert_eq!(calculate_color(&uniform, &whole), Color::Data(red));

    let mixed = PixelSource::new(2, 2, vec![red, red, red, blue]).unwrap();
    assert_eq!(calculate_color(&mixed, &whole), Color::Gray);
    // the homogeneous sub-region still resolves
    let top_row = BoundingBox::new(p(0, 0), p(2, 1));
    assert_eq!(calculate_color(&mixed, &top_row), Color::Data(red));
}
