use fractal::complex::domain::Domain;
use fractal::complex::fixed::Fixed;
use fractal::complex::window::Window;
use fractal::tree::moment::MomentInner;
use fractal::tree::quadtree::{DepthError, Tree};
use fractal::tree::rgb::Rgb;

fn fx(f: f64) -> Fixed {
    Fixed::from_f64_bits(f.to_bits())
}

fn win(real_lo: f64, real_hi: f64, imag_lo: f64, imag_hi: f64) -> Window {
    Window::new(fx(real_lo), fx(real_hi), fx(imag_lo), fx(imag_hi))
}

fn pixel_at(real: f64, imag: f64) -> Window {
    win(real - 0.001, real + 0.001, imag - 0.001, imag + 0.001)
}

const GREEN: (u8, u8, u8) = (0, 255, 0);

fn tree() -> Tree {
    Tree::new(Rgb::new(GREEN.0, GREEN.1, GREEN.2))
}

fn m(t: i32) -> MomentInner {
    MomentInner::new(t)
}

/// Refines with no retire window, so the only bound is `u16::MAX`.
fn refine(tree: &mut Tree, w: Window, now: i32) -> Option<[(Fixed, Fixed); 4]> {
    tree.refine(w, None, None, false, false, m(now))
}

#[test]
fn test_depth_needed_for_rad() {
    let tree = tree();
    assert_eq!(tree.dom().rad(), fx(4.0));
    assert_eq!(tree.depth_needed_for_rad(fx(6.0)), Some(0));
    assert_eq!(tree.depth_needed_for_rad(fx(5.0)), Some(0));
    assert_eq!(tree.depth_needed_for_rad(fx(4.0)), Some(0));
    assert_eq!(tree.depth_needed_for_rad(fx(3.0)), Some(1));
    assert_eq!(tree.depth_needed_for_rad(fx(2.0)), Some(1));
    assert_eq!(tree.depth_needed_for_rad(fx(1.0)), Some(2));
}

#[test]
fn depth_needed_for_rad_edges() {
    let tree = tree();
    assert_eq!(tree.depth_needed_for_rad(Fixed::zero()), None);
    assert_eq!(tree.depth_needed_for_rad(fx(-1.0)), None);
    assert_eq!(tree.depth_needed_for_rad(Fixed::from_bits(1)), Some(60));
    assert_eq!(tree.depth_needed_for_rad(Fixed::from_bits(2)), Some(59));
}

#[test]
fn depth_needed_for_window_errors() {
    let tree = tree();
    let w = win(-1.0, 1.0, -1.0, 1.0);
    assert_eq!(tree.depth_needed_for_window(w, None), Err(DepthError::ScaleOutOfDomain));
    // a radius of 1 times a scale of 1/1000 needs 1/1000 <= 4 / 2^d, so d = 12
    let scale = fx(1.0 / 1000.0);
    assert_eq!(tree.depth_needed_for_window(w, Some(scale)), Ok(12));
    assert_eq!(tree.depth_needed_for_window(w, Some(fx(1.0))), Ok(2));
    // a scale of zero leaves no radius
    assert_eq!(tree.depth_needed_for_window(w, Some(Fixed::zero())), Err(DepthError::TooDeep));
    // a product that does not fit
    let big = win(-8.0, 8.0, -1.0, 1.0);
    assert_eq!(tree.depth_needed_for_window(big, Some(fx(16.0))), Err(DepthError::RadOutOfRange));
}

#[test]
fn new_tree_is_one_colored_leaf() {
    let tree = tree();
    assert_eq!(tree.node_count(), 1);
    assert_eq!(tree.min_height(), 0);
    assert_eq!(tree.max_height(), 0);
    assert!(tree.root_colored());
    assert_eq!(tree.color_of_pixel(pixel_at(1.0, 1.0), m(0), false), Some(Rgb::new(0, 255, 0)));
}

#[test]
fn refine_splits_the_root_first() {
    let mut tree = tree();
    let mids = refine(&mut tree, win(-4.0, 4.0, -4.0, 4.0), 1).unwrap();
    assert_eq!(mids, [(fx(-2.0), fx(2.0)), (fx(2.0), fx(2.0)), (fx(-2.0), fx(-2.0)), (fx(2.0), fx(-2.0))]);
    assert_eq!(tree.node_count(), 5);
    assert_eq!(tree.min_height(), 1);
    assert_eq!(tree.max_height(), 1);
}

#[test]
fn refine_takes_a_shallowest_leaf() {
    let mut tree = tree();
    refine(&mut tree, win(-4.0, 4.0, -4.0, 4.0), 1).unwrap();
    // the walk looks at the last quadrant first
    let mids = refine(&mut tree, win(-4.0, 4.0, -4.0, 4.0), 2).unwrap();
    assert_eq!(mids, [(fx(1.0), fx(-1.0)), (fx(3.0), fx(-1.0)), (fx(1.0), fx(-3.0)), (fx(3.0), fx(-3.0))]);
    assert_eq!(tree.node_count(), 9);
    assert_eq!(tree.min_height(), 1);
    assert_eq!(tree.max_height(), 2);
    // the other three quadrants are split before anything deeper
    for _ in 0..3 {
        let mids = refine(&mut tree, win(-4.0, 4.0, -4.0, 4.0), 3).unwrap();
        for (re, im) in mids {
            // each new leaf has radius one: its center is at an odd coordinate
            assert!(re.to_bits().rem_euclid(fx(2.0).to_bits()) == fx(1.0).to_bits());
            assert!(im.to_bits().rem_euclid(fx(2.0).to_bits()) == fx(1.0).to_bits());
        }
    }
    assert_eq!(tree.node_count(), 21);
    assert_eq!(tree.min_height(), 2);
    assert_eq!(tree.max_height(), 2);
}

#[test]
fn refine_looks_only_where_the_window_does() {
    let mut tree = tree();
    refine(&mut tree, win(-4.0, 4.0, -4.0, 4.0), 1).unwrap();
    // the window only sees the top left quadrant
    let mids = refine(&mut tree, win(-3.0, -1.0, 1.0, 3.0), 2).unwrap();
    assert_eq!(mids, [(fx(-3.0), fx(3.0)), (fx(-1.0), fx(3.0)), (fx(-3.0), fx(1.0)), (fx(-1.0), fx(1.0))]);
    // a window outside the domain sees nothing
    assert_eq!(refine(&mut tree, win(10.0, 11.0, 10.0, 11.0), 3), None);
    assert_eq!(tree.node_count(), 9);
}

#[test]
fn refine_stops_at_the_retire_depth() {
    let mut tree = tree();
    let w = win(-1.0, 1.0, -1.0, 1.0);
    // radius 1 at scale 1 retires from depth 2 on: leaves at depth 0 and 1 may split
    let scale = Some(fx(1.0));
    assert!(tree.refine(w, Some(w), scale, false, false, m(1)).is_some());
    let mut splits = 1;
    while tree.refine(w, Some(w), scale, false, false, m(1)).is_some() {
        splits += 1;
    }
    // the window sees all four quadrants, so all four are split, and nothing deeper
    assert_eq!(splits, 5);
    assert_eq!(tree.max_height(), 2);
    // with retirable nodes allowed to split, it goes on
    assert!(tree.refine(w, Some(w), scale, true, false, m(1)).is_some());
    assert_eq!(tree.max_height(), 3);
}

#[test]
fn insert_then_color_of_pixel() {
    let mut tree = tree();
    let mids = refine(&mut tree, win(-4.0, 4.0, -4.0, 4.0), 1).unwrap();
    let colors = [Rgb::new(255, 0, 0), Rgb::new(0, 0, 255), Rgb::new(7, 7, 7), Rgb::new(9, 9, 9)];
    for (p, c) in mids.iter().zip(colors.iter()) {
        tree.insert(*p, *c, m(2));
    }
    // each pixel takes the color of the closest sample on the way down
    assert_eq!(tree.color_of_pixel(pixel_at(-2.5, 2.5), m(0), false), Some(colors[0]));
    assert_eq!(tree.color_of_pixel(pixel_at(2.5, 1.5), m(0), false), Some(colors[1]));
    assert_eq!(tree.color_of_pixel(pixel_at(-1.5, -2.5), m(0), false), Some(colors[2]));
    assert_eq!(tree.color_of_pixel(pixel_at(3.0, -3.0), m(0), false), Some(colors[3]));
    // the root's sample is closer to a pixel near the center
    assert_eq!(tree.color_of_pixel(pixel_at(0.5, 0.5), m(0), false), Some(Rgb::new(0, 255, 0)));
    // outside the domain: white
    assert_eq!(tree.color_of_pixel(pixel_at(5.0, 0.0), m(0), false), Some(Rgb::new(255, 255, 255)));
    // nothing changed since moment 3 on the way to any pixel
    assert_eq!(tree.color_of_pixel(pixel_at(-2.5, 2.5), m(3), false), None);
    assert_eq!(tree.color_of_pixel(pixel_at(-2.5, 2.5), m(2), false), Some(colors[0]));
}

#[test]
fn uncolored_nodes_draw_yellow_when_asked() {
    let mut tree = tree();
    let mids = refine(&mut tree, win(-4.0, 4.0, -4.0, 4.0), 1).unwrap();
    assert_eq!(tree.color_of_pixel(pixel_at(-2.5, 2.5), m(0), true), Some(Rgb::new(255, 255, 0)));
    assert_eq!(tree.color_of_pixel(pixel_at(-2.5, 2.5), m(0), false), Some(Rgb::new(0, 255, 0)));
    tree.insert(mids[0], Rgb::new(1, 2, 3), m(1));
    assert_eq!(tree.color_of_pixel(pixel_at(-2.5, 2.5), m(0), true), Some(Rgb::new(1, 2, 3)));
}

#[test]
fn insert_raises_timestamps_on_the_way() {
    let mut tree = tree();
    let mids = refine(&mut tree, win(-4.0, 4.0, -4.0, 4.0), 1).unwrap();
    assert!(!tree.any_on_line_needs_redraw(fx(-3.0), fx(3.0), fx(2.0), m(5)));
    tree.insert(mids[1], Rgb::new(1, 2, 3), m(5));
    // the top right leaf changed at moment 5
    assert!(tree.any_on_line_needs_redraw(fx(-3.0), fx(3.0), fx(2.0), m(5)));
    assert!(tree.any_on_line_needs_redraw(fx(1.0), fx(3.0), fx(2.0), m(5)));
    // the top left leaf did not
    assert!(!tree.any_on_line_needs_redraw(fx(-3.0), fx(-1.0), fx(2.0), m(5)));
    // nor does the bottom row
    assert!(!tree.any_on_line_needs_redraw(fx(-3.0), fx(3.0), fx(-2.0), m(5)));
    // a line outside the domain meets no leaf
    assert!(!tree.any_on_line_needs_redraw(fx(-3.0), fx(3.0), fx(5.0), m(0)));
    assert!(tree.any_on_line_needs_redraw(fx(-3.0), fx(3.0), fx(-2.0), m(0)));
}

#[test]
fn retire_then_free_reclaims_the_block() {
    let mut tree = tree();
    let all = win(-4.0, 4.0, -4.0, 4.0);
    for _ in 0..5 {
        refine(&mut tree, all, 1).unwrap();
    }
    assert_eq!(tree.node_count(), 21);
    // a window of radius 1 at scale 1 retires from depth 2: nodes at depth 2 have no children yet
    let w = win(-1.0, 1.0, -1.0, 1.0);
    assert_eq!(tree.retire(w, Some(fx(1.0)), m(2)), None);
    // at scale 2 the depth is 1: the first node with children met at depth 1 lets go of them
    let b = tree.retire(w, Some(fx(2.0)), m(2)).unwrap();
    assert_eq!(tree.node_count(), 17);
    assert_eq!(tree.min_height(), 1);
    assert_eq!(tree.max_height(), 2);
    // the retired node was redrawn at moment 2
    assert!(tree.any_on_line_needs_redraw(fx(1.0), fx(3.0), fx(-2.0), m(2)));
    tree.free(b);
    assert_eq!(tree.node_count(), 17);
    // the freed block is reused by the next split
    let mids = refine(&mut tree, all, 3).unwrap();
    assert_eq!(mids, [(fx(1.0), fx(-1.0)), (fx(3.0), fx(-1.0)), (fx(1.0), fx(-3.0)), (fx(3.0), fx(-3.0))]);
    assert_eq!(tree.node_count(), 21);
    // without a scale, nothing is retired
    assert_eq!(tree.retire(w, None, m(4)), None);
}

#[test]
fn retire_and_free_a_deep_block() {
    let mut tree = tree();
    let all = win(-4.0, 4.0, -4.0, 4.0);
    for _ in 0..21 {
        refine(&mut tree, all, 1).unwrap();
    }
    assert_eq!(tree.node_count(), 85);
    assert_eq!(tree.max_height(), 3);
    // retiring at depth 0 takes the root's children, and with them everything
    let b = tree.retire(win(-1.0, 1.0, -1.0, 1.0), Some(fx(8.0)), m(5)).unwrap();
    assert_eq!(tree.node_count(), 1);
    assert_eq!(tree.max_height(), 0);
    tree.free(b);
    assert_eq!(tree.node_count(), 1);
    // all the freed blocks get reused
    for _ in 0..21 {
        refine(&mut tree, all, 6).unwrap();
    }
    assert_eq!(tree.node_count(), 85);
}

#[test]
fn free_leaves_the_colors_as_they_were() {
    let mut tree = tree();
    let all = win(-4.0, 4.0, -4.0, 4.0);
    let mut inserted = 0;
    for now in 1..6 {
        let mids = refine(&mut tree, all, now).unwrap();
        for (k, mid) in mids.iter().enumerate() {
            inserted += 1;
            tree.insert(*mid, Rgb::new(inserted, k as u8, 7), m(now));
        }
    }
    let b = tree.retire(win(-1.0, 1.0, -1.0, 1.0), Some(fx(2.0)), m(6)).unwrap();
    let pixels: Vec<Window> = [-3.5, -2.5, -1.5, -0.5, 0.5, 1.5, 2.5, 3.5]
        .iter()
        .flat_map(|&r| [-3.5, -1.5, 0.5, 2.5].map(|i| pixel_at(r, i)))
        .collect();
    let before: Vec<Option<Rgb>> = pixels.iter().map(|p| tree.color_of_pixel(*p, m(0), false)).collect();
    let count = tree.node_count();
    tree.free(b);
    let after: Vec<Option<Rgb>> = pixels.iter().map(|p| tree.color_of_pixel(*p, m(0), false)).collect();
    assert_eq!(before, after);
    assert_eq!(tree.node_count(), count);
}

#[test]
fn parents_stay_as_recent_as_their_children() {
    let mut tree = tree();
    let all = win(-4.0, 4.0, -4.0, 4.0);
    tree.refine(all, None, None, false, true, m(1)).unwrap();
    // the second split takes the bottom right quadrant, stamps its leaves 2 and raises the root
    tree.refine(all, None, None, false, true, m(2)).unwrap();
    assert!(tree.any_on_line_needs_redraw(fx(1.0), fx(3.0), fx(-2.0), m(2)));
    assert!(!tree.any_on_line_needs_redraw(fx(-3.0), fx(-1.0), fx(2.0), m(2)));
    // retiring lets the bottom right quadrant go of its children and raises it and the root to 9
    let w = win(-1.0, 1.0, -1.0, 1.0);
    tree.retire(w, Some(fx(2.0)), m(9)).unwrap();
    assert!(tree.any_on_line_needs_redraw(fx(1.0), fx(3.0), fx(-2.0), m(9)));
    assert!(!tree.any_on_line_needs_redraw(fx(-3.0), fx(-1.0), fx(2.0), m(9)));
}

#[test]
fn free_returns_the_blocks_depth_first_last_quadrant_first() {
    let mut tree = tree();
    let all = win(-4.0, 4.0, -4.0, 4.0);
    // the root takes the block at 4, then its last child the block at 8, and so on to its first
    // child, which takes the block at 20
    for _ in 0..5 {
        refine(&mut tree, all, 1).unwrap();
    }
    let b = tree.retire(win(-1.0, 1.0, -1.0, 1.0), Some(fx(8.0)), m(2)).unwrap();
    assert_eq!(b.to_node().to_index(), 4);
    // the free list gets 4, 8, 12, 16, 20: the next split takes the block at 20
    tree.free(b);
    refine(&mut tree, all, 3).unwrap();
    let b = tree.retire(win(-1.0, 1.0, -1.0, 1.0), Some(fx(8.0)), m(4)).unwrap();
    assert_eq!(b.to_node().to_index(), 20);
}
