use fractal::complex::domain::Domain;
use fractal::complex::fixed::Fixed;
use fractal::complex::square::Square;
use fractal::complex::window::Window;

fn fx(f: f64) -> Fixed {
    Fixed::from_f64_bits(f.to_bits())
}

fn win(real_lo: f64, real_hi: f64, imag_lo: f64, imag_hi: f64) -> Window {
    Window::new(fx(real_lo), fx(real_hi), fx(imag_lo), fx(imag_hi))
}

#[test]
fn domain_default_is_the_square_of_radius_four() {
    let d = Domain::default_domain();
    assert_eq!(d.rad(), fx(4.0));
    assert_eq!(d.mid(), (fx(0.0), fx(0.0)));
    assert_eq!(d.real_lo(), fx(-4.0));
    assert_eq!(d.real_hi(), fx(4.0));
    assert_eq!(d.imag_lo(), fx(-4.0));
    assert_eq!(d.imag_hi(), fx(4.0));
}

#[test]
fn domain_split_into_quadrants() {
    let d = Domain::default_domain();
    let c = d.split().unwrap();
    // quadrant 0 is the top left, 1 the top right, 2 the bottom left, 3 the bottom right
    assert_eq!(c[0].mid(), (fx(-2.0), fx(2.0)));
    assert_eq!(c[1].mid(), (fx(2.0), fx(2.0)));
    assert_eq!(c[2].mid(), (fx(-2.0), fx(-2.0)));
    assert_eq!(c[3].mid(), (fx(2.0), fx(-2.0)));
    for q in c {
        assert_eq!(q.rad(), fx(2.0));
    }
    // the quadrants partition the square
    for (k, p) in [(fx(-1.0), fx(1.0)), (fx(1.0), fx(1.0)), (fx(-1.0), fx(-1.0)), (fx(1.0), fx(-1.0))]
        .into_iter()
        .enumerate()
    {
        assert_eq!(d.child_offset_containing(p), k);
        assert_eq!(d.quadrant_offset_containing(p), k);
        for (j, q) in c.iter().enumerate() {
            assert_eq!(q.contains_point(p), j == k);
        }
    }
    // the center belongs to the top right quadrant
    assert_eq!(d.child_offset_containing((fx(0.0), fx(0.0))), 1);
}

#[test]
fn domain_split_stops_at_the_smallest_radius() {
    let mut d = Domain::default_domain();
    let mut splits = 0;
    while let Some(c) = d.split() {
        d = c[0];
        splits += 1;
    }
    // the radius halves from 2^60 raw units down to one
    assert_eq!(splits, 60);
    assert_eq!(d.rad(), Fixed::from_bits(1));
}

#[test]
fn domain_contains_point_is_half_open() {
    let d = Domain::default_domain();
    assert!(d.contains_point((fx(-4.0), fx(-4.0))));
    assert!(!d.contains_point((fx(4.0), fx(0.0))));
    assert!(!d.contains_point((fx(0.0), fx(4.0))));
    assert!(d.contains_point((fx(3.5), fx(-3.5))));
}

#[test]
fn domain_uninit_is_all_zero() {
    let u = Domain::uninit();
    assert_eq!(u.rad(), Fixed::zero());
    assert_eq!(u.mid(), (Fixed::zero(), Fixed::zero()));
}

#[test]
fn window_constructors() {
    assert!(Window::try_new(fx(1.0), fx(1.0), fx(0.0), fx(1.0)).is_none());
    assert!(Window::try_new(fx(1.0), fx(0.5), fx(0.0), fx(1.0)).is_none());
    let w = Window::try_new(fx(-1.0), fx(3.0), fx(0.0), fx(2.0)).unwrap();
    assert_eq!(w.real_lo(), fx(-1.0));
    assert_eq!(w.real_hi(), fx(3.0));
    assert_eq!(w.imag_lo(), fx(0.0));
    assert_eq!(w.imag_hi(), fx(2.0));
    assert_eq!(w.real_mid(), fx(1.0));
    assert_eq!(w.imag_mid(), fx(1.0));
    assert_eq!(w.real_rad(), fx(2.0));
    assert_eq!(w.imag_rad(), fx(1.0));
    assert_eq!(w.mid(), (fx(1.0), fx(1.0)));
    assert_eq!(Window::from_lo_hi(fx(-1.0), fx(3.0), fx(0.0), fx(2.0)), Some(w));
    // a width that does not fit is refused
    assert_eq!(Window::from_lo_hi(fx(-20.0), fx(20.0), fx(0.0), fx(2.0)), None);
    assert_eq!(Window::from_mid_rad(fx(1.0), fx(1.0), fx(2.0), fx(1.0)), Some(w));
    assert_eq!(Window::from_mid_rad(fx(30.0), fx(1.0), fx(2.0), fx(1.0)), None);
    assert_eq!(Window::from_center_size(fx(1.0), fx(1.0), fx(4.0), fx(2.0)), w);
    let d = Domain::default_domain();
    assert_eq!(Window::from_domain(d), win(-4.0, 4.0, -4.0, 4.0));
}

#[test]
fn window_overlaps_contains_intersect() {
    let a = win(0.0, 2.0, 0.0, 2.0);
    let b = win(1.0, 3.0, 1.0, 3.0);
    let c = win(2.0, 4.0, 0.0, 1.0);
    let d = win(2.5, 4.0, 0.0, 1.0);
    assert!(a.overlaps(b));
    // closed windows that share an edge overlap
    assert!(a.overlaps(c));
    assert!(!a.overlaps(d));
    assert_eq!(a.intersect(b), Some(win(1.0, 2.0, 1.0, 2.0)));
    assert_eq!(a.intersect(d), None);
    // touching windows meet in a degenerate rectangle, which is no window
    assert_eq!(a.intersect(c), None);
    assert!(a.contains(win(0.5, 1.5, 0.0, 2.0)));
    assert!(!a.contains(b));
    assert!(a.contains_point((fx(2.0), fx(0.0))));
    assert!(!a.contains_point((fx(2.5), fx(0.0))));
}

#[test]
fn square_constructors() {
    let s = Square::try_new(fx(-1.0), fx(1.0), fx(2.0), fx(4.0)).unwrap();
    assert_eq!(s.mid(), (fx(0.0), fx(3.0)));
    assert_eq!(s.rad(), fx(1.0));
    assert_eq!(s.real_lo(), fx(-1.0));
    assert_eq!(s.real_hi(), fx(1.0));
    assert_eq!(s.imag_lo(), fx(2.0));
    assert_eq!(s.imag_hi(), fx(4.0));
    assert_eq!(s.real_mid(), fx(0.0));
    assert_eq!(s.imag_mid(), fx(3.0));
    // not square enough
    assert!(Square::try_new(fx(-1.0), fx(1.0), fx(2.0), fx(5.0)).is_none());
    // within the tolerance of 1e-4
    assert!(Square::try_new(fx(-1.0), fx(1.0), fx(2.0), fx(4.00005)).is_some());
    assert!(Square::try_new(fx(1.0), fx(-1.0), fx(2.0), fx(4.0)).is_none());
    assert_eq!(Square::new_exact(fx(-1.0), fx(1.0), fx(2.0), fx(4.0)), Some(s));
    assert_eq!(Square::new_exact(fx(-1.0), fx(1.0), fx(2.0), fx(4.5)), None);
    // an odd raw width cannot be halved exactly
    assert_eq!(
        Square::new_exact(Fixed::from_bits(0), Fixed::from_bits(3), Fixed::from_bits(0), Fixed::from_bits(3)),
        None
    );
}

#[test]
fn square_containment() {
    let s = Square::new_exact(fx(-2.0), fx(2.0), fx(-2.0), fx(2.0)).unwrap();
    let t = Square::new_exact(fx(-1.0), fx(1.0), fx(0.0), fx(2.0)).unwrap();
    let u = Square::new_exact(fx(2.0), fx(4.0), fx(2.0), fx(4.0)).unwrap();
    let v = Square::new_exact(fx(3.0), fx(5.0), fx(3.0), fx(5.0)).unwrap();
    assert!(s.contains_point((fx(2.0), fx(-2.0))));
    assert!(!s.contains_point((fx(2.5), fx(0.0))));
    assert!(s.contains_square(t));
    assert!(!t.contains_square(s));
    assert!(s.overlaps(u));
    assert!(!s.overlaps(v));
    assert!(u.overlaps(v));
}
