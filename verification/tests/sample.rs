use fractal::complex::fixed::Fixed;
use fractal::complex::window::Window;
use fractal::sample::initial_window;

fn fx(f: f64) -> Fixed {
    Fixed::from_f64_bits(f.to_bits())
}

#[test]
fn initial_window_at_the_origin() {
    assert_eq!(initial_window((fx(0.0), fx(0.0))), Some(Window::new(fx(-2.0), fx(2.0), fx(-2.0), fx(2.0))));
}

#[test]
fn initial_window_follows_the_first_step() {
    // center (0.5^2 - 1^2, -2 * 1 * 0.5) = (-0.75, -1)
    assert_eq!(
        initial_window((fx(1.0), fx(0.5))),
        Some(Window::new(fx(-2.75), fx(1.25), fx(-3.0), fx(1.0)))
    );
}

#[test]
fn initial_window_refuses_what_does_not_fit() {
    // the square 36 overflows
    assert_eq!(initial_window((fx(6.0), fx(0.0))), None);
    // the center -25 fits, but the window's bounds and their sum do not
    assert_eq!(initial_window((fx(5.0), fx(0.0))), None);
    // the product 2 * 4 * 5 overflows
    assert_eq!(initial_window((fx(4.0), fx(5.0))), None);
    // the center (9 - 16, -24) fits, but the imaginary bounds' sum does not
    assert_eq!(initial_window((fx(4.0), fx(3.0))), None);
}

#[test]
fn initial_window_gives_up_on_a_square_before_the_product() {
    // 8^2 overflows, so the window is refused before 2 * 8 * -2 = -32, whose negation would not
    // fit, is ever negated
    assert_eq!(initial_window((fx(8.0), fx(-2.0))), None);
}
