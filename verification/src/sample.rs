//! Where the samples for a starting point of the iteration are worth taking.
use vstd::prelude::*;
use vstd::arithmetic::power2::lemma2_to64_rest;
use crate::complex::fixed::{Fixed, Real, Imag, fits_i64, mul_floor, one_bits};
use crate::complex::window::{Window, WindowView};

verus! {

/// The center of the disk outside of which the first step of `z -> z^2 + c` from `z0 = re + im i`
/// escapes: `(im^2 - re^2, -2 re im)`, with the fixed point products rounded down.
pub open spec fn escape_center(re: int, im: int) -> (int, int) {
    (mul_floor(im, im) - mul_floor(re, re), -(2 * mul_floor(re, im)))
}

/// The square window of radius `rad` around `mid`.
pub open spec fn window_around(mid: (int, int), rad: int) -> WindowView {
    WindowView { real_lo: mid.0 - rad, real_hi: mid.0 + rad, imag_lo: mid.1 - rad, imag_hi: mid.1 + rad }
}

/// The bounds of the window, and their sums and differences, are representable.
pub open spec fn window_fits(v: WindowView) -> bool {
    &&& fits_i64(v.real_lo)
    &&& fits_i64(v.real_hi)
    &&& fits_i64(v.imag_lo)
    &&& fits_i64(v.imag_hi)
    &&& v.sums_fit()
}

/// The window of radius 2 around `escape_center(z0)`: the points outside it escape on the first
/// step from `z0`, so the samples are worth taking inside it. `None` if a product overflows or the
/// window's bounds do not fit.
pub fn initial_window(z0: (Real, Imag)) -> (r: Option<Window>)
    requires
        fits_i64(mul_floor(z0.1@, z0.1@)) && fits_i64(mul_floor(z0.0@, z0.0@)) ==> fits_i64(
            mul_floor(z0.1@, z0.1@) - mul_floor(z0.0@, z0.0@),
        ),
        fits_i64(mul_floor(z0.1@, z0.1@)) && fits_i64(mul_floor(z0.0@, z0.0@)) && fits_i64(2 * mul_floor(z0.0@, z0.1@))
            ==> 2 * mul_floor(z0.0@, z0.1@) != i64::MIN,
    ensures
        ({
            let (re, im) = (z0.0@, z0.1@);
            let ok = fits_i64(mul_floor(im, im)) && fits_i64(mul_floor(re, re)) && fits_i64(mul_floor(re, im))
                && fits_i64(2 * mul_floor(re, im));
            let v = window_around(escape_center(re, im), 2 * one_bits());
            &&& r is Some <==> ok && window_fits(v)
            &&& r matches Some(w) ==> w@ == v
        }),
{
    let (z0_real, z0_imag) = z0;
    let ii = match z0_imag.mul_checked(z0_imag) {
        Some(v) => v,
        None => {
            return None;
        },
    };
    let rr = match z0_real.mul_checked(z0_real) {
        Some(v) => v,
        None => {
            return None;
        },
    };
    let re_mid = ii.sub(rr);
    let ri = match z0_real.mul_checked(z0_imag) {
        Some(v) => v,
        None => {
            return None;
        },
    };
    let ri2 = match ri.mul2_checked() {
        Some(v) => v,
        None => {
            return None;
        },
    };
    let imag = ri2.neg();
    proof {
        lemma2_to64_rest();
    }
    let rad = Fixed::one().mul2();
    Window::from_mid_rad(re_mid, imag, rad, rad)
}

} // verus!
