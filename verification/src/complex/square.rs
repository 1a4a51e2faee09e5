//! Closed squares of the complex plane given by center and radius.
use vstd::prelude::*;
use crate::complex::fixed::{Fixed, Real, Imag, fits_i64};

verus! {

/// The closed square `[real_mid - rad, real_mid + rad] x [imag_mid - rad, imag_mid + rad]`,
/// in raw fixed point units.
pub ghost struct SquareView {
    pub real_mid: int,
    pub imag_mid: int,
    pub rad: int,
}

/// The tolerance for a square built from imprecise bounds: `1e-4` converted to fixed point.
pub open spec fn square_tolerance() -> int {
    28823037615171
}

/// `|x|`.
pub open spec fn abs(x: int) -> int {
    if x < 0 { -x } else { x }
}

/// `x` and `-x` are both representable.
pub open spec fn abs_fits(x: int) -> bool {
    fits_i64(x) && x != i64::MIN
}

/// The checks of `Square::try_new` that come before the square is built.
pub open spec fn try_new_accepts(real_lo: int, real_hi: int, imag_lo: int, imag_hi: int) -> bool {
    &&& real_lo < real_hi
    &&& imag_lo < imag_hi
    &&& abs((real_hi - real_lo) - (imag_hi - imag_lo)) <= square_tolerance()
}

impl SquareView {
    /// The closed square holds the point.
    pub open spec fn contains_point(self, p: (int, int)) -> bool {
        abs(self.real_mid - p.0) <= self.rad && abs(self.imag_mid - p.1) <= self.rad
    }
}

/// A closed square of the complex plane.
#[derive(Clone, Copy, PartialEq, Eq, Structural, Debug)]
pub struct Square {
    real_mid: Real,
    imag_mid: Imag,
    rad: Fixed,
}

impl View for Square {
    type V = SquareView;

    closed spec fn view(&self) -> SquareView {
        SquareView { real_mid: self.real_mid@, imag_mid: self.imag_mid@, rad: self.rad@ }
    }
}

impl Square {
    /// A square from bounds that may be slightly imprecise, as for pixels:
    /// `None` if the rectangle is empty or its width and height differ by more than the tolerance.
    /// The center is rounded down, and the radius is a quarter of the sum of width and height, rounded down.
    pub fn try_new(real_lo: Real, real_hi: Real, imag_lo: Imag, imag_hi: Imag) -> (r: Option<Self>)
        requires
            real_lo@ < real_hi@ && imag_lo@ < imag_hi@ ==> fits_i64(real_hi@ - real_lo@) && fits_i64(
                imag_hi@ - imag_lo@,
            ),
            try_new_accepts(real_lo@, real_hi@, imag_lo@, imag_hi@) ==> {
                &&& fits_i64(real_lo@ + real_hi@)
                &&& fits_i64(imag_lo@ + imag_hi@)
                &&& fits_i64((real_hi@ - real_lo@) + (imag_hi@ - imag_lo@))
            },
        ensures
            r.is_some() <==> try_new_accepts(real_lo@, real_hi@, imag_lo@, imag_hi@),
            r matches Some(s) ==> s@ == (SquareView {
                real_mid: (real_lo@ + real_hi@) / 2,
                imag_mid: (imag_lo@ + imag_hi@) / 2,
                rad: ((real_hi@ - real_lo@) + (imag_hi@ - imag_lo@)) / 2 / 2,
            }),
    {
        if !(real_lo.0 <= real_hi.0 && imag_lo.0 <= imag_hi.0) {
            return None;
        }
        if !(real_lo.0 < real_hi.0 && imag_lo.0 < imag_hi.0) {
            return None;
        }
        let real_diameter = real_hi.sub(real_lo);
        let imag_diameter = imag_hi.sub(imag_lo);
        let tolerance = Fixed::from_bits(28823037615171);
        if real_diameter.sub(imag_diameter).abs().0 > tolerance.0 {
            return None;
        }
        Some(
            Square {
                real_mid: real_lo.add(real_hi).div2_floor(),
                imag_mid: imag_lo.add(imag_hi).div2_floor(),
                rad: real_diameter.add(imag_diameter).div2_floor().div2_floor(),
            },
        )
    }

    /// A square from exact bounds, as the tree's domains have: `None` if the rectangle is empty,
    /// not square, or its center or radius is not a whole number of raw units.
    pub fn new_exact(real_lo: Real, real_hi: Real, imag_lo: Imag, imag_hi: Imag) -> (r: Option<Self>)
        requires
            real_lo@ < real_hi@ && imag_lo@ < imag_hi@ ==> fits_i64(real_hi@ - real_lo@) && fits_i64(
                imag_hi@ - imag_lo@,
            ),
            real_lo@ < real_hi@ && imag_lo@ < imag_hi@ && real_hi@ - real_lo@ == imag_hi@ - imag_lo@
                ==> fits_i64(real_lo@ + real_hi@) && fits_i64(imag_lo@ + imag_hi@),
        ensures
            r.is_some() <==> {
                &&& real_lo@ < real_hi@
                &&& imag_lo@ < imag_hi@
                &&& real_hi@ - real_lo@ == imag_hi@ - imag_lo@
                &&& (real_lo@ + real_hi@) % 2 == 0
                &&& (imag_lo@ + imag_hi@) % 2 == 0
                &&& (real_hi@ - real_lo@) % 2 == 0
            },
            r matches Some(s) ==> s@ == (SquareView {
                real_mid: (real_lo@ + real_hi@) / 2,
                imag_mid: (imag_lo@ + imag_hi@) / 2,
                rad: (real_hi@ - real_lo@) / 2,
            }),
    {
        if !(real_lo.0 < real_hi.0 && imag_lo.0 < imag_hi.0) {
            return None;
        }
        if real_hi.sub(real_lo).0 != imag_hi.sub(imag_lo).0 {
            return None;
        }
        let real_mid = match real_lo.add(real_hi).div2_exact_checked() {
            Some(v) => v,
            None => {
                return None;
            },
        };
        let imag_mid = match imag_lo.add(imag_hi).div2_exact_checked() {
            Some(v) => v,
            None => {
                return None;
            },
        };
        let rad = match real_hi.sub(real_lo).div2_exact_checked() {
            Some(v) => v,
            None => {
                return None;
            },
        };
        Some(Square { real_mid, imag_mid, rad })
    }

    pub fn real_lo(self) -> (r: Real)
        requires
            fits_i64(self@.real_mid - self@.rad),
        ensures
            r@ == self@.real_mid - self@.rad,
    {
        self.real_mid.sub(self.rad)
    }

    pub fn real_hi(self) -> (r: Real)
        requires
            fits_i64(self@.real_mid + self@.rad),
        ensures
            r@ == self@.real_mid + self@.rad,
    {
        self.real_mid.add(self.rad)
    }

    pub fn real_mid(self) -> (r: Real)
        ensures
            r@ == self@.real_mid,
    {
        self.real_mid
    }

    pub fn imag_lo(self) -> (r: Imag)
        requires
            fits_i64(self@.imag_mid - self@.rad),
        ensures
            r@ == self@.imag_mid - self@.rad,
    {
        self.imag_mid.sub(self.rad)
    }

    pub fn imag_hi(self) -> (r: Imag)
        requires
            fits_i64(self@.imag_mid + self@.rad),
        ensures
            r@ == self@.imag_mid + self@.rad,
    {
        self.imag_mid.add(self.rad)
    }

    pub fn imag_mid(self) -> (r: Imag)
        ensures
            r@ == self@.imag_mid,
    {
        self.imag_mid
    }

    /// The center.
    pub fn mid(self) -> (r: (Real, Imag))
        ensures
            r.0@ == self@.real_mid,
            r.1@ == self@.imag_mid,
    {
        (self.real_mid, self.imag_mid)
    }

    /// The radius, half the side length.
    pub fn rad(self) -> (r: Fixed)
        ensures
            r@ == self@.rad,
    {
        self.rad
    }

    /// Whether the closed square holds the point.
    pub fn contains_point(self, p: (Real, Imag)) -> (r: bool)
        requires
            abs_fits(self@.real_mid - p.0@),
            abs_fits(self@.imag_mid - p.1@),
        ensures
            r == self@.contains_point((p.0@, p.1@)),
    {
        let (re, im) = p;
        self.real_mid.sub(re).abs().0 <= self.rad.0 && self.imag_mid.sub(im).abs().0 <= self.rad.0
    }

    /// Whether `other` lies inside `self`.
    pub fn contains_square(self, other: Square) -> (r: bool)
        requires
            abs_fits(self@.real_mid - other@.real_mid),
            abs_fits(self@.imag_mid - other@.imag_mid),
            fits_i64(self@.rad - other@.rad),
        ensures
            r == (abs(self@.real_mid - other@.real_mid) <= self@.rad - other@.rad && abs(
                self@.imag_mid - other@.imag_mid,
            ) <= self@.rad - other@.rad),
    {
        let d = self.real_mid.sub(other.real_mid).abs().max(self.imag_mid.sub(other.imag_mid).abs());
        d.0 <= self.rad.sub(other.rad).0
    }

    /// Whether the closed squares share a point.
    pub fn overlaps(self, other: Self) -> (r: bool)
        requires
            abs_fits(self@.real_mid - other@.real_mid),
            abs_fits(self@.imag_mid - other@.imag_mid),
            fits_i64(self@.rad + other@.rad),
        ensures
            r == (abs(self@.real_mid - other@.real_mid) <= self@.rad + other@.rad && abs(
                self@.imag_mid - other@.imag_mid,
            ) <= self@.rad + other@.rad),
    {
        self.real_mid.sub(other.real_mid).abs().0 <= self.rad.add(other.rad).0 && self.imag_mid.sub(
            other.imag_mid,
        ).abs().0 <= self.rad.add(other.rad).0
    }
}

} // verus!
