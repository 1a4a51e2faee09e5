//! Axis-aligned rectangles of the complex plane, closed on all sides.
use vstd::prelude::*;
use crate::complex::fixed::{Fixed, Real, Imag, fits_i64};
use crate::complex::domain::{Domain, DomainView};

verus! {

/// The rectangle `[real_lo, real_hi] x [imag_lo, imag_hi]`, in raw fixed point units.
pub ghost struct WindowView {
    pub real_lo: int,
    pub real_hi: int,
    pub imag_lo: int,
    pub imag_hi: int,
}

impl WindowView {
    /// The rectangle has positive width and height.
    pub open spec fn wf(self) -> bool {
        self.real_lo < self.real_hi && self.imag_lo < self.imag_hi
    }

    /// The sums and differences of the bounds are representable,
    /// so the center and the radii can be computed.
    pub open spec fn sums_fit(self) -> bool {
        &&& fits_i64(self.real_hi + self.real_lo)
        &&& fits_i64(self.imag_hi + self.imag_lo)
        &&& fits_i64(self.real_hi - self.real_lo)
        &&& fits_i64(self.imag_hi - self.imag_lo)
    }

    /// The closed rectangle holds the point.
    pub open spec fn contains_point(self, p: (int, int)) -> bool {
        self.real_lo <= p.0 <= self.real_hi && self.imag_lo <= p.1 <= self.imag_hi
    }

    /// The closed rectangles share at least one point.
    pub open spec fn overlaps(self, other: WindowView) -> bool {
        &&& max(self.real_lo, other.real_lo) <= min(self.real_hi, other.real_hi)
        &&& max(self.imag_lo, other.imag_lo) <= min(self.imag_hi, other.imag_hi)
    }

    /// `other` lies inside `self`.
    pub open spec fn contains(self, other: WindowView) -> bool {
        &&& self.real_lo <= other.real_lo
        &&& other.real_hi <= self.real_hi
        &&& self.imag_lo <= other.imag_lo
        &&& other.imag_hi <= self.imag_hi
    }

    /// The componentwise intersection of the bounds.
    pub open spec fn meet(self, other: WindowView) -> WindowView {
        WindowView {
            real_lo: max(self.real_lo, other.real_lo),
            real_hi: min(self.real_hi, other.real_hi),
            imag_lo: max(self.imag_lo, other.imag_lo),
            imag_hi: min(self.imag_hi, other.imag_hi),
        }
    }
}

pub open spec fn max(a: int, b: int) -> int {
    if a > b { a } else { b }
}

pub open spec fn min(a: int, b: int) -> int {
    if a < b { a } else { b }
}

/// The rectangle a domain covers.
pub open spec fn window_of_domain(d: DomainView) -> WindowView {
    WindowView { real_lo: d.real_lo(), real_hi: d.real_hi(), imag_lo: d.imag_lo(), imag_hi: d.imag_hi() }
}

/// The closed rectangles overlap exactly when they have a common point.
pub proof fn lemma_overlaps_iff_common_point(a: WindowView, b: WindowView)
    ensures
        a.overlaps(b) <==> exists|p: (int, int)| a.contains_point(p) && b.contains_point(p),
{
    if a.overlaps(b) {
        let p = (max(a.real_lo, b.real_lo), max(a.imag_lo, b.imag_lo));
        assert(a.contains_point(p) && b.contains_point(p));
    }
}

/// The meet of two rectangles holds exactly the points they share.
pub proof fn lemma_meet_is_intersection(a: WindowView, b: WindowView, p: (int, int))
    ensures
        a.meet(b).contains_point(p) <==> a.contains_point(p) && b.contains_point(p),
{
}

/// An axis-aligned rectangle of the complex plane; the closed rectangle
/// `[real_lo, real_hi] x [imag_lo, imag_hi]`.
#[derive(Clone, Copy, PartialEq, Eq, Structural, Debug)]
pub struct Window {
    real_lo: Real,
    real_hi: Real,
    imag_lo: Imag,
    imag_hi: Imag,
}

impl View for Window {
    type V = WindowView;

    closed spec fn view(&self) -> WindowView {
        WindowView {
            real_lo: self.real_lo@,
            real_hi: self.real_hi@,
            imag_lo: self.imag_lo@,
            imag_hi: self.imag_hi@,
        }
    }
}

impl Window {
    /// The window with the given bounds, or `None` if it would be empty
    /// (zero width or height) or so big that its center or radii overflow.
    pub fn from_lo_hi(real_lo: Real, real_hi: Real, imag_lo: Imag, imag_hi: Imag) -> (r: Option<Self>)
        ensures
            ({
                let v = WindowView { real_lo: real_lo@, real_hi: real_hi@, imag_lo: imag_lo@, imag_hi: imag_hi@ };
                &&& r.is_some() <==> v.wf() && v.sums_fit()
                &&& r matches Some(w) ==> w@ == v
            }),
    {
        if !(real_lo.0 < real_hi.0 && imag_lo.0 < imag_hi.0) {
            return None;
        }
        if real_hi.add_checked(real_lo).is_none() {
            return None;
        }
        if imag_hi.add_checked(imag_lo).is_none() {
            return None;
        }
        if real_hi.sub_checked(real_lo).is_none() {
            return None;
        }
        if imag_hi.sub_checked(imag_lo).is_none() {
            return None;
        }
        Some(Window { real_lo, real_hi, imag_lo, imag_hi })
    }

    /// The window `[real_mid - real_rad, real_mid + real_rad] x [imag_mid - imag_rad, imag_mid + imag_rad]`,
    /// or `None` if a bound, the center or a radius overflows.
    pub fn from_mid_rad(real_mid: Real, imag_mid: Imag, real_rad: Real, imag_rad: Imag) -> (r: Option<Self>)
        requires
            real_rad@ > 0,
            imag_rad@ > 0,
        ensures
            ({
                let v = WindowView {
                    real_lo: real_mid@ - real_rad@,
                    real_hi: real_mid@ + real_rad@,
                    imag_lo: imag_mid@ - imag_rad@,
                    imag_hi: imag_mid@ + imag_rad@,
                };
                let bounds_fit = fits_i64(v.real_lo) && fits_i64(v.real_hi) && fits_i64(v.imag_lo)
                    && fits_i64(v.imag_hi);
                &&& r.is_some() <==> bounds_fit && v.sums_fit()
                &&& r matches Some(w) ==> w@ == v
            }),
    {
        let real_lo = match real_mid.sub_checked(real_rad) {
            Some(v) => v,
            None => {
                return None;
            },
        };
        let real_hi = match real_mid.add_checked(real_rad) {
            Some(v) => v,
            None => {
                return None;
            },
        };
        let imag_lo = match imag_mid.sub_checked(imag_rad) {
            Some(v) => v,
            None => {
                return None;
            },
        };
        let imag_hi = match imag_mid.add_checked(imag_rad) {
            Some(v) => v,
            None => {
                return None;
            },
        };
        Self::from_lo_hi(real_lo, real_hi, imag_lo, imag_hi)
    }

    /// The window with the given bounds, or `None` if it would be empty.
    pub fn try_new(real_lo: Real, real_hi: Real, imag_lo: Imag, imag_hi: Imag) -> (r: Option<Self>)
        ensures
            ({
                let v = WindowView { real_lo: real_lo@, real_hi: real_hi@, imag_lo: imag_lo@, imag_hi: imag_hi@ };
                &&& r.is_some() <==> v.wf()
                &&& r matches Some(w) ==> w@ == v
            }),
    {
        if !(real_lo.0 < real_hi.0 && imag_lo.0 < imag_hi.0) {
            return None;
        }
        Some(Window { real_lo, real_hi, imag_lo, imag_hi })
    }

    /// The window with the given bounds, which must not be empty.
    pub fn new(real_lo: Real, real_hi: Real, imag_lo: Imag, imag_hi: Imag) -> (r: Self)
        requires
            real_lo@ < real_hi@,
            imag_lo@ < imag_hi@,
        ensures
            r@ == (WindowView { real_lo: real_lo@, real_hi: real_hi@, imag_lo: imag_lo@, imag_hi: imag_hi@ }),
    {
        Window { real_lo, real_hi, imag_lo, imag_hi }
    }

    /// The window centered at the point with the given diameters, each halved rounding down;
    /// the bounds must be representable and the halved diameters positive.
    pub fn from_center_size(real_mid: Real, imag_mid: Imag, real_diam: Real, imag_diam: Imag) -> (r: Self)
        requires
            real_diam@ / 2 > 0,
            imag_diam@ / 2 > 0,
            fits_i64(real_mid@ - real_diam@ / 2),
            fits_i64(real_mid@ + real_diam@ / 2),
            fits_i64(imag_mid@ - imag_diam@ / 2),
            fits_i64(imag_mid@ + imag_diam@ / 2),
        ensures
            r@ == (WindowView {
                real_lo: real_mid@ - real_diam@ / 2,
                real_hi: real_mid@ + real_diam@ / 2,
                imag_lo: imag_mid@ - imag_diam@ / 2,
                imag_hi: imag_mid@ + imag_diam@ / 2,
            }),
    {
        let real_rad = real_diam.div2_floor();
        let imag_rad = imag_diam.div2_floor();
        let real_lo = real_mid.sub(real_rad);
        let real_hi = real_mid.add(real_rad);
        let imag_lo = imag_mid.sub(imag_rad);
        let imag_hi = imag_mid.add(imag_rad);
        Self::new(real_lo, real_hi, imag_lo, imag_hi)
    }

    /// The rectangle a domain covers.
    pub fn from_domain(dom: Domain) -> (r: Self)
        requires
            dom@.wf(),
        ensures
            r@ == window_of_domain(dom@),
            r@.wf(),
    {
        Window { real_lo: dom.real_lo(), real_hi: dom.real_hi(), imag_lo: dom.imag_lo(), imag_hi: dom.imag_hi() }
    }

    pub fn real_lo(self) -> (r: Real)
        ensures
            r@ == self@.real_lo,
    {
        self.real_lo
    }

    pub fn real_hi(self) -> (r: Real)
        ensures
            r@ == self@.real_hi,
    {
        self.real_hi
    }

    /// The center of the real range, rounded down.
    pub fn real_mid(self) -> (r: Real)
        requires
            fits_i64(self@.real_hi + self@.real_lo),
        ensures
            r@ == (self@.real_hi + self@.real_lo) / 2,
    {
        self.real_hi.add(self.real_lo).div2_floor()
    }

    /// Half the width, rounded down.
    pub fn real_rad(self) -> (r: Real)
        requires
            fits_i64(self@.real_hi - self@.real_lo),
        ensures
            r@ == (self@.real_hi - self@.real_lo) / 2,
    {
        self.real_hi.sub(self.real_lo).div2_floor()
    }

    pub fn imag_lo(self) -> (r: Imag)
        ensures
            r@ == self@.imag_lo,
    {
        self.imag_lo
    }

    pub fn imag_hi(self) -> (r: Imag)
        ensures
            r@ == self@.imag_hi,
    {
        self.imag_hi
    }

    /// The center of the imaginary range, rounded down.
    pub fn imag_mid(self) -> (r: Imag)
        requires
            fits_i64(self@.imag_hi + self@.imag_lo),
        ensures
            r@ == (self@.imag_hi + self@.imag_lo) / 2,
    {
        self.imag_hi.add(self.imag_lo).div2_floor()
    }

    /// Half the height, rounded down.
    pub fn imag_rad(self) -> (r: Imag)
        requires
            fits_i64(self@.imag_hi - self@.imag_lo),
        ensures
            r@ == (self@.imag_hi - self@.imag_lo) / 2,
    {
        self.imag_hi.sub(self.imag_lo).div2_floor()
    }

    /// The center, rounded down.
    pub fn mid(self) -> (r: (Real, Imag))
        requires
            fits_i64(self@.real_hi + self@.real_lo),
            fits_i64(self@.imag_hi + self@.imag_lo),
        ensures
            r.0@ == (self@.real_hi + self@.real_lo) / 2,
            r.1@ == (self@.imag_hi + self@.imag_lo) / 2,
    {
        (self.real_mid(), self.imag_mid())
    }

    /// The intersection, or `None` if it would be empty or too big (see `from_lo_hi`).
    pub fn intersect(self, other: Self) -> (r: Option<Self>)
        ensures
            r.is_some() <==> self@.meet(other@).wf() && self@.meet(other@).sums_fit(),
            r matches Some(w) ==> w@ == self@.meet(other@),
    {
        let real_lo = self.real_lo.max(other.real_lo);
        let real_hi = self.real_hi.min(other.real_hi);
        let imag_lo = self.imag_lo.max(other.imag_lo);
        let imag_hi = self.imag_hi.min(other.imag_hi);
        Self::from_lo_hi(real_lo, real_hi, imag_lo, imag_hi)
    }

    /// Whether the closed rectangles share a point.
    pub fn overlaps(self, other: Self) -> (r: bool)
        ensures
            r == self@.overlaps(other@),
    {
        let real_lo = self.real_lo.max(other.real_lo);
        let real_hi = self.real_hi.min(other.real_hi);
        let imag_lo = self.imag_lo.max(other.imag_lo);
        let imag_hi = self.imag_hi.min(other.imag_hi);
        real_lo.0 <= real_hi.0 && imag_lo.0 <= imag_hi.0
    }

    /// Whether `other` lies inside `self`.
    pub fn contains(self, other: Self) -> (r: bool)
        ensures
            r == self@.contains(other@),
    {
        self.real_lo.0 <= other.real_lo.0 && other.real_hi.0 <= self.real_hi.0 && self.imag_lo.0
            <= other.imag_lo.0 && other.imag_hi.0 <= self.imag_hi.0
    }

    /// Whether the closed rectangle holds the point.
    pub fn contains_point(self, p: (Real, Imag)) -> (r: bool)
        ensures
            r == self@.contains_point((p.0@, p.1@)),
    {
        let (re, im) = p;
        self.real_lo.0 <= re.0 && re.0 <= self.real_hi.0 && self.imag_lo.0 <= im.0 && im.0 <= self.imag_hi.0
    }
}

} // verus!
