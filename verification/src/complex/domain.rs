//! Square regions obtained by repeatedly splitting the default domain into quadrants.
use vstd::prelude::*;
use vstd::arithmetic::power2::{pow2, lemma2_to64, lemma2_to64_rest};
use crate::complex::fixed::{Fixed, Real, Imag, fits_i64};

verus! {

/// Which of the four quadrants of a split domain, in `0..4`:
/// ```text
/// 0 1
/// 2 3
/// ```
pub type Offset = usize;

/// The square `[real_mid - rad, real_mid + rad) x [imag_mid - rad, imag_mid + rad)`,
/// in raw fixed point units.
pub ghost struct DomainView {
    pub real_mid: int,
    pub imag_mid: int,
    pub rad: int,
}

impl DomainView {
    /// The square is non-empty and its corners are representable.
    pub open spec fn wf(self) -> bool {
        &&& self.rad > 0
        &&& self.corners_fit()
    }

    /// The corners of the square are representable.
    pub open spec fn corners_fit(self) -> bool {
        &&& fits_i64(self.real_mid - self.rad)
        &&& fits_i64(self.real_mid + self.rad)
        &&& fits_i64(self.imag_mid - self.rad)
        &&& fits_i64(self.imag_mid + self.rad)
    }

    pub open spec fn real_lo(self) -> int {
        self.real_mid - self.rad
    }

    pub open spec fn real_hi(self) -> int {
        self.real_mid + self.rad
    }

    pub open spec fn imag_lo(self) -> int {
        self.imag_mid - self.rad
    }

    pub open spec fn imag_hi(self) -> int {
        self.imag_mid + self.rad
    }

    /// The half-open square holds the point.
    pub open spec fn contains(self, p: (int, int)) -> bool {
        &&& self.real_lo() <= p.0 < self.real_hi()
        &&& self.imag_lo() <= p.1 < self.imag_hi()
    }

    /// The square can be split into four quadrants without rounding.
    pub open spec fn can_split(self) -> bool {
        self.rad % 2 == 0 && self.rad / 2 > 0
    }

    /// The quadrant `k` of the square, numbered row by row from the top left.
    pub open spec fn child(self, k: int) -> DomainView {
        let h = self.rad / 2;
        DomainView {
            real_mid: if k == 0 || k == 2 { self.real_mid - h } else { self.real_mid + h },
            imag_mid: if k == 0 || k == 1 { self.imag_mid + h } else { self.imag_mid - h },
            rad: h,
        }
    }

    /// The quadrant in which the point falls, the point need not be inside the square.
    pub open spec fn quadrant(self, p: (int, int)) -> int {
        (if p.0 < self.real_mid { 0int } else { 1int }) + (if p.1 >= self.imag_mid { 0int } else { 2int })
    }

    /// The center of the square.
    pub open spec fn mid(self) -> (int, int) {
        (self.real_mid, self.imag_mid)
    }

    /// `other` lies inside `self`.
    pub open spec fn contains_domain(self, other: DomainView) -> bool {
        &&& self.real_lo() <= other.real_lo()
        &&& other.real_hi() <= self.real_hi()
        &&& self.imag_lo() <= other.imag_lo()
        &&& other.imag_hi() <= self.imag_hi()
    }
}

/// The default domain, `[-4, 4) x [-4, 4)`.
pub open spec fn default_domain() -> DomainView {
    DomainView { real_mid: 0, imag_mid: 0, rad: 4 * pow2(58) as int }
}

/// A square of the complex plane obtained by splitting the default domain,
/// so that no rounding ever occurs.
#[derive(Clone, Copy, PartialEq, Eq, Structural, Debug)]
pub struct Domain {
    real_mid: Real,
    imag_mid: Imag,
    rad: Fixed,
}

impl View for Domain {
    type V = DomainView;

    closed spec fn view(&self) -> DomainView {
        DomainView { real_mid: self.real_mid@, imag_mid: self.imag_mid@, rad: self.rad@ }
    }
}

/// Each quadrant of a splittable well-formed square is well-formed and lies inside it.
pub proof fn lemma_child_inside(d: DomainView, k: int)
    requires
        d.wf(),
        d.can_split(),
        0 <= k < 4,
    ensures
        d.child(k).wf(),
        d.contains_domain(d.child(k)),
        d.child(k).rad * 2 == d.rad,
{
}

/// The four quadrants partition the square: a point of the square lies in exactly the
/// quadrant `quadrant` names, and a point of a quadrant lies in the square.
pub proof fn lemma_split_partitions(d: DomainView, p: (int, int))
    requires
        d.wf(),
        d.can_split(),
    ensures
        d.contains(p) ==> d.child(d.quadrant(p)).contains(p),
        forall|k: int| 0 <= k < 4 && #[trigger] d.child(k).contains(p) ==> d.contains(p) && k == d.quadrant(p),
{
}

/// A point strictly inside a quadrant (as the center of any square inside it is)
/// is never the center of the square.
pub proof fn lemma_inner_point_not_center(d: DomainView, k: int, e: DomainView)
    requires
        d.wf(),
        d.can_split(),
        0 <= k < 4,
        e.rad > 0,
        d.child(k).contains_domain(e),
    ensures
        e.mid() != d.mid(),
        d.child(k).contains(e.mid()),
        d.quadrant(e.mid()) == k,
{
}

impl Domain {
    /// The default domain, `[-4, 4) x [-4, 4)`.
    pub fn default_domain() -> (r: Self)
        ensures
            r@ == default_domain(),
            r@.wf(),
    {
        proof {
            lemma2_to64();
            lemma2_to64_rest();
        }
        let four = Fixed::one().mul2().mul2();
        Domain { real_mid: Fixed::zero(), imag_mid: Fixed::zero(), rad: four }
    }

    /// The all-zero domain, a placeholder for storage that holds no domain.
    pub fn uninit() -> (r: Self)
        ensures
            r@ == (DomainView { real_mid: 0, imag_mid: 0, rad: 0 }),
    {
        Domain { real_mid: Fixed::zero(), imag_mid: Fixed::zero(), rad: Fixed::zero() }
    }

    /// Splits the domain into its four quadrants, in the order
    /// ```text
    /// 0 1
    /// 2 3
    /// ```
    /// or `None` if the radius would be too small (odd, or halving it would give zero).
    pub fn split(self) -> (r: Option<[Self; 4]>)
        requires
            self@.can_split() ==> {
                &&& fits_i64(self@.real_mid - self@.rad / 2)
                &&& fits_i64(self@.real_mid + self@.rad / 2)
                &&& fits_i64(self@.imag_mid - self@.rad / 2)
                &&& fits_i64(self@.imag_mid + self@.rad / 2)
            },
        ensures
            r matches Some(c) <==> self@.can_split(),
            r matches Some(c) ==> forall|k: int| 0 <= k < 4 ==> #[trigger] c[k]@ == self@.child(k),
    {
        let rad = match self.rad.div2_exact_checked() {
            Some(h) => h,
            None => {
                return None;
            },
        };
        if rad.0 <= 0 {
            return None;
        }
        let lo_r = self.real_mid.sub(rad);
        let hi_r = self.real_mid.add(rad);
        let lo_i = self.imag_mid.sub(rad);
        let hi_i = self.imag_mid.add(rad);
        let c = [
            Domain { real_mid: lo_r, imag_mid: hi_i, rad },
            Domain { real_mid: hi_r, imag_mid: hi_i, rad },
            Domain { real_mid: lo_r, imag_mid: lo_i, rad },
            Domain { real_mid: hi_r, imag_mid: lo_i, rad },
        ];
        assert forall|k: int| 0 <= k < 4 implies #[trigger] c[k]@ == self@.child(k) by {
            assert(rad@ == self@.rad / 2);
        }
        Some(c)
    }

    pub fn real_lo(self) -> (r: Real)
        requires
            fits_i64(self@.real_mid - self@.rad),
        ensures
            r@ == self@.real_lo(),
    {
        self.real_mid.sub(self.rad)
    }

    pub fn real_hi(self) -> (r: Real)
        requires
            fits_i64(self@.real_mid + self@.rad),
        ensures
            r@ == self@.real_hi(),
    {
        self.real_mid.add(self.rad)
    }

    pub fn real_mid(self) -> (r: Real)
        ensures
            r@ == self@.real_mid,
    {
        self.real_mid
    }

    pub fn imag_lo(self) -> (r: Imag)
        requires
            fits_i64(self@.imag_mid - self@.rad),
        ensures
            r@ == self@.imag_lo(),
    {
        self.imag_mid.sub(self.rad)
    }

    pub fn imag_hi(self) -> (r: Imag)
        requires
            fits_i64(self@.imag_mid + self@.rad),
        ensures
            r@ == self@.imag_hi(),
    {
        self.imag_mid.add(self.rad)
    }

    pub fn imag_mid(self) -> (r: Imag)
        ensures
            r@ == self@.imag_mid,
    {
        self.imag_mid
    }

    /// The center.
    pub fn mid(self) -> (r: (Real, Imag))
        ensures
            (r.0@, r.1@) == self@.mid(),
    {
        (self.real_mid, self.imag_mid)
    }

    /// The radius, half the side length.
    pub fn rad(self) -> (r: Fixed)
        ensures
            r@ == self@.rad,
    {
        self.rad
    }

    /// Whether the half-open square holds the point.
    pub fn contains_point(self, p: (Real, Imag)) -> (r: bool)
        requires
            self@.corners_fit(),
        ensures
            r == self@.contains((p.0@, p.1@)),
    {
        let (re, im) = p;
        self.real_lo().0 <= re.0 && re.0 < self.real_hi().0 && self.imag_lo().0 <= im.0 && im.0
            < self.imag_hi().0
    }

    /// The quadrant in which the point falls; the point need not be inside the domain.
    pub fn quadrant_offset_containing(&self, p: (Real, Imag)) -> (r: Offset)
        ensures
            r as int == self@.quadrant((p.0@, p.1@)),
            r < 4,
    {
        let (re, im) = p;
        (if re.0 < self.real_mid.0 { 0 } else { 1 }) + (if im.0 >= self.imag_mid.0 { 0 } else { 2 })
    }

    /// The quadrant that holds the point, which must be inside the domain.
    pub fn child_offset_containing(&self, p: (Real, Imag)) -> (r: Offset)
        requires
            self@.corners_fit(),
            self@.contains((p.0@, p.1@)),
        ensures
            r as int == self@.quadrant((p.0@, p.1@)),
            r < 4,
            self@.can_split() ==> self@.child(r as int).contains((p.0@, p.1@)),
    {
        proof {
            if self@.can_split() {
                lemma_split_partitions(self@, (p.0@, p.1@));
            }
        }
        self.quadrant_offset_containing(p)
    }
}

} // verus!
