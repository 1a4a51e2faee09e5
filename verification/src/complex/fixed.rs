//! Fixed point numbers with 58 fractional bits.
//!
//! A `Fixed` holds an `i64` `n` and stands for the real number `n / 2^58`,
//! so every `Fixed` lies in `[-32, 32)` and adjacent values are `2^-58` apart.
//! Contracts speak of the raw integer `n`, which is the view of a `Fixed`.
use vstd::prelude::*;
use vstd::arithmetic::power2::{pow2, lemma_pow2_pos, lemma_pow2_adds, lemma2_to64, lemma2_to64_rest};
use vstd::arithmetic::div_mod::{lemma_fundamental_div_mod, lemma_fundamental_div_mod_converse};

verus! {

/// The number of fractional bits.
pub const SHIFT: u32 = 58;

/// A fixed point number in `[-32, 32)`: the raw value `n` stands for `n / 2^58`.
#[derive(Clone, Copy, PartialEq, Eq, Structural, PartialOrd, Ord, Debug)]
pub struct Fixed(pub i64);

/// The real part of a complex number.
pub type Real = Fixed;

/// The imaginary part of a complex number.
pub type Imag = Fixed;

impl View for Fixed {
    type V = int;

    open spec fn view(&self) -> int {
        self.0 as int
    }
}

/// The raw value of one, `2^58`.
pub open spec fn one_bits() -> int {
    pow2(58) as int
}

/// `true` iff `x` fits in an `i64`.
pub open spec fn fits_i64(x: int) -> bool {
    i64::MIN <= x <= i64::MAX
}

/// The raw value of the product of two fixed point numbers, rounded toward negative infinity.
pub open spec fn mul_floor(a: int, b: int) -> int {
    (a * b) / one_bits()
}

pub proof fn lemma_pow2_le(a: nat, b: nat)
    requires
        a <= b,
    ensures
        pow2(a) <= pow2(b),
{
    lemma_pow2_pos(a);
    lemma_pow2_pos((b - a) as nat);
    lemma_pow2_adds(a, (b - a) as nat);
    assert(pow2(a) * pow2((b - a) as nat) >= pow2(a)) by (nonlinear_arith)
        requires
            pow2((b - a) as nat) >= 1,
    ;
}

/// Arithmetic shift right of a signed value is division by a power of two, rounded down.
proof fn lemma_i64_shr_floor(x: i64, n: u32)
    requires
        n < 64,
    ensures
        (x >> n) as int == x as int / pow2(n as nat) as int,
{
    lemma_pow2_pos(n as nat);
    if x >= 0 {
        assert((x >> n) == ((x as u64) >> (n as u64)) as i64) by (bit_vector)
            requires
                x >= 0,
                n < 64,
        ;
        vstd::bits::lemma_u64_shr_is_div(x as u64, n as u64);
    } else {
        let nx: i64 = !x;
        assert(nx as int == -(x as int) - 1) by (bit_vector)
            requires
                nx == !x,
        ;
        assert((x >> n) == !(((nx as u64) >> (n as u64)) as i64)) by (bit_vector)
            requires
                x < 0,
                nx == !x,
                n < 64,
        ;
        vstd::bits::lemma_u64_shr_is_div(nx as u64, n as u64);
        let q = ((nx as u64) >> (n as u64)) as i64;
        assert((!q) as int == -(q as int) - 1) by (bit_vector);
        let d = pow2(n as nat) as int;
        let y = -(x as int) - 1;
        let r = y % d;
        lemma_fundamental_div_mod(y, d);
        assert(x as int == (-(q as int) - 1) * d + (d - r - 1)) by (nonlinear_arith)
            requires
                y == d * (q as int) + r,
                y == -(x as int) - 1,
        ;
        lemma_fundamental_div_mod_converse(x as int, d, -(q as int) - 1, d - r - 1);
    }
}

/// Arithmetic shift right of a 128 bit signed value is division by a power of two, rounded down.
proof fn lemma_i128_shr_floor(x: i128, n: u32)
    requires
        n < 128,
    ensures
        (x >> n) as int == x as int / pow2(n as nat) as int,
{
    lemma_pow2_pos(n as nat);
    if x >= 0 {
        assert((x >> n) == ((x as u128) >> (n as u128)) as i128) by (bit_vector)
            requires
                x >= 0,
                n < 128,
        ;
        vstd::bits::lemma_u128_shr_is_div(x as u128, n as u128);
    } else {
        let nx: i128 = !x;
        assert(nx as int == -(x as int) - 1) by (bit_vector)
            requires
                nx == !x,
        ;
        assert((x >> n) == !(((nx as u128) >> (n as u128)) as i128)) by (bit_vector)
            requires
                x < 0,
                nx == !x,
                n < 128,
        ;
        vstd::bits::lemma_u128_shr_is_div(nx as u128, n as u128);
        let q = ((nx as u128) >> (n as u128)) as i128;
        assert((!q) as int == -(q as int) - 1) by (bit_vector);
        let d = pow2(n as nat) as int;
        let y = -(x as int) - 1;
        let r = y % d;
        lemma_fundamental_div_mod(y, d);
        assert(x as int == (-(q as int) - 1) * d + (d - r - 1)) by (nonlinear_arith)
            requires
                y == d * (q as int) + r,
                y == -(x as int) - 1,
        ;
        lemma_fundamental_div_mod_converse(x as int, d, -(q as int) - 1, d - r - 1);
    }
}

/// The sign bit of an IEEE 754 binary64 encoding: `1` for negative.
pub open spec fn f64_sign_bit(bits: u64) -> int {
    (bits / 0x8000_0000_0000_0000) as int
}

/// The biased exponent field of an IEEE 754 binary64 encoding.
pub open spec fn f64_exp_field(bits: u64) -> int {
    ((bits / 0x10_0000_0000_0000) % 0x800) as int
}

/// The fraction field of an IEEE 754 binary64 encoding.
pub open spec fn f64_frac_field(bits: u64) -> int {
    (bits % 0x10_0000_0000_0000) as int
}

/// The encoding is neither an infinity nor a NaN.
pub open spec fn f64_is_finite(bits: u64) -> bool {
    f64_exp_field(bits) != 0x7ff
}

/// The significand of a finite encoding, as an integer.
pub open spec fn f64_significand(bits: u64) -> nat {
    if f64_exp_field(bits) == 0 {
        f64_frac_field(bits) as nat
    } else {
        (f64_frac_field(bits) + pow2(52)) as nat
    }
}

/// The exponent of a finite encoding: its value is `significand * 2^exponent`, signed.
pub open spec fn f64_exponent(bits: u64) -> int {
    if f64_exp_field(bits) == 0 {
        -1074
    } else {
        f64_exp_field(bits) - 1075
    }
}

/// The magnitude of the encoded value times `2^58`, compared with `bound`:
/// `<= bound`, or `< bound` when `strict`.
pub open spec fn f64_scaled_magnitude_below(bits: u64, bound: nat, strict: bool) -> bool {
    let k = f64_exponent(bits) + 58;
    let m = f64_significand(bits);
    if k >= 0 {
        if strict { m * pow2(k as nat) < bound } else { m * pow2(k as nat) <= bound }
    } else {
        if strict { m < bound * pow2((-k) as nat) } else { m <= bound * pow2((-k) as nat) }
    }
}

/// The encoding is a finite number in `[-32, 32)`, the range of `Fixed`.
pub open spec fn f64_bits_in_domain(bits: u64) -> bool {
    &&& f64_is_finite(bits)
    &&& if f64_sign_bit(bits) == 1 {
        f64_scaled_magnitude_below(bits, pow2(63), false)
    } else {
        f64_scaled_magnitude_below(bits, pow2(63), true)
    }
}

/// The encoded value times `2^58`, truncated toward zero.
pub open spec fn f64_scaled_trunc(bits: u64) -> int {
    let k = f64_exponent(bits) + 58;
    let m = f64_significand(bits);
    let t: int = if k >= 0 { (m * pow2(k as nat)) as int } else { (m / pow2((-k) as nat)) as int };
    if f64_sign_bit(bits) == 1 { -t } else { t }
}

/// The encoded value times `2^58` is exactly `n`.
pub open spec fn f64_scaled_equals(bits: u64, n: int) -> bool {
    let k = f64_exponent(bits) + 58;
    let m = f64_significand(bits);
    let mag = if f64_sign_bit(bits) == 1 { -n } else { n };
    &&& mag >= 0
    &&& if k >= 0 { m * pow2(k as nat) == mag } else { m == mag * pow2((-k) as nat) }
}

/// The number of binary digits of `n`.
pub open spec fn bit_length(n: nat) -> nat
    decreases n,
{
    if n == 0 {
        0
    } else {
        1 + bit_length(n / 2)
    }
}

/// `n` rounded to 53 significant bits, ties to even, as IEEE 754 rounds.
pub open spec fn round_to_significand(n: nat) -> nat {
    let l = bit_length(n);
    if l <= 53 {
        n
    } else {
        let d = pow2((l - 53) as nat);
        let q = n / d;
        let r = n % d;
        let half = d / 2;
        let q2 = if r > half || (r == half && q % 2 == 1) { q + 1 } else { q };
        (q2 * d) as nat
    }
}

/// `x` rounded to the nearest binary64 significand, ties to even, sign kept.
pub open spec fn round_to_f64_grid(x: int) -> int {
    if x < 0 {
        -(round_to_significand((-x) as nat) as int)
    } else {
        round_to_significand(x as nat) as int
    }
}

proof fn lemma_bit_length_bounds(n: nat)
    requires
        n > 0,
    ensures
        pow2((bit_length(n) - 1) as nat) <= n < pow2(bit_length(n)),
        bit_length(n) >= 1,
    decreases n,
{
    if n == 1 {
        assert(bit_length(0) == 0);
        assert(bit_length(1) == 1);
        lemma2_to64();
    } else {
        lemma_bit_length_bounds(n / 2);
        let l = bit_length(n / 2);
        vstd::arithmetic::power2::lemma_pow2_unfold(l);
        vstd::arithmetic::power2::lemma_pow2_unfold(l + 1);
        assert(bit_length(n) == l + 1);
    }
}

proof fn lemma_bit_length_at_most(n: nat, b: nat)
    requires
        n < pow2(b),
    ensures
        bit_length(n) <= b,
{
    if n > 0 {
        lemma_bit_length_bounds(n);
        if bit_length(n) > b {
            lemma_pow2_le(b, (bit_length(n) - 1) as nat);
        }
    }
}

/// `1 << s` is `2^s` for a shift that keeps it in range.
proof fn lemma_one_shl(s: u64)
    requires
        s < 64,
    ensures
        (1u64 << s) as int == pow2(s as nat),
{
    lemma_pow2_pos(s as nat);
    vstd::bits::lemma_u64_pow2_no_overflow(s as nat);
    vstd::bits::lemma_u64_shl_is_mul(1, s);
}

/// Reading the fields back out of an assembled encoding.
proof fn lemma_f64_fields(sign: int, ef: int, frac: int)
    requires
        0 <= sign <= 1,
        0 <= ef < 0x800,
        0 <= frac < 0x10_0000_0000_0000,
    ensures
        ({
            let bits = (sign * 0x8000_0000_0000_0000 + ef * 0x10_0000_0000_0000 + frac) as u64;
            &&& 0 <= sign * 0x8000_0000_0000_0000 + ef * 0x10_0000_0000_0000 + frac <= u64::MAX
            &&& f64_sign_bit(bits) == sign
            &&& f64_exp_field(bits) == ef
            &&& f64_frac_field(bits) == frac
        }),
{
    let b = sign * 0x8000_0000_0000_0000 + ef * 0x10_0000_0000_0000 + frac;
    let bits = b as u64;
    assert(bits as int == b);
    lemma_fundamental_div_mod_converse(b, 0x8000_0000_0000_0000, sign, ef * 0x10_0000_0000_0000 + frac);
    lemma_fundamental_div_mod_converse(b, 0x10_0000_0000_0000, sign * 0x800 + ef, frac);
    lemma_fundamental_div_mod_converse(sign * 0x800 + ef, 0x800, sign, ef);
}

/// A quotient that must be zero.
proof fn lemma_small_div(m: int, d: int)
    requires
        0 <= m < d,
    ensures
        m / d == 0,
        m % d == m,
{
    lemma_fundamental_div_mod_converse(m, d, 0, m);
}

/// A finite `f64` whose value times `2^58` is exactly an `i64` lies in the domain,
/// and converting it to `Fixed` gives that `i64` back: so a `Fixed` that `into_f64_bits`
/// represents exactly survives the round trip through `f64` unchanged.
pub proof fn lemma_exact_f64_converts_back(bits: u64, n: int)
    requires
        f64_is_finite(bits),
        f64_scaled_equals(bits, n),
        fits_i64(n),
    ensures
        f64_bits_in_domain(bits),
        f64_scaled_trunc(bits) == n,
{
    lemma2_to64();
    lemma2_to64_rest();
    let k = f64_exponent(bits) + 58;
    let m = f64_significand(bits) as int;
    let mag = if f64_sign_bit(bits) == 1 { -n } else { n };
    if k < 0 {
        let d = pow2((-k) as nat) as int;
        lemma_pow2_pos((-k) as nat);
        lemma_fundamental_div_mod_converse(m, d, mag, 0);
        let b = pow2(63) as int;
        if f64_sign_bit(bits) == 1 {
            assert(m <= b * d) by (nonlinear_arith)
                requires
                    m == mag * d,
                    mag <= b,
                    d > 0,
            ;
        } else {
            assert(m < b * d) by (nonlinear_arith)
                requires
                    m == mag * d,
                    mag < b,
                    d > 0,
            ;
        }
    }
}

impl Fixed {
    /// Zero.
    pub fn zero() -> (r: Self)
        ensures
            r@ == 0,
    {
        Fixed(0)
    }

    /// One, raw value `2^58`.
    pub fn one() -> (r: Self)
        ensures
            r@ == one_bits(),
    {
        proof {
            lemma2_to64_rest();
        }
        Fixed(0x0400_0000_0000_0000)
    }

    /// The least value, `-32`.
    pub fn min_value() -> (r: Self)
        ensures
            r@ == i64::MIN,
    {
        Fixed(i64::MIN)
    }

    /// The greatest value, `32 - 2^-58`.
    pub fn max_value() -> (r: Self)
        ensures
            r@ == i64::MAX,
    {
        Fixed(i64::MAX)
    }

    /// Builds a fixed point number from its raw value.
    pub fn from_bits(bits: i64) -> (r: Self)
        ensures
            r@ == bits,
    {
        Fixed(bits)
    }

    /// The raw value.
    pub fn to_bits(self) -> (r: i64)
        ensures
            r == self@,
    {
        self.0
    }

    /// The lesser of the two.
    pub fn min(self, rhs: Self) -> (r: Self)
        ensures
            r@ == if self@ < rhs@ { self@ } else { rhs@ },
    {
        if self.0 < rhs.0 {
            self
        } else {
            rhs
        }
    }

    /// The greater of the two.
    pub fn max(self, rhs: Self) -> (r: Self)
        ensures
            r@ == if self@ > rhs@ { self@ } else { rhs@ },
    {
        if self.0 > rhs.0 {
            self
        } else {
            rhs
        }
    }

    /// The absolute value; `-32` has none.
    pub fn abs(self) -> (r: Self)
        requires
            self@ != i64::MIN,
        ensures
            r@ == if self@ < 0 { -self@ } else { self@ },
    {
        if self.0 < 0 {
            self.neg()
        } else {
            self
        }
    }

    /// `self + rhs`, or `None` if it would overflow.
    pub fn add_checked(self, rhs: Self) -> (r: Option<Self>)
        ensures
            r matches Some(v) <==> fits_i64(self@ + rhs@),
            r matches Some(v) ==> v@ == self@ + rhs@,
    {
        match self.0.checked_add(rhs.0) {
            Some(v) => Some(Fixed(v)),
            None => None,
        }
    }

    /// `self - rhs`, or `None` if it would overflow.
    pub fn sub_checked(self, rhs: Self) -> (r: Option<Self>)
        ensures
            r matches Some(v) <==> fits_i64(self@ - rhs@),
            r matches Some(v) ==> v@ == self@ - rhs@,
    {
        match self.0.checked_sub(rhs.0) {
            Some(v) => Some(Fixed(v)),
            None => None,
        }
    }

    /// `-self`, or `None` if it would overflow.
    pub fn neg_checked(self) -> (r: Option<Self>)
        ensures
            r matches Some(v) <==> self@ != i64::MIN,
            r matches Some(v) ==> v@ == -self@,
    {
        if self.0 == i64::MIN {
            None
        } else {
            Some(Fixed(-self.0))
        }
    }

    /// `self + rhs`, which must not overflow.
    pub fn add(self, rhs: Self) -> (r: Self)
        requires
            fits_i64(self@ + rhs@),
        ensures
            r@ == self@ + rhs@,
    {
        Fixed(self.0 + rhs.0)
    }

    /// `self - rhs`, which must not overflow.
    pub fn sub(self, rhs: Self) -> (r: Self)
        requires
            fits_i64(self@ - rhs@),
        ensures
            r@ == self@ - rhs@,
    {
        Fixed(self.0 - rhs.0)
    }

    /// `-self`, which must not overflow.
    pub fn neg(self) -> (r: Self)
        requires
            self@ != i64::MIN,
        ensures
            r@ == -self@,
    {
        Fixed(-self.0)
    }

    /// `*self += rhs`, which must not overflow.
    pub fn add_assign(&mut self, rhs: Self)
        requires
            fits_i64(old(self)@ + rhs@),
        ensures
            final(self)@ == old(self)@ + rhs@,
    {
        self.0 = self.0 + rhs.0;
    }

    /// `*self -= rhs`, which must not overflow.
    pub fn sub_assign(&mut self, rhs: Self)
        requires
            fits_i64(old(self)@ - rhs@),
        ensures
            final(self)@ == old(self)@ - rhs@,
    {
        self.0 = self.0 - rhs.0;
    }

    /// `self * 2`, or `None` if it would overflow.
    pub fn mul2_checked(self) -> (r: Option<Self>)
        ensures
            r matches Some(v) <==> fits_i64(2 * self@),
            r matches Some(v) ==> v@ == 2 * self@,
    {
        match self.0.checked_mul(2) {
            Some(v) => Some(Fixed(v)),
            None => None,
        }
    }

    /// `self * 2`, which must not overflow.
    pub fn mul2(self) -> (r: Self)
        requires
            fits_i64(2 * self@),
        ensures
            r@ == 2 * self@,
    {
        let x = self.0;
        assert(x << 1u32 == 2 * x) by (bit_vector)
            requires
                -0x4000_0000_0000_0000 <= x < 0x4000_0000_0000_0000,
        ;
        Fixed(x << 1u32)
    }

    /// `self * 2^n`, which must not overflow.
    pub fn mul2_n(self, n: u32) -> (r: Self)
        requires
            fits_i64(self@ * pow2(n as nat)),
        ensures
            r@ == self@ * pow2(n as nat),
    {
        let mut acc = self;
        let mut i: u32 = 0;
        proof {
            lemma2_to64();
            assert(self@ * pow2(0) == self@);
        }
        while i < n
            invariant
                i <= n,
                acc@ == self@ * pow2(i as nat),
                fits_i64(self@ * pow2(n as nat)),
            decreases n - i,
        {
            proof {
                lemma_pow2_adds(i as nat, 1);
                lemma_pow2_le((i + 1) as nat, n as nat);
                lemma_pow2_pos((i + 1) as nat);
                lemma2_to64();
                let p = pow2((i + 1) as nat) as int;
                let q = pow2(n as nat) as int;
                assert(self@ * pow2((i + 1) as nat) == 2 * (self@ * pow2(i as nat))) by (nonlinear_arith)
                    requires
                        pow2((i + 1) as nat) == pow2(i as nat) * 2,
                ;
                assert(fits_i64(self@ * p)) by (nonlinear_arith)
                    requires
                        0 < p <= q,
                        fits_i64(self@ * q),
                ;
            }
            acc = acc.mul2();
            i = i + 1;
        }
        acc
    }

    /// `self / 2`, or `None` if `self` is odd, so that precision would be lost.
    pub fn div2_exact_checked(self) -> (r: Option<Self>)
        ensures
            r matches Some(v) <==> self@ % 2 == 0,
            r matches Some(v) ==> 2 * v@ == self@,
    {
        let x = self.0;
        if x & 1 != 0 {
            assert(x % 2 == 1) by (bit_vector)
                requires
                    x & 1 != 0,
            ;
            None
        } else {
            assert(x % 2 == 0) by (bit_vector)
                requires
                    x & 1 == 0,
            ;
            proof {
                lemma_i64_shr_floor(x, 1);
                lemma2_to64();
            }
            Some(Fixed(x >> 1u32))
        }
    }

    /// `self / 2`; `self` must be even.
    pub fn div2_exact(self) -> (r: Self)
        requires
            self@ % 2 == 0,
        ensures
            2 * r@ == self@,
    {
        match self.div2_exact_checked() {
            Some(v) => v,
            None => self,
        }
    }

    /// `self / 2`, rounded toward negative infinity.
    pub fn div2_floor(self) -> (r: Self)
        ensures
            r@ == self@ / 2,
    {
        proof {
            lemma_i64_shr_floor(self.0, 1);
            lemma2_to64();
        }
        Fixed(self.0 >> 1u32)
    }

    /// `self / 2^n`, rounded toward negative infinity.
    pub fn div2_n_floor(self, n: u32) -> (r: Self)
        requires
            n < 64,
        ensures
            r@ == self@ / pow2(n as nat) as int,
    {
        proof {
            lemma_i64_shr_floor(self.0, n);
        }
        Fixed(self.0 >> n)
    }

    /// The product, rounded toward negative infinity, or `None` if it does not fit.
    pub fn mul_checked(self, rhs: Self) -> (r: Option<Self>)
        ensures
            r matches Some(v) <==> fits_i64(mul_floor(self@, rhs@)),
            r matches Some(v) ==> v@ == mul_floor(self@, rhs@),
    {
        let a = self.0 as i128;
        let b = rhs.0 as i128;
        assert(-0x4000_0000_0000_0000_0000_0000_0000_0000 <= a * b <= 0x4000_0000_0000_0000_0000_0000_0000_0000)
            by (nonlinear_arith)
            requires
                -0x8000_0000_0000_0000 <= a <= 0x8000_0000_0000_0000,
                -0x8000_0000_0000_0000 <= b <= 0x8000_0000_0000_0000,
        ;
        let p = a * b;
        let q = p >> SHIFT;
        proof {
            lemma_i128_shr_floor(p, SHIFT);
        }
        if q < i64::MIN as i128 || q > i64::MAX as i128 {
            None
        } else {
            Some(Fixed(q as i64))
        }
    }

    /// The product, rounded toward negative infinity, which must fit.
    pub fn mul(self, rhs: Self) -> (r: Self)
        requires
            fits_i64(mul_floor(self@, rhs@)),
        ensures
            r@ == mul_floor(self@, rhs@),
    {
        match self.mul_checked(rhs) {
            Some(v) => v,
            None => self,
        }
    }

    /// The point a fraction `t` of the way from `lo` to `hi`: `lo + (hi - lo) * t`, the product
    /// rounded down. `lo` must lie below `hi`.
    pub fn lerp(lo: Self, hi: Self, t: Self) -> (r: Self)
        requires
            lo@ < hi@,
            fits_i64(hi@ - lo@),
            fits_i64(mul_floor(hi@ - lo@, t@)),
            fits_i64(lo@ + mul_floor(hi@ - lo@, t@)),
        ensures
            r@ == lo@ + mul_floor(hi@ - lo@, t@),
    {
        let d = hi.sub(lo);
        let m = d.mul(t);
        lo.add(m)
    }

    /// Converts from the bits of an `f64` (as `f64::to_bits` gives them),
    /// truncating toward zero, or `None` if the number is not in `[-32, 32)`.
    pub fn try_from_f64_bits(bits: u64) -> (r: Option<Self>)
        ensures
            r matches Some(v) <==> f64_bits_in_domain(bits),
            r matches Some(v) ==> v@ == f64_scaled_trunc(bits),
    {
        proof {
            lemma2_to64();
            lemma2_to64_rest();
        }
        let sign = bits / 0x8000_0000_0000_0000;
        let ef = (bits / 0x10_0000_0000_0000) % 0x800;
        let frac = bits % 0x10_0000_0000_0000;
        if ef == 0x7ff {
            return None;
        }
        let m: u64 = if ef == 0 { frac } else { frac + 0x10_0000_0000_0000 };
        let e: i64 = if ef == 0 { -1074 } else { ef as i64 - 1075 };
        let k: i64 = e + 58;
        assert(m as int == f64_significand(bits));
        assert(e as int == f64_exponent(bits));
        if k >= 0 {
            if k > 11 {
                proof {
                    lemma_pow2_le(12, k as nat);
                    let p = pow2(k as nat) as int;
                    assert(m as int * p > pow2(63)) by (nonlinear_arith)
                        requires
                            m >= 0x10_0000_0000_0000,
                            p >= 0x1000,
                            pow2(63) == 0x8000_0000_0000_0000,
                    ;
                }
                return None;
            }
            proof {
                lemma_one_shl(k as u64);
                lemma_pow2_le(k as nat, 11);
            }
            let p = 1u64 << (k as u64);
            assert(m * p < 0x1_0000_0000_0000_0000) by (nonlinear_arith)
                requires
                    m < 0x20_0000_0000_0000,
                    p <= 0x800,
            ;
            let mag = m * p;
            if sign == 1 {
                if mag > 0x8000_0000_0000_0000 {
                    None
                } else {
                    Some(Fixed((0i128 - mag as i128) as i64))
                }
            } else {
                if mag >= 0x8000_0000_0000_0000 {
                    None
                } else {
                    Some(Fixed(mag as i64))
                }
            }
        } else {
            let nk: i64 = -k;
            proof {
                lemma_pow2_pos(nk as nat);
                lemma_pow2_le(0, nk as nat);
                let p = pow2(nk as nat) as int;
                assert(m < pow2(63) * p) by (nonlinear_arith)
                    requires
                        m < 0x20_0000_0000_0000,
                        p >= 1,
                        pow2(63) == 0x8000_0000_0000_0000,
                ;
            }
            let t: u64 = if nk >= 64 {
                proof {
                    lemma_pow2_le(64, nk as nat);
                    lemma_small_div(m as int, pow2(nk as nat) as int);
                }
                0
            } else {
                proof {
                    lemma_one_shl(nk as u64);
                }
                m / (1u64 << (nk as u64))
            };
            assert(t <= m) by {
                vstd::arithmetic::div_mod::lemma_div_is_ordered_by_denominator(m as int, 1, pow2(nk as nat) as int);
            }
            if sign == 1 {
                Some(Fixed(-(t as i64)))
            } else {
                Some(Fixed(t as i64))
            }
        }
    }

    /// Converts from the bits of an `f64`; the number must lie in `[-32, 32)`.
    pub fn from_f64_bits(bits: u64) -> (r: Self)
        requires
            f64_bits_in_domain(bits),
        ensures
            r@ == f64_scaled_trunc(bits),
    {
        match Self::try_from_f64_bits(bits) {
            Some(v) => v,
            None => Fixed(0),
        }
    }

    /// The bits of the `f64` nearest to `self` (ties to even), as `f64::from_bits` takes them.
    #[verifier::spinoff_prover]
    pub fn into_f64_bits(self) -> (r: u64)
        ensures
            f64_is_finite(r),
            f64_scaled_equals(r, round_to_f64_grid(self@)),
            self@ == 0 ==> r == 0,
    {
        proof {
            lemma2_to64();
            lemma2_to64_rest();
        }
        let x = self.0;
        if x == 0 {
            proof {
                lemma_f64_fields(0, 0, 0);
                assert(bit_length(0) == 0);
            }
            return 0;
        }
        let neg = x < 0;
        let m: u64 = if neg { (0i128 - x as i128) as u64 } else { x as u64 };
        assert(m as int == if x < 0 { -(x as int) } else { x as int });
        proof {
            lemma_bit_length_at_most(m as nat, 64);
        }
        let mut t = m;
        let mut l: u64 = 0;
        while t > 0
            invariant
                bit_length(m as nat) == l + bit_length(t as nat),
                bit_length(m as nat) <= 64,
            decreases t,
        {
            t = t / 2;
            l = l + 1;
        }
        assert(bit_length(0) == 0);
        assert(l == bit_length(m as nat));
        proof {
            lemma_bit_length_bounds(m as nat);
        }
        let sign: u64 = if neg { 1 } else { 0 };
        let ghost g = round_to_f64_grid(x as int);
        assert(g == if x < 0 { -(round_to_significand(m as nat) as int) } else { round_to_significand(m as nat) as int });
        if l <= 53 {
            proof {
                lemma_one_shl((53 - l) as u64);
                lemma_pow2_adds((l - 1) as nat, (53 - l) as nat);
                lemma_pow2_adds(l as nat, (53 - l) as nat);
            }
            let p = 1u64 << (53 - l);
            let ghost lo = pow2((l - 1) as nat) as int;
            let ghost hi = pow2(l as nat) as int;
            assert(0x10_0000_0000_0000 <= m * p < 0x20_0000_0000_0000) by (nonlinear_arith)
                requires
                    lo <= m < hi,
                    p > 0,
                    lo * p == 0x10_0000_0000_0000,
                    hi * p == 0x20_0000_0000_0000,
            ;
            let sig = m * p;
            let ef = 964 + l;
            let frac = sig - 0x10_0000_0000_0000;
            proof {
                lemma_f64_fields(sign as int, ef as int, frac as int);
            }
            let r = sign * 0x8000_0000_0000_0000 + ef * 0x10_0000_0000_0000 + frac;
            proof {
                let k = f64_exponent(r) + 58;
                assert(k == l - 53);
                assert(f64_significand(r) == sig);
                if k == 0 {
                    assert(pow2(0) == 1);
                    assert(sig * pow2(0) == sig);
                }
                assert(round_to_significand(m as nat) == m);
                assert(f64_sign_bit(r) == sign);
                assert(p as int == pow2((53 - l) as nat));
                assert(k < 0 ==> (-k) as nat == (53 - l) as nat);
                assert(k < 0 ==> sig == m * pow2((-k) as nat));
                assert(g == if x < 0 { -(m as int) } else { m as int });
                if k == 0 {
                    assert(l == 53);
                    assert(pow2(0) == 1);
                    assert(p == 1);
                    assert(sig == m) by (nonlinear_arith)
                        requires
                            sig == m * p,
                            p == 1,
                    ;
                }
                assert(k >= 0 ==> f64_significand(r) * pow2(k as nat) == m);
                assert((if f64_sign_bit(r) == 1 { -g } else { g }) == m);
                assert(f64_scaled_equals(r, g));
            }
            r
        } else {
            let s = l - 53;
            proof {
                lemma_one_shl(s);
                lemma_pow2_adds(52, s as nat);
                lemma_pow2_adds(53, s as nat);
                lemma_pow2_pos(s as nat);
            }
            let d = 1u64 << s;
            let q = m / d;
            let rem = m % d;
            let half = d / 2;
            proof {
                lemma_fundamental_div_mod(m as int, d as int);
                let lo = pow2(52) * pow2(s as nat);
                let hi = pow2(53) * pow2(s as nat);
                assert(0x10_0000_0000_0000 <= q < 0x20_0000_0000_0000) by (nonlinear_arith)
                    requires
                        m == d * q + rem,
                        0 <= rem < d,
                        lo <= m < hi,
                        lo == 0x10_0000_0000_0000 * d,
                        hi == 0x20_0000_0000_0000 * d,
                ;
            }
            let q2 = if rem > half || (rem == half && q % 2 == 1) { q + 1 } else { q };
            assert(round_to_significand(m as nat) == q2 * d);
            if q2 == 0x20_0000_0000_0000 {
                let ef = 965 + l;
                proof {
                    lemma_f64_fields(sign as int, ef as int, 0);
                    lemma_pow2_adds(s as nat, 1);
                }
                let r = sign * 0x8000_0000_0000_0000 + ef * 0x10_0000_0000_0000;
                proof {
                    let k = f64_exponent(r) + 58;
                    assert(k == s + 1);
                    assert(f64_significand(r) == pow2(52));
                    assert(pow2(52) * pow2((s + 1) as nat) == q2 * pow2(s as nat)) by (nonlinear_arith)
                        requires
                            pow2((s + 1) as nat) == pow2(s as nat) * pow2(1),
                            pow2(1) == 2,
                            pow2(52) == 0x10_0000_0000_0000,
                            q2 == 0x20_0000_0000_0000,
                    ;
                    assert(f64_scaled_equals(r, g));
                }
                r
            } else {
                let ef = 964 + l;
                let frac = q2 - 0x10_0000_0000_0000;
                proof {
                    lemma_f64_fields(sign as int, ef as int, frac as int);
                }
                let r = sign * 0x8000_0000_0000_0000 + ef * 0x10_0000_0000_0000 + frac;
                proof {
                    let k = f64_exponent(r) + 58;
                    assert(k == s);
                    assert(f64_significand(r) == q2);
                    assert(f64_scaled_equals(r, g));
                }
                r
            }
        }
    }
}

} // verus!
