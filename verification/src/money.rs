//! Fixed-point currency: pesos held to centavo precision in an `i64`.
//!
//! Every store, sum and comparison of a balance is exact integer
//! arithmetic; rounding from floating-point bills happens once, at the
//! boundary, outside this module.

use vstd::prelude::*;

verus! {

/// Largest whole-peso amount whose centavo count fits in an `i64`.
pub const MAX_WHOLE_PESOS: i64 = 92233720368547758i64;

/// Smallest whole-peso amount whose centavo count fits in an `i64`.
pub const MIN_WHOLE_PESOS: i64 = -92233720368547758i64;

/// Pesos held to centavo precision. Negative values are permitted
/// (an overdrawn float on the way to repayment).
#[derive(Clone, Copy, Debug, PartialEq, Eq, Structural, PartialOrd, Ord, Hash, Default)]
pub struct Pesos(i64);

impl View for Pesos {
    type V = int;

    /// The amount in centavos.
    closed spec fn view(&self) -> int {
        self.0 as int
    }
}

/// A centavo count that an `i64` can hold.
pub open spec fn fits_i64(c: int) -> bool {
    i64::MIN <= c <= i64::MAX
}

/// `c` clamped into the `i64` range.
pub open spec fn saturate_i64(c: int) -> int {
    if c > i64::MAX {
        i64::MAX as int
    } else if c < i64::MIN {
        i64::MIN as int
    } else {
        c
    }
}

/// Every amount of pesos is an `i64` count of centavos.
pub broadcast proof fn lemma_pesos_fits(p: Pesos)
    ensures
        fits_i64(#[trigger] p@),
{
}

/// Two amounts with the same centavo count are the same amount.
pub broadcast proof fn lemma_pesos_view_injective(p: Pesos, q: Pesos)
    requires
        p@ == q@,
    ensures
        #[trigger] p@ == #[trigger] q@ ==> p == q,
{
}

/// Sum of a sequence of amounts, in centavos.
pub open spec fn total_centavos(s: Seq<Pesos>) -> int
    decreases s.len(),
{
    if s.len() == 0 {
        0
    } else {
        total_centavos(s.drop_last()) + s.last()@
    }
}

/// Every running total of `s`, taken left to right, fits in an `i64`.
pub open spec fn running_totals_fit(s: Seq<Pesos>) -> bool {
    forall|k: int| 0 <= k <= s.len() ==> #[trigger] fits_i64(total_centavos(s.take(k)))
}

impl Pesos {
    /// Zero pesos.
    pub fn zero() -> (r: Pesos)
        ensures
            r@ == 0,
    {
        Pesos(0)
    }

    /// Construct from a whole-peso amount; the centavo count saturates at
    /// the bounds of `i64`.
    pub fn from_pesos(p: i64) -> (r: Pesos)
        ensures
            r@ == saturate_i64(p * 100),
    {
        if p > MAX_WHOLE_PESOS {
            Pesos(i64::MAX)
        } else if p < MIN_WHOLE_PESOS {
            Pesos(i64::MIN)
        } else {
            Pesos(p * 100)
        }
    }

    /// Construct from raw centavos.
    pub fn from_centavos(c: i64) -> (r: Pesos)
        ensures
            r@ == c,
    {
        Pesos(c)
    }

    /// Raw centavo count.
    pub fn as_centavos(self) -> (c: i64)
        ensures
            c == self@,
    {
        self.0
    }

    /// Clamp at zero (zero if negative).
    pub fn max_zero(self) -> (r: Pesos)
        ensures
            r@ == if self@ < 0 { 0 } else { self@ },
    {
        if self.0 < 0 {
            Pesos(0)
        } else {
            self
        }
    }

    /// Subtraction that never goes below zero: "spend at most what you
    /// have".
    pub fn saturating_sub(self, rhs: Self) -> (r: Pesos)
        requires
            fits_i64(self@ - rhs@),
        ensures
            r@ == if self@ - rhs@ < 0 { 0 } else { self@ - rhs@ },
    {
        let d = self.0 - rhs.0;
        if d < 0 {
            Pesos(0)
        } else {
            Pesos(d)
        }
    }

    /// The smaller of two amounts.
    pub fn min(self, rhs: Self) -> (r: Pesos)
        ensures
            r@ == if self@ <= rhs@ { self@ } else { rhs@ },
    {
        if self.0 <= rhs.0 {
            self
        } else {
            rhs
        }
    }

    /// The larger of two amounts.
    pub fn max(self, rhs: Self) -> (r: Pesos)
        ensures
            r@ == if self@ >= rhs@ { self@ } else { rhs@ },
    {
        if self.0 >= rhs.0 {
            self
        } else {
            rhs
        }
    }

    pub fn is_zero(self) -> (b: bool)
        ensures
            b == (self@ == 0),
    {
        self.0 == 0
    }

    pub fn is_positive(self) -> (b: bool)
        ensures
            b == (self@ > 0),
    {
        self.0 > 0
    }

    pub fn is_negative(self) -> (b: bool)
        ensures
            b == (self@ < 0),
    {
        self.0 < 0
    }

    /// `self + rhs`.
    pub fn plus(self, rhs: Self) -> (r: Pesos)
        requires
            fits_i64(self@ + rhs@),
        ensures
            r@ == self@ + rhs@,
    {
        Pesos(self.0 + rhs.0)
    }

    /// `self - rhs`.
    pub fn minus(self, rhs: Self) -> (r: Pesos)
        requires
            fits_i64(self@ - rhs@),
        ensures
            r@ == self@ - rhs@,
    {
        Pesos(self.0 - rhs.0)
    }

    /// `-self`.
    pub fn negated(self) -> (r: Pesos)
        requires
            fits_i64(-self@),
        ensures
            r@ == -self@,
    {
        Pesos(-self.0)
    }

    /// Add `rhs` in place.
    pub fn add_in_place(&mut self, rhs: Self)
        requires
            fits_i64(old(self)@ + rhs@),
        ensures
            final(self)@ == old(self)@ + rhs@,
    {
        self.0 = self.0 + rhs.0;
    }

    /// Subtract `rhs` in place.
    pub fn sub_in_place(&mut self, rhs: Self)
        requires
            fits_i64(old(self)@ - rhs@),
        ensures
            final(self)@ == old(self)@ - rhs@,
    {
        self.0 = self.0 - rhs.0;
    }

    /// Sum of all amounts, added left to right from zero.
    pub fn sum_of(items: &[Pesos]) -> (r: Pesos)
        requires
            running_totals_fit(items@),
        ensures
            r@ == total_centavos(items@),
    {
        let mut acc: i64 = 0;
        let mut i: usize = 0;
        while i < items.len()
            invariant
                i <= items@.len(),
                running_totals_fit(items@),
                acc == total_centavos(items@.take(i as int)),
            decreases items@.len() - i,
        {
            assert(items@.take(i + 1).drop_last() =~= items@.take(i as int));
            assert(fits_i64(total_centavos(items@.take(i + 1))));
            acc = acc + items[i].0;
            i = i + 1;
        }
        assert(items@.take(i as int) =~= items@);
        Pesos(acc)
    }

    /// Whole pesos and the centavo remainder shown after the point, as
    /// rendered: the whole part truncates toward zero, and the remainder
    /// is the magnitude of the truncated remainder.
    pub fn display_parts(self) -> (r: (i64, i64))
        ensures
            r.0 == display_whole(self@),
            r.1 == display_frac(self@),
            0 <= r.1 < 100,
    {
        if self.0 >= 0 {
            (self.0 / 100, self.0 % 100)
        } else {
            // Magnitude minus one, which cannot overflow.
            let m: i64 = -(self.0 + 1);
            let q: i64 = m / 100;
            let rr: i64 = m % 100;
            if rr == 99 {
                (-(q + 1), 0)
            } else {
                (-q, rr + 1)
            }
        }
    }

    /// Human-readable rendering, `"<whole>.<two-digit centavos> pesos"`.
    pub fn to_display_string(self) -> (s: String)
        ensures
            s@ == pesos_text(display_whole(self@), display_frac(self@)),
    {
        let (whole, frac) = self.display_parts();
        render_pesos(whole, frac)
    }
}

/// Whole part of the rendering: `c / 100` truncated toward zero.
pub open spec fn display_whole(c: int) -> int {
    if c >= 0 {
        c / 100
    } else {
        -((-c) / 100)
    }
}

/// Centavo part of the rendering: the magnitude of `c`'s remainder after
/// truncating division by 100.
pub open spec fn display_frac(c: int) -> int {
    if c >= 0 {
        c % 100
    } else {
        (-c) % 100
    }
}

/// The character of decimal digit `d` (`0 <= d < 10`).
pub open spec fn digit_char(d: int) -> char {
    (48 + d) as char
}

/// The decimal digits of `n`, most significant first, without leading
/// zeros (`"0"` for zero).
pub open spec fn decimal(n: nat) -> Seq<char>
    decreases n,
{
    if n < 10 {
        seq![digit_char(n as int)]
    } else {
        decimal(n / 10) + seq![digit_char((n % 10) as int)]
    }
}

/// How `{}` writes an integer: its decimal digits, after a minus sign
/// when it is negative.
pub open spec fn int_text(i: int) -> Seq<char> {
    if i < 0 {
        seq!['-'] + decimal((-i) as nat)
    } else {
        decimal(i as nat)
    }
}

/// The text of `format!("{}.{:02} pesos", whole, frac)` for
/// `0 <= frac < 100`: the whole part, a point, the two digits of `frac`,
/// and the unit.
pub open spec fn pesos_text(whole: int, frac: int) -> Seq<char> {
    int_text(whole) + seq!['.', digit_char(frac / 10), digit_char(frac % 10), ' ', 'p', 'e', 's', 'o', 's']
}

/// Renders `"{whole}.{frac:02} pesos"` with std's `format!`: `{}` writes
/// an `i64` in decimal with a leading minus sign when negative, and
/// `{:02}` writes a number below 100 as exactly two digits.
#[verifier::external_body]
fn render_pesos(whole: i64, frac: i64) -> (s: String)
    requires
        0 <= frac < 100,
    ensures
        s@ == pesos_text(whole as int, frac as int),
{
    format!("{}.{:02} pesos", whole, frac)
}

impl core::ops::Add for Pesos {
    type Output = Pesos;

    fn add(self, rhs: Self) -> (r: Pesos) {
        Pesos(self.0 + rhs.0)
    }
}

impl vstd::std_specs::ops::AddSpecImpl for Pesos {
    open spec fn obeys_add_spec() -> bool {
        true
    }

    open spec fn add_req(self, rhs: Pesos) -> bool {
        fits_i64(self@ + rhs@)
    }

    closed spec fn add_spec(self, rhs: Pesos) -> Pesos {
        Pesos((self@ + rhs@) as i64)
    }
}

impl core::ops::Sub for Pesos {
    type Output = Pesos;

    fn sub(self, rhs: Self) -> (r: Pesos) {
        Pesos(self.0 - rhs.0)
    }
}

impl vstd::std_specs::ops::SubSpecImpl for Pesos {
    open spec fn obeys_sub_spec() -> bool {
        true
    }

    open spec fn sub_req(self, rhs: Pesos) -> bool {
        fits_i64(self@ - rhs@)
    }

    closed spec fn sub_spec(self, rhs: Pesos) -> Pesos {
        Pesos((self@ - rhs@) as i64)
    }
}

impl core::ops::Neg for Pesos {
    type Output = Pesos;

    fn neg(self) -> (r: Pesos) {
        Pesos(-self.0)
    }
}

impl vstd::std_specs::ops::NegSpecImpl for Pesos {
    open spec fn obeys_neg_spec() -> bool {
        true
    }

    open spec fn neg_req(self) -> bool {
        fits_i64(-self@)
    }

    closed spec fn neg_spec(self) -> Pesos {
        Pesos((-self@) as i64)
    }
}

} // verus!
