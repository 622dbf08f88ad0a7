//! Exact rational order keys: comparison by cross-multiplication and the
//! mediant rule that yields a key strictly between two neighbours.
use vstd::prelude::*;

verus! {

/// A rational number as a mathematical pair; the model of a [`Fraction`].
pub struct Rational {
    pub num: int,
    pub den: int,
}

impl Rational {
    /// A key as the list keeps them: numerator non-negative, denominator positive.
    pub open spec fn valid(self) -> bool {
        self.num >= 0 && self.den > 0
    }

    /// `self < other` as rationals, for positive denominators.
    pub open spec fn lt(self, other: Rational) -> bool {
        self.num * other.den < other.num * self.den
    }

    /// Whether both parts fit the executable representation.
    pub open spec fn fits(self) -> bool {
        0 <= self.num <= u64::MAX && 0 <= self.den <= u64::MAX
    }
}

/// The fraction `0/1`, the implicit lower bound in front of the first key.
pub open spec fn zero() -> Rational {
    Rational { num: 0, den: 1 }
}

/// The fraction `1/1`, the key of the first item of an empty list.
pub open spec fn one() -> Rational {
    Rational { num: 1, den: 1 }
}

/// `(a.num + b.num) / (a.den + b.den)`.
pub open spec fn mediant(a: Rational, b: Rational) -> Rational {
    Rational { num: a.num + b.num, den: a.den + b.den }
}

/// The key for a slot between `lower` and `upper`, either of which may be
/// absent; `None` where the bounds are not in strictly increasing order.
pub open spec fn key_between_spec(lower: Option<Rational>, upper: Option<Rational>) -> Option<Rational> {
    match (lower, upper) {
        (Some(l), Some(u)) => if l.lt(u) { Some(mediant(l, u)) } else { None },
        (Some(l), None) => Some(Rational { num: l.num + 1, den: l.den }),
        (None, Some(u)) => if zero().lt(u) { Some(mediant(zero(), u)) } else { None },
        (None, None) => Some(one()),
    }
}

/// An order key: numerator over denominator.
#[derive(Clone, Copy, Debug, PartialEq, Eq, Structural)]
pub struct Fraction {
    pub numerator: u64,
    pub denominator: u64,
}

impl View for Fraction {
    type V = Rational;

    open spec fn view(&self) -> Rational {
        Rational { num: self.numerator as int, den: self.denominator as int }
    }
}

impl Fraction {
    /// A fraction is well formed when its denominator is positive.
    pub open spec fn wf(self) -> bool {
        self.denominator > 0
    }

    /// The fraction `numerator / denominator`.
    pub fn new(numerator: u64, denominator: u64) -> (r: Fraction)
        ensures
            r.numerator == numerator,
            r.denominator == denominator,
    {
        Fraction { numerator, denominator }
    }
}

/// What can go wrong when keys are computed or a list is reordered.
#[derive(Clone, Copy, Debug, PartialEq, Eq, Structural)]
pub enum OrderError {
    /// The lower bound is not strictly below the upper bound.
    DegenerateRange,
    /// The list holds no items.
    EmptyList,
    /// The target position lies outside `1..=count`.
    PositionOutOfRange,
    /// No item has the given id.
    NotFound,
    /// A numerator, denominator or id would exceed `u64::MAX`.
    Overflow,
}

/// The model of an optional key.
pub open spec fn opt_view(f: Option<Fraction>) -> Option<Rational> {
    match f {
        Some(k) => Some(k@),
        None => None,
    }
}

/// The three-way comparison of two rationals with positive denominators.
pub open spec fn compare_spec(a: Rational, b: Rational) -> core::cmp::Ordering {
    if a.lt(b) {
        core::cmp::Ordering::Less
    } else if b.lt(a) {
        core::cmp::Ordering::Greater
    } else {
        core::cmp::Ordering::Equal
    }
}

/// Compares two keys by cross-multiplication, never through a floating value.
pub fn compare(a: &Fraction, b: &Fraction) -> (r: core::cmp::Ordering)
    ensures
        r == compare_spec(a@, b@),
{
    let an = a.numerator as u128;
    let ad = a.denominator as u128;
    let bn = b.numerator as u128;
    let bd = b.denominator as u128;
    proof {
        lemma_product_fits(an as int, bd as int);
        lemma_product_fits(bn as int, ad as int);
    }
    let left = an * bd;
    let right = bn * ad;
    if left < right {
        core::cmp::Ordering::Less
    } else if right < left {
        core::cmp::Ordering::Greater
    } else {
        core::cmp::Ordering::Equal
    }
}

proof fn lemma_product_fits(x: int, y: int)
    requires
        0 <= x <= u64::MAX,
        0 <= y <= u64::MAX,
    ensures
        0 <= x * y <= u128::MAX,
{
    assert(0 <= x * y <= u64::MAX * u64::MAX) by (nonlinear_arith)
        requires
            0 <= x <= u64::MAX,
            0 <= y <= u64::MAX,
    ;
}

/// Computes the key for the slot between `lower` and `upper`: their mediant
/// when both are given, `(lower.num + 1) / lower.den` past the last key,
/// `upper.num / (upper.den + 1)` (the mediant with `0/1`) before the first
/// key, and `1/1` in an empty list.
pub fn key_between(lower: Option<Fraction>, upper: Option<Fraction>) -> (r: Result<Fraction, OrderError>)
    requires
        lower matches Some(l) ==> l.wf(),
        upper matches Some(u) ==> u.wf(),
    ensures
        match r {
            Ok(k) => key_between_spec(opt_view(lower), opt_view(upper)) == Some(k@),
            Err(OrderError::DegenerateRange) => key_between_spec(opt_view(lower), opt_view(upper)) is None,
            Err(OrderError::Overflow) => key_between_spec(opt_view(lower), opt_view(upper)) matches Some(q) && !q.fits(),
            Err(_) => false,
        },
{
    match (lower, upper) {
        (Some(l), Some(u)) => {
            match compare(&l, &u) {
                core::cmp::Ordering::Less => {},
                _ => return Err(OrderError::DegenerateRange),
            }
            if l.numerator > u64::MAX - u.numerator || l.denominator > u64::MAX - u.denominator {
                return Err(OrderError::Overflow);
            }
            Ok(Fraction { numerator: l.numerator + u.numerator, denominator: l.denominator + u.denominator })
        },
        (Some(l), None) => {
            if l.numerator == u64::MAX {
                return Err(OrderError::Overflow);
            }
            Ok(Fraction { numerator: l.numerator + 1, denominator: l.denominator })
        },
        (None, Some(u)) => {
            if u.numerator == 0 {
                return Err(OrderError::DegenerateRange);
            }
            if u.denominator == u64::MAX {
                return Err(OrderError::Overflow);
            }
            Ok(Fraction { numerator: u.numerator, denominator: u.denominator + 1 })
        },
        (None, None) => Ok(Fraction { numerator: 1, denominator: 1 }),
    }
}

/// `<` on rationals with positive denominators is transitive.
pub proof fn lemma_lt_transitive(a: Rational, b: Rational, c: Rational)
    requires
        a.den > 0,
        b.den > 0,
        c.den > 0,
        a.lt(b),
        b.lt(c),
    ensures
        a.lt(c),
{
    assert(a.num * c.den < c.num * a.den) by (nonlinear_arith)
        requires
            a.den > 0,
            b.den > 0,
            c.den > 0,
            a.num * b.den < b.num * a.den,
            b.num * c.den < c.num * b.den,
    {
        assert(a.num * b.den * c.den < b.num * a.den * c.den);
        assert(b.num * c.den * a.den < c.num * b.den * a.den);
        assert(b.den * (a.num * c.den) < b.den * (c.num * a.den));
    }
}

/// `a < b` and `b <= c` give `a < c`, for positive denominators.
pub proof fn lemma_lt_le_transitive(a: Rational, b: Rational, c: Rational)
    requires
        a.den > 0,
        b.den > 0,
        c.den > 0,
        a.lt(b),
        !c.lt(b),
    ensures
        a.lt(c),
{
    assert(a.num * c.den < c.num * a.den) by (nonlinear_arith)
        requires
            a.den > 0,
            b.den > 0,
            c.den > 0,
            a.num * b.den < b.num * a.den,
            b.num * c.den <= c.num * b.den,
    {
        assert(a.num * b.den * c.den < b.num * a.den * c.den);
        assert(b.num * c.den * a.den <= c.num * b.den * a.den);
        assert(b.den * (a.num * c.den) < b.den * (c.num * a.den));
    }
}

/// Whether `a < b` as rationals, by cross-multiplication.
pub fn less_than(a: &Fraction, b: &Fraction) -> (r: bool)
    ensures
        r == a@.lt(b@),
{
    match compare(a, b) {
        core::cmp::Ordering::Less => true,
        _ => false,
    }
}

/// A key computed for a slot lies strictly between the bounds that are given
/// (strictly above `lower`, strictly below `upper`) and is again a valid key.
/// With both bounds given this is the mediant property: for `lower < upper`,
/// `lower < mediant(lower, upper) < upper`.
pub proof fn lemma_key_between_bounds(lower: Option<Rational>, upper: Option<Rational>)
    requires
        lower matches Some(l) ==> l.valid(),
        upper matches Some(u) ==> u.valid(),
        key_between_spec(lower, upper) is Some,
    ensures
        key_between_spec(lower, upper) matches Some(k) && k.valid() && k.num > 0 && (lower matches Some(l)
            ==> l.lt(k)) && (upper matches Some(u) ==> k.lt(u)),
{
    match (lower, upper) {
        (Some(l), Some(u)) => {
            assert(u.num > 0) by (nonlinear_arith)
                requires
                    l.num >= 0,
                    u.den > 0,
                    l.den > 0,
                    l.num * u.den < u.num * l.den,
            ;
            assert(l.num * (l.den + u.den) < (l.num + u.num) * l.den) by (nonlinear_arith)
                requires
                    l.num * u.den < u.num * l.den,
            ;
            assert((l.num + u.num) * u.den < u.num * (l.den + u.den)) by (nonlinear_arith)
                requires
                    l.num * u.den < u.num * l.den,
            ;
        },
        (Some(l), None) => {
            assert(l.num * l.den < (l.num + 1) * l.den) by (nonlinear_arith)
                requires
                    l.den > 0,
            ;
        },
        (None, Some(u)) => {
            assert(u.num * u.den < u.num * (u.den + 1)) by (nonlinear_arith)
                requires
                    u.num > 0,
            ;
        },
        (None, None) => {},
    }
}

/// For valid keys, a law on the three-way comparison: the mediant of two keys
/// in strictly increasing order compares greater than the lower and less than
/// the upper.
pub proof fn lemma_mediant_compare(lower: Rational, upper: Rational)
    requires
        lower.valid(),
        upper.valid(),
        compare_spec(lower, upper) == core::cmp::Ordering::Less,
    ensures
        key_between_spec(Some(lower), Some(upper)) == Some(mediant(lower, upper)),
        compare_spec(lower, mediant(lower, upper)) == core::cmp::Ordering::Less,
        compare_spec(mediant(lower, upper), upper) == core::cmp::Ordering::Less,
{
    lemma_key_between_bounds(Some(lower), Some(upper));
}

} // verus!
