//! Fractions of natural numbers, kept in lowest terms by addition.

use vstd::arithmetic::div_mod::{lemma_fundamental_div_mod, lemma_mod_multiples_basic};
use vstd::prelude::*;
use vstd::std_specs::ops::AddSpecImpl;

verus! {

/// Why a fraction could not be made.
#[derive(Debug, Copy, Clone, PartialEq, Eq, Structural)]
pub enum FracError {
    /// The denominator was zero.
    ZeroDenominator,
}

/// A fraction with a denominator that is not zero.
#[derive(Debug, Copy, Clone, PartialEq, Eq, Structural)]
pub struct Frac {
    num: usize,
    denom: usize,
}

/// `d` divides `n`.
pub open spec fn divides(d: nat, n: nat) -> bool {
    d > 0 && n % d == 0
}

/// `g` is the greatest number that divides both `a` and `b`.
pub open spec fn is_gcd(g: nat, a: nat, b: nat) -> bool {
    &&& divides(g, a)
    &&& divides(g, b)
    &&& forall|d: nat| divides(d, a) && divides(d, b) ==> d <= g
}

/// The greatest common divisor of `a` and `b`, where `b` is not zero.
pub open spec fn gcd(a: nat, b: nat) -> nat {
    choose|g: nat| is_gcd(g, a, b)
}

/// There is one greatest common divisor at most.
pub proof fn lemma_gcd_is(g: nat, a: nat, b: nat)
    requires
        is_gcd(g, a, b),
    ensures
        gcd(a, b) == g,
{
    let h = gcd(a, b);
    assert(is_gcd(h, a, b));
}

impl Frac {
    #[verifier::type_invariant]
    spec fn denominator_not_zero(self) -> bool {
        self.denom > 0
    }

    /// The fraction `num / denom` as it is written, not reduced.
    pub closed spec fn of(num: nat, denom: nat) -> Frac {
        Frac { num: num as usize, denom: denom as usize }
    }

    /// The numerator.
    pub closed spec fn numerator(self) -> nat {
        self.num as nat
    }

    /// The denominator.
    pub closed spec fn denominator(self) -> nat {
        self.denom as nat
    }

    /// The fraction equal to `num / denom` in lowest terms.
    pub open spec fn reduced(num: nat, denom: nat) -> Frac {
        Frac::of(num / gcd(num, denom), denom / gcd(num, denom))
    }

    /// A fraction is what its numerator and denominator say, as far as they
    /// fit the machine's numbers.
    pub proof fn lemma_of(num: nat, denom: nat)
        requires
            num <= usize::MAX,
            denom <= usize::MAX,
        ensures
            Frac::of(num, denom).numerator() == num,
            Frac::of(num, denom).denominator() == denom,
    {
    }

    /// The fraction `num / denom`, as written. A zero denominator is refused.
    pub fn new(num: usize, denom: usize) -> (made: Result<Self, FracError>)
        ensures
            denom == 0 ==> made == Err::<Frac, FracError>(FracError::ZeroDenominator),
            denom != 0 ==> made == Ok::<Frac, FracError>(Frac::of(num as nat, denom as nat)),
    {
        if denom == 0 {
            Err(FracError::ZeroDenominator)
        } else {
            Ok(Frac { num, denom })
        }
    }

    /// The numerator.
    pub fn num(&self) -> (n: usize)
        ensures
            n == self.numerator(),
    {
        self.num
    }

    /// The denominator, which is not zero.
    pub fn denom(&self) -> (d: usize)
        ensures
            d == self.denominator(),
            d > 0,
    {
        proof {
            use_type_invariant(self);
        }
        self.denom
    }
}

impl core::ops::Add for Frac {
    type Output = Frac;

    /// The sum, in lowest terms.
    fn add(self, rhs: Self) -> (sum: Self::Output) {
        proof {
            use_type_invariant(&self);
            use_type_invariant(&rhs);
            assert(self.denom * rhs.denom > 0) by (nonlinear_arith)
                requires
                    self.denom > 0,
                    rhs.denom > 0,
            ;
        }
        let new_denom = self.denom * rhs.denom;
        let new_lhs_num = self.num * rhs.denom;
        let new_rhs_num = rhs.num * self.denom;
        let new_num = new_lhs_num + new_rhs_num;
        let mut i = new_denom;
        while i >= 2
            invariant
                1 <= i <= new_denom,
                new_denom == self.denom * rhs.denom,
                new_num == self.num * rhs.denom + rhs.num * self.denom,
                forall|d: nat|
                    i < d <= new_denom ==> !(divides(d, new_num as nat) && divides(
                        d,
                        new_denom as nat,
                    )),
            decreases i,
        {
            if new_num % i == 0 && new_denom % i == 0 {
                proof {
                    lemma_common_divisor(i as nat, new_num as nat, new_denom as nat);
                    lemma_gcd_is(i as nat, new_num as nat, new_denom as nat);
                    assert(new_denom / i > 0) by (nonlinear_arith)
                        requires
                            new_denom % i == 0,
                            new_denom > 0,
                            i > 0,
                    ;
                }
                return Frac { num: new_num / i, denom: new_denom / i };
            }
            i -= 1;
        }
        proof {
            lemma_common_divisor(1, new_num as nat, new_denom as nat);
            lemma_gcd_is(1, new_num as nat, new_denom as nat);
        }
        Frac { num: new_num, denom: new_denom }
    }
}

/// A common divisor of `a` and `b` above which no number up to `b` divides
/// both is their greatest.
proof fn lemma_common_divisor(g: nat, a: nat, b: nat)
    requires
        b > 0,
        divides(g, a),
        divides(g, b),
        forall|d: nat| g < d <= b ==> !(divides(d, a) && divides(d, b)),
    ensures
        is_gcd(g, a, b),
{
    assert forall|d: nat| divides(d, a) && divides(d, b) implies d <= g by {
        assert(d <= b) by (nonlinear_arith)
            requires
                d > 0,
                b > 0,
                b % d == 0,
        ;
    }
}

/// Below any bound up to `b` from which no greater number divides both `a` and
/// `b`, a greatest common divisor is found.
proof fn lemma_greatest_below(a: nat, b: nat, bound: nat)
    requires
        b > 0,
        1 <= bound <= b,
        forall|d: nat| bound < d <= b ==> !(divides(d, a) && divides(d, b)),
    ensures
        exists|g: nat| is_gcd(g, a, b),
    decreases bound,
{
    if divides(bound, a) && divides(bound, b) {
        lemma_common_divisor(bound, a, b);
    } else {
        assert(divides(1, a) && divides(1, b));
        lemma_greatest_below(a, b, (bound - 1) as nat);
    }
}

/// Two numbers of which the second is not zero have a greatest common
/// divisor.
pub proof fn lemma_gcd_exists(a: nat, b: nat)
    requires
        b > 0,
    ensures
        is_gcd(gcd(a, b), a, b),
{
    lemma_greatest_below(a, b, b);
}

/// A number is its divisor times the quotient.
proof fn lemma_divisor_times_quotient(d: nat, n: nat)
    requires
        divides(d, n),
    ensures
        n == d * (n / d),
{
    lemma_fundamental_div_mod(n as int, d as int);
}

/// A fraction in lowest terms has the value of the fraction it was reduced
/// from, a denominator that is not zero, and no common divisor of numerator
/// and denominator but one.
pub proof fn lemma_reduced(num: nat, denom: nat)
    requires
        denom > 0,
        num <= usize::MAX,
        denom <= usize::MAX,
    ensures
        Frac::reduced(num, denom).numerator() * denom == num * Frac::reduced(
            num,
            denom,
        ).denominator(),
        Frac::reduced(num, denom).denominator() > 0,
        is_gcd(
            1,
            Frac::reduced(num, denom).numerator(),
            Frac::reduced(num, denom).denominator(),
        ),
{
    let g = gcd(num, denom);
    lemma_gcd_exists(num, denom);
    let top = num / g;
    let bottom = denom / g;
    lemma_divisor_times_quotient(g, num);
    lemma_divisor_times_quotient(g, denom);
    assert(top <= num && bottom <= denom && bottom > 0) by (nonlinear_arith)
        requires
            num == g * top,
            denom == g * bottom,
            g > 0,
            denom > 0,
    ;
    Frac::lemma_of(top, bottom);
    assert(top * denom == num * bottom) by (nonlinear_arith)
        requires
            num == g * top,
            denom == g * bottom,
    ;
    assert forall|h: nat| divides(h, top) && divides(h, bottom) implies h <= 1 by {
        lemma_divisor_times_quotient(h, top);
        lemma_divisor_times_quotient(h, bottom);
        let more = g * h;
        assert(more > 0) by (nonlinear_arith)
            requires
                more == g * h,
                g > 0,
                h > 0,
        ;
        assert(num == (top / h) * more && denom == (bottom / h) * more) by (nonlinear_arith)
            requires
                more == g * h,
                num == g * top,
                denom == g * bottom,
                top == h * (top / h),
                bottom == h * (bottom / h),
        ;
        lemma_mod_multiples_basic((top / h) as int, more as int);
        lemma_mod_multiples_basic((bottom / h) as int, more as int);
        assert(divides(more, num) && divides(more, denom));
        assert(h <= 1) by (nonlinear_arith)
            requires
                g * h <= g,
                g > 0,
        ;
    }
    assert(divides(1, top) && divides(1, bottom));
}

impl AddSpecImpl for Frac {
    open spec fn obeys_add_spec() -> bool {
        true
    }

    /// The products that the sum is made of must fit the machine's numbers.
    open spec fn add_req(self, rhs: Frac) -> bool {
        &&& self.denominator() * rhs.denominator() <= usize::MAX
        &&& self.numerator() * rhs.denominator() + rhs.numerator() * self.denominator()
            <= usize::MAX
    }

    open spec fn add_spec(self, rhs: Frac) -> Frac {
        Frac::reduced(
            self.numerator() * rhs.denominator() + rhs.numerator() * self.denominator(),
            self.denominator() * rhs.denominator(),
        )
    }
}

} // verus!
