use core::cmp::Ordering;
use vstd::prelude::*;
use crate::uint512::{decimal_digits, modulus, U512};

verus! {

/// An amount of computation: a non-negative 512-bit counter of the cost that
/// one execution consumed.
#[derive(Debug, Clone, Copy)]
pub struct Gas {
    value: U512,
}

impl View for Gas {
    type V = nat;

    closed spec fn view(&self) -> nat {
        self.value@
    }
}

impl Gas {
    /// The amount of gas that denotes `n`, for `n` below 2^512.
    pub closed spec fn from_nat(n: nat) -> Gas {
        Gas { value: U512::from_nat(n) }
    }

    /// `from_nat` inverts the view, and every amount is below 2^512.
    pub proof fn lemma_from_nat(self)
        ensures
            Self::from_nat(self@) == self,
            self@ < modulus(),
    {
        self.value.lemma_from_nat();
        self.value.lemma_bound();
    }

    /// `from_nat` gives the amount that denotes the number.
    pub proof fn lemma_from_nat_view(n: nat)
        requires
            n < modulus(),
        ensures
            Self::from_nat(n)@ == n,
    {
        U512::lemma_from_nat_view(n);
    }

    /// Two amounts are the same exactly when they denote the same number.
    pub proof fn lemma_view_injective(self, other: Gas)
        ensures
            (self@ == other@) <==> (self == other),
    {
        self.value.lemma_view_injective(other.value);
    }

    /// Wraps an integer.
    pub fn new(value: U512) -> (r: Gas)
        ensures
            r@ == value@,
    {
        Gas { value }
    }

    /// The wrapped integer.
    pub fn value(&self) -> (r: U512)
        ensures
            r@ == self@,
    {
        self.value
    }

    /// The sum, or `None` where it does not fit in 512 bits.
    pub fn checked_add(&self, rhs: Gas) -> (r: Option<Gas>)
        ensures
            self@ + rhs@ < modulus() ==> r.is_some() && r.unwrap()@ == self@ + rhs@,
            self@ + rhs@ >= modulus() ==> r.is_none(),
    {
        match self.value.checked_add(rhs.value) {
            Some(sum) => Some(Gas { value: sum }),
            None => None,
        }
    }

    /// The amount zero.
    pub fn zero() -> (r: Gas)
        ensures
            r@ == 0,
    {
        Gas { value: U512::zero() }
    }

    /// Whether the amount is zero.
    pub fn is_zero(&self) -> (r: bool)
        ensures
            r == (self@ == 0),
    {
        self.value.is_zero()
    }

    /// The decimal numeral of the amount.
    pub fn to_string(&self) -> (s: String)
        ensures
            s@ == decimal_digits(self@),
    {
        self.value.to_string()
    }
}

impl Default for Gas {
    fn default() -> (r: Gas)
        ensures
            r@ == 0,
    {
        Gas { value: U512::zero() }
    }
}

impl PartialEq for Gas {
    fn eq(&self, other: &Gas) -> (r: bool) {
        self.value == other.value
    }
}

impl Eq for Gas {

}

impl vstd::std_specs::cmp::PartialEqSpecImpl for Gas {
    open spec fn obeys_eq_spec() -> bool {
        true
    }

    open spec fn eq_spec(&self, other: &Gas) -> bool {
        self@ == other@
    }
}

impl PartialOrd for Gas {
    fn partial_cmp(&self, other: &Gas) -> (r: Option<Ordering>) {
        let c = self.value.compare(&other.value);
        if c < 0 {
            Some(Ordering::Less)
        } else if c == 0 {
            Some(Ordering::Equal)
        } else {
            Some(Ordering::Greater)
        }
    }
}

impl vstd::std_specs::cmp::PartialOrdSpecImpl for Gas {
    open spec fn obeys_partial_cmp_spec() -> bool {
        true
    }

    open spec fn partial_cmp_spec(&self, other: &Gas) -> Option<Ordering> {
        if self@ < other@ {
            Some(Ordering::Less)
        } else if self@ == other@ {
            Some(Ordering::Equal)
        } else {
            Some(Ordering::Greater)
        }
    }
}

impl core::ops::Add for Gas {
    type Output = Gas;

    fn add(self, rhs: Gas) -> (r: Gas)
        ensures
            r@ == self@ + rhs@,
    {
        let (sum, _) = self.value.overflowing_add(rhs.value);
        let r = Gas { value: sum };
        proof {
            r.lemma_from_nat();
        }
        r
    }
}

impl vstd::std_specs::ops::AddSpecImpl for Gas {
    open spec fn obeys_add_spec() -> bool {
        true
    }

    open spec fn add_req(self, rhs: Gas) -> bool {
        self@ + rhs@ < modulus()
    }

    open spec fn add_spec(self, rhs: Gas) -> Gas {
        Gas::from_nat(self@ + rhs@)
    }
}

impl core::ops::Sub for Gas {
    type Output = Gas;

    fn sub(self, rhs: Gas) -> (r: Gas)
        ensures
            r@ == self@ - rhs@,
    {
        let (difference, _) = self.value.overflowing_sub(rhs.value);
        let r = Gas { value: difference };
        proof {
            r.lemma_from_nat();
        }
        r
    }
}

impl vstd::std_specs::ops::SubSpecImpl for Gas {
    open spec fn obeys_sub_spec() -> bool {
        true
    }

    open spec fn sub_req(self, rhs: Gas) -> bool {
        self@ >= rhs@
    }

    open spec fn sub_spec(self, rhs: Gas) -> Gas {
        Gas::from_nat((self@ - rhs@) as nat)
    }
}

impl core::ops::Mul for Gas {
    type Output = Gas;

    fn mul(self, rhs: Gas) -> (r: Gas)
        ensures
            r@ == self@ * rhs@,
    {
        let (product, _) = self.value.overflowing_mul(rhs.value);
        let r = Gas { value: product };
        proof {
            r.lemma_from_nat();
        }
        r
    }
}

impl vstd::std_specs::ops::MulSpecImpl for Gas {
    open spec fn obeys_mul_spec() -> bool {
        true
    }

    open spec fn mul_req(self, rhs: Gas) -> bool {
        self@ * rhs@ < modulus()
    }

    open spec fn mul_spec(self, rhs: Gas) -> Gas {
        Gas::from_nat(self@ * rhs@)
    }
}

impl core::ops::Div for Gas {
    type Output = Gas;

    fn div(self, rhs: Gas) -> (r: Gas)
        ensures
            r@ == self@ / rhs@,
    {
        let (quotient, _) = self.value.div_mod(rhs.value);
        let r = Gas { value: quotient };
        proof {
            r.lemma_from_nat();
        }
        r
    }
}

impl vstd::std_specs::ops::DivSpecImpl for Gas {
    open spec fn obeys_div_spec() -> bool {
        true
    }

    open spec fn div_req(self, rhs: Gas) -> bool {
        rhs@ != 0
    }

    open spec fn div_spec(self, rhs: Gas) -> Gas {
        Gas::from_nat(self@ / rhs@)
    }
}

} // verus!
