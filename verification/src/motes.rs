use core::cmp::Ordering;
use vstd::prelude::*;
use crate::gas::Gas;
use crate::uint512::{decimal_digits, modulus, U512};

verus! {

/// An amount of currency: a non-negative 512-bit counter of motes.
#[derive(Debug, Clone, Copy)]
pub struct Motes {
    value: U512,
}

impl View for Motes {
    type V = nat;

    closed spec fn view(&self) -> nat {
        self.value@
    }
}

impl Motes {
    /// The amount of motes that denotes `n`, for `n` below 2^512.
    pub closed spec fn from_nat(n: nat) -> Motes {
        Motes { value: U512::from_nat(n) }
    }

    /// `from_nat` inverts the view, and every amount is below 2^512.
    pub proof fn lemma_from_nat(self)
        ensures
            Self::from_nat(self@) == self,
            self@ < modulus(),
    {
        self.value.lemma_from_nat();
        self.value.lemma_bound();
    }

    /// `from_nat` gives the amount that denotes the number.
    pub proof fn lemma_from_nat_view(n: nat)
        requires
            n < modulus(),
        ensures
            Self::from_nat(n)@ == n,
    {
        U512::lemma_from_nat_view(n);
    }

    /// Two amounts are the same exactly when they denote the same number.
    pub proof fn lemma_view_injective(self, other: Motes)
        ensures
            (self@ == other@) <==> (self == other),
    {
        self.value.lemma_view_injective(other.value);
    }

    /// Wraps an integer.
    pub fn new(value: U512) -> (r: Motes)
        ensures
            r@ == value@,
    {
        Motes { value }
    }

    /// The wrapped integer.
    pub fn value(&self) -> (r: U512)
        ensures
            r@ == self@,
    {
        self.value
    }

    /// The sum, or `None` where it does not fit in 512 bits.
    pub fn checked_add(&self, rhs: Motes) -> (r: Option<Motes>)
        ensures
            self@ + rhs@ < modulus() ==> r.is_some() && r.unwrap()@ == self@ + rhs@,
            self@ + rhs@ >= modulus() ==> r.is_none(),
    {
        match self.value.checked_add(rhs.value) {
            Some(sum) => Some(Motes { value: sum }),
            None => None,
        }
    }

    /// The price of `gas` at `conv_rate` motes for each unit of gas, or `None`
    /// where the product does not fit in 512 bits.
    pub fn from_gas(gas: Gas, conv_rate: u64) -> (r: Option<Motes>)
        ensures
            gas@ * conv_rate < modulus() ==> r.is_some() && r.unwrap()@ == gas@ * conv_rate,
            gas@ * conv_rate >= modulus() ==> r.is_none(),
    {
        match gas.value().checked_mul(U512::from_u64(conv_rate)) {
            Some(product) => Some(Motes { value: product }),
            None => None,
        }
    }

    /// The amount of `value` motes.
    pub fn from_u64(value: u64) -> (r: Motes)
        ensures
            r@ == value,
    {
        Motes { value: U512::from_u64(value) }
    }

    /// The amount zero.
    pub fn zero() -> (r: Motes)
        ensures
            r@ == 0,
    {
        Motes { value: U512::zero() }
    }

    /// Whether the amount is zero.
    pub fn is_zero(&self) -> (r: bool)
        ensures
            r == (self@ == 0),
    {
        self.value.is_zero()
    }

    /// The decimal numeral of the amount.
    pub fn to_string(&self) -> (s: String)
        ensures
            s@ == decimal_digits(self@),
    {
        self.value.to_string()
    }
}

impl Default for Motes {
    fn default() -> (r: Motes)
        ensures
            r@ == 0,
    {
        Motes { value: U512::zero() }
    }
}

impl PartialEq for Motes {
    fn eq(&self, other: &Motes) -> (r: bool) {
        self.value == other.value
    }
}

impl Eq for Motes {

}

impl vstd::std_specs::cmp::PartialEqSpecImpl for Motes {
    open spec fn obeys_eq_spec() -> bool {
        true
    }

    open spec fn eq_spec(&self, other: &Motes) -> bool {
        self@ == other@
    }
}

impl PartialOrd for Motes {
    fn partial_cmp(&self, other: &Motes) -> (r: Option<Ordering>) {
        let c = self.value.compare(&other.value);
        if c < 0 {
            Some(Ordering::Less)
        } else if c == 0 {
            Some(Ordering::Equal)
        } else {
            Some(Ordering::Greater)
        }
    }
}

impl vstd::std_specs::cmp::PartialOrdSpecImpl for Motes {
    open spec fn obeys_partial_cmp_spec() -> bool {
        true
    }

    open spec fn partial_cmp_spec(&self, other: &Motes) -> Option<Ordering> {
        if self@ < other@ {
            Some(Ordering::Less)
        } else if self@ == other@ {
            Some(Ordering::Equal)
        } else {
            Some(Ordering::Greater)
        }
    }
}

impl core::ops::Add for Motes {
    type Output = Motes;

    fn add(self, rhs: Motes) -> (r: Motes)
        ensures
            r@ == self@ + rhs@,
    {
        let (sum, _) = self.value.overflowing_add(rhs.value);
        let r = Motes { value: sum };
        proof {
            r.lemma_from_nat();
        }
        r
    }
}

impl vstd::std_specs::ops::AddSpecImpl for Motes {
    open spec fn obeys_add_spec() -> bool {
        true
    }

    open spec fn add_req(self, rhs: Motes) -> bool {
        self@ + rhs@ < modulus()
    }

    open spec fn add_spec(self, rhs: Motes) -> Motes {
        Motes::from_nat(self@ + rhs@)
    }
}

impl core::ops::Sub for Motes {
    type Output = Motes;

    fn sub(self, rhs: Motes) -> (r: Motes)
        ensures
            r@ == self@ - rhs@,
    {
        let (difference, _) = self.value.overflowing_sub(rhs.value);
        let r = Motes { value: difference };
        proof {
            r.lemma_from_nat();
        }
        r
    }
}

impl vstd::std_specs::ops::SubSpecImpl for Motes {
    open spec fn obeys_sub_spec() -> bool {
        true
    }

    open spec fn sub_req(self, rhs: Motes) -> bool {
        self@ >= rhs@
    }

    open spec fn sub_spec(self, rhs: Motes) -> Motes {
        Motes::from_nat((self@ - rhs@) as nat)
    }
}

impl core::ops::Mul for Motes {
    type Output = Motes;

    fn mul(self, rhs: Motes) -> (r: Motes)
        ensures
            r@ == self@ * rhs@,
    {
        let (product, _) = self.value.overflowing_mul(rhs.value);
        let r = Motes { value: product };
        proof {
            r.lemma_from_nat();
        }
        r
    }
}

impl vstd::std_specs::ops::MulSpecImpl for Motes {
    open spec fn obeys_mul_spec() -> bool {
        true
    }

    open spec fn mul_req(self, rhs: Motes) -> bool {
        self@ * rhs@ < modulus()
    }

    open spec fn mul_spec(self, rhs: Motes) -> Motes {
        Motes::from_nat(self@ * rhs@)
    }
}

impl core::ops::Div for Motes {
    type Output = Motes;

    fn div(self, rhs: Motes) -> (r: Motes)
        ensures
            r@ == self@ / rhs@,
    {
        let (quotient, _) = self.value.div_mod(rhs.value);
        let r = Motes { value: quotient };
        proof {
            r.lemma_from_nat();
        }
        r
    }
}

impl vstd::std_specs::ops::DivSpecImpl for Motes {
    open spec fn obeys_div_spec() -> bool {
        true
    }

    open spec fn div_req(self, rhs: Motes) -> bool {
        rhs@ != 0
    }

    open spec fn div_spec(self, rhs: Motes) -> Motes {
        Motes::from_nat(self@ / rhs@)
    }
}

} // verus!
