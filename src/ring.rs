use vstd::prelude::*;

verus! {

/// An element of the integers modulo `n`, held as its least nonnegative
/// residue together with the modulus.
#[derive(Copy, Clone, Debug, PartialEq, Eq, Structural)]
pub struct Zn {
    value: u32,
    modulus: u32,
}

impl Zn {
    /// The residue held.
    pub closed spec fn val(&self) -> nat {
        self.value as nat
    }

    /// The modulus.
    pub closed spec fn n(&self) -> nat {
        self.modulus as nat
    }

    pub closed spec fn wf(&self) -> bool {
        self.value < self.modulus
    }

    /// The residue `v` modulo `n`, if `v < n`.
    pub fn new(v: u32, n: u32) -> (r: Option<Self>)
        ensures
            r.is_some() == (v < n),
            r matches Some(z) ==> z.wf() && z.val() == v && z.n() == n,
    {
        if v < n {
            Some(Zn { value: v, modulus: n })
        } else {
            None
        }
    }

    /// The residue.
    pub fn value(&self) -> (r: u32)
        ensures
            r == self.val(),
    {
        self.value
    }

    /// The modulus.
    pub fn modulus(&self) -> (r: u32)
        ensures
            r == self.n(),
    {
        self.modulus
    }

    /// Zero modulo `n`.
    pub fn zero(n: u32) -> (r: Self)
        requires
            n > 0,
        ensures
            r.wf(),
            r.val() == 0,
            r.n() == n,
    {
        Zn { value: 0, modulus: n }
    }

    /// One modulo `n`.
    pub fn one(n: u32) -> (r: Self)
        requires
            n > 1,
        ensures
            r.wf(),
            r.val() == 1,
            r.n() == n,
    {
        Zn { value: 1, modulus: n }
    }

    /// Whether this is zero.
    pub fn is_zero(&self) -> (r: bool)
        ensures
            r == (self.val() == 0),
    {
        self.value == 0
    }

    /// Whether this is one.
    pub fn is_one(&self) -> (r: bool)
        ensures
            r == (self.val() == 1),
    {
        self.value == 1
    }

    /// The sum.
    pub fn add(self, rhs: Self) -> (r: Self)
        requires
            self.wf(),
            rhs.wf(),
            self.n() == rhs.n(),
        ensures
            r.wf(),
            r.n() == self.n(),
            r.val() == (self.val() + rhs.val()) % self.n(),
    {
        Zn { value: ((self.value as u64 + rhs.value as u64) % (self.modulus as u64)) as u32, modulus: self.modulus }
    }

    /// The additive inverse.
    pub fn neg(self) -> (r: Self)
        requires
            self.wf(),
        ensures
            r.wf(),
            r.n() == self.n(),
            r.val() == (self.n() - self.val()) % (self.n() as int),
    {
        Zn { value: (self.modulus - self.value) % self.modulus, modulus: self.modulus }
    }

    /// The difference.
    pub fn sub(self, rhs: Self) -> (r: Self)
        requires
            self.wf(),
            rhs.wf(),
            self.n() == rhs.n(),
        ensures
            r.wf(),
            r.n() == self.n(),
            r.val() == (self.val() + self.n() - rhs.val()) % (self.n() as int),
    {
        Zn {
            value: ((self.value as u64 + self.modulus as u64 - rhs.value as u64) % (self.modulus as u64)) as u32,
            modulus: self.modulus,
        }
    }

    /// The product.
    pub fn mul(self, rhs: Self) -> (r: Self)
        requires
            self.wf(),
            rhs.wf(),
            self.n() == rhs.n(),
        ensures
            r.wf(),
            r.n() == self.n(),
            r.val() == (self.val() * rhs.val()) % self.n(),
    {
        assert(self.value as u64 * rhs.value as u64 <= u32::MAX as u64 * u32::MAX as u64) by (nonlinear_arith)
            requires self.value <= u32::MAX, rhs.value <= u32::MAX;
        Zn { value: ((self.value as u64 * rhs.value as u64) % (self.modulus as u64)) as u32, modulus: self.modulus }
    }
}

} // verus!
