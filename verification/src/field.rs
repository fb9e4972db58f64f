//! Arithmetic in the prime field of order `P`.
//!
//! A field element is held as its canonical representative in `0..P`.
//! Every operation is specified by the value it produces modulo `P`.
use vstd::arithmetic::div_mod::*;
use vstd::arithmetic::mul::*;
use vstd::prelude::*;

verus! {

/// The value of a big-endian byte string.
pub open spec fn be_bytes_value(s: Seq<u8>) -> nat
    decreases s.len(),
{
    if s.len() == 0 {
        0
    } else {
        be_bytes_value(s.drop_last()) * 256 + s.last() as nat
    }
}

/// `d` divides `x`.
pub open spec fn divides(d: int, x: int) -> bool {
    exists|k: int| #[trigger] (d * k) == x
}

/// `p` is a prime number.
pub open spec fn is_prime(p: nat) -> bool {
    &&& p > 1
    &&& forall|d: nat| 1 < d < p ==> #[trigger] (p % d) != 0
}

/// An element of the prime field of order `P`, held in canonical form.
#[derive(Clone, Copy, Debug)]
pub struct Fp<const P: u64> {
    val: u64,
}

impl<const P: u64> Fp<P> {
    #[verifier::type_invariant]
    pub closed spec fn canonical(self) -> bool {
        self.val < P
    }

    /// The value in `0..P` that the element stands for.
    pub closed spec fn value(self) -> nat {
        self.val as nat
    }

    /// The element of value `n % P`.
    pub closed spec fn from_nat(n: nat) -> Self {
        Fp { val: (n % (P as nat)) as u64 }
    }

    /// The element of value `x mod P` for an integer `x`.
    pub open spec fn from_int(x: int) -> Self {
        Self::from_nat((x % (P as int)) as nat)
    }

    pub open spec fn spec_zero() -> Self {
        Self::from_nat(0)
    }

    pub open spec fn spec_one() -> Self {
        Self::from_nat(1)
    }

    pub open spec fn spec_add(self, other: Self) -> Self {
        Self::from_nat(self.value() + other.value())
    }

    pub open spec fn spec_sub(self, other: Self) -> Self {
        Self::from_int(self.value() - other.value())
    }

    pub open spec fn spec_neg(self) -> Self {
        Self::from_int(-(self.value() as int))
    }

    pub open spec fn spec_mul(self, other: Self) -> Self {
        Self::from_nat(self.value() * other.value())
    }

    /// The value of `from_nat(n)` is `n % P`.
    pub proof fn lemma_from_nat(n: nat)
        requires
            0 < P,
        ensures
            Self::from_nat(n).value() == n % (P as nat),
            Self::from_nat(n).value() < P,
    {
        lemma_mod_bound(n as int, P as int);
    }

    /// Two elements are the same exactly when their values are.
    pub proof fn lemma_value_injective(a: Self, b: Self)
        ensures
            a.value() == b.value() <==> a == b,
    {
    }

    /// Products of one and minus one.
    pub proof fn lemma_sign_mul()
        requires
            1 < P,
        ensures
            Self::spec_one().value() == 1,
            Self::spec_one().spec_neg().value() == P - 1,
            Self::spec_one().spec_mul(Self::spec_one()) == Self::spec_one(),
            Self::spec_one().spec_mul(Self::spec_one().spec_neg()) == Self::spec_one().spec_neg(),
            Self::spec_one().spec_neg().spec_mul(Self::spec_one()) == Self::spec_one().spec_neg(),
            Self::spec_one().spec_neg().spec_mul(Self::spec_one().spec_neg()) == Self::spec_one(),
    {
        let p = P as nat;
        lemma_small_mod(1, p);
        Self::lemma_from_nat(1);
        let one = Self::spec_one();
        let m1 = one.spec_neg();
        lemma_mod_add_multiples_vanish(-1, P as int);
        lemma_small_mod((p - 1) as nat, p);
        Self::lemma_from_nat((p - 1) as nat);
        assert(m1.value() == p - 1);
        lemma_small_mod((p - 1) as nat, p);
        Self::lemma_from_nat(((p - 1) * (p - 1)) as nat);
        assert((p - 1) * (p - 1) == (p - 2) * p + 1) by (nonlinear_arith)
            requires
                p > 1,
        ;
        lemma_mod_multiples_vanish((p - 2) as int, 1, p as int);
        lemma_small_mod(1, p);
        Self::lemma_value_injective(m1.spec_mul(m1), one);
        Self::lemma_from_nat((1 * (p - 1)) as nat);
        Self::lemma_from_nat(((p - 1) * 1) as nat);
        Self::lemma_value_injective(one.spec_mul(m1), m1);
        Self::lemma_value_injective(m1.spec_mul(one), m1);
        Self::lemma_value_injective(one.spec_mul(one), one);
    }

    /// A canonical element's value is below `P`.
    pub proof fn lemma_canonical(x: Self)
        requires
            x.canonical(),
        ensures
            x.value() < P,
    {
    }

    /// Adding zero on the left keeps a canonical element.
    pub proof fn lemma_add_zero_left(x: Self)
        requires
            x.value() < P,
        ensures
            Self::spec_zero().spec_add(x) == x,
    {
        lemma_small_mod(x.value(), P as nat);
        lemma_small_mod(0, P as nat);
    }

    /// Addition and multiplication are commutative.
    pub proof fn lemma_commutative(x: Self, y: Self)
        ensures
            x.spec_add(y) == y.spec_add(x),
            x.spec_mul(y) == y.spec_mul(x),
    {
        lemma_mul_is_commutative(x.value() as int, y.value() as int);
    }

    /// Addition is associative.
    pub proof fn lemma_add_associative(x: Self, y: Self, z: Self)
        requires
            0 < P,
        ensures
            x.spec_add(y).spec_add(z) == x.spec_add(y.spec_add(z)),
    {
        let p = P as int;
        let (a, b, c) = (x.value() as int, y.value() as int, z.value() as int);
        Self::lemma_from_nat((a + b) as nat);
        Self::lemma_from_nat((b + c) as nat);
        // ((a + b) % p + c) % p == (a + b + c) % p
        lemma_add_mod_noop((a + b) % p, c, p);
        lemma_mod_twice(a + b, p);
        lemma_add_mod_noop(a + b, c, p);
        // (a + (b + c) % p) % p == (a + b + c) % p
        lemma_add_mod_noop(a, (b + c) % p, p);
        lemma_mod_twice(b + c, p);
        lemma_add_mod_noop(a, b + c, p);
        Self::lemma_from_nat((x.spec_add(y).value() + c) as nat);
        Self::lemma_from_nat((a + y.spec_add(z).value()) as nat);
        Self::lemma_value_injective(x.spec_add(y).spec_add(z), x.spec_add(y.spec_add(z)));
    }

    /// Multiplication is associative.
    pub proof fn lemma_mul_associative(x: Self, y: Self, z: Self)
        requires
            0 < P,
        ensures
            x.spec_mul(y).spec_mul(z) == x.spec_mul(y.spec_mul(z)),
    {
        let p = P as int;
        let (a, b, c) = (x.value() as int, y.value() as int, z.value() as int);
        Self::lemma_from_nat((a * b) as nat);
        Self::lemma_from_nat((b * c) as nat);
        lemma_mul_mod_noop_left(a * b, c, p);
        lemma_mul_mod_noop_right(a, b * c, p);
        lemma_mul_is_associative(a, b, c);
        lemma_mul_nonnegative(a, b);
        lemma_mul_nonnegative(b, c);
        Self::lemma_from_nat((x.spec_mul(y).value() * c) as nat);
        Self::lemma_from_nat((a * y.spec_mul(z).value()) as nat);
        Self::lemma_value_injective(x.spec_mul(y).spec_mul(z), x.spec_mul(y.spec_mul(z)));
    }

    /// Multiplication distributes over addition.
    pub proof fn lemma_distributive(x: Self, y: Self, z: Self)
        requires
            0 < P,
        ensures
            x.spec_mul(y.spec_add(z)) == x.spec_mul(y).spec_add(x.spec_mul(z)),
    {
        let p = P as int;
        let (a, b, c) = (x.value() as int, y.value() as int, z.value() as int);
        Self::lemma_from_nat((b + c) as nat);
        lemma_mul_nonnegative(a, b);
        lemma_mul_nonnegative(a, c);
        Self::lemma_from_nat((a * b) as nat);
        Self::lemma_from_nat((a * c) as nat);
        lemma_mul_mod_noop_right(a, b + c, p);
        lemma_mul_is_distributive_add(a, b, c);
        lemma_add_mod_noop(a * b, a * c, p);
        lemma_mul_nonnegative(a, y.spec_add(z).value() as int);
        Self::lemma_from_nat((a * y.spec_add(z).value()) as nat);
        Self::lemma_from_nat((x.spec_mul(y).value() + x.spec_mul(z).value()) as nat);
        Self::lemma_value_injective(x.spec_mul(y.spec_add(z)), x.spec_mul(y).spec_add(x.spec_mul(z)));
    }

    /// Zero and one are neutral, zero absorbs, on canonical elements.
    pub proof fn lemma_identities(x: Self)
        requires
            1 < P,
            x.value() < P,
        ensures
            x.spec_add(Self::spec_zero()) == x,
            Self::spec_zero().spec_add(x) == x,
            x.spec_mul(Self::spec_one()) == x,
            Self::spec_one().spec_mul(x) == x,
            x.spec_mul(Self::spec_zero()) == Self::spec_zero(),
            Self::spec_zero().spec_mul(x) == Self::spec_zero(),
            x.spec_neg().spec_neg() == x,
            Self::spec_zero().value() == 0,
            Self::spec_one().value() == 1,
    {
        let p = P as nat;
        lemma_small_mod(0, p);
        lemma_small_mod(1, p);
        lemma_small_mod(x.value(), p);
        Self::lemma_from_nat(0);
        Self::lemma_from_nat(1);
        Self::lemma_value_injective(x.spec_add(Self::spec_zero()), x);
        Self::lemma_value_injective(Self::spec_zero().spec_add(x), x);
        lemma_mul_basics(x.value() as int);
        Self::lemma_value_injective(x.spec_mul(Self::spec_one()), x);
        Self::lemma_value_injective(Self::spec_one().spec_mul(x), x);
        Self::lemma_value_injective(x.spec_mul(Self::spec_zero()), Self::spec_zero());
        Self::lemma_value_injective(Self::spec_zero().spec_mul(x), Self::spec_zero());
        let v = x.value() as int;
        lemma_mod_bound(-v, p as int);
        Self::lemma_from_nat(((-v) % (p as int)) as nat);
        let n1 = x.spec_neg();
        if v == 0 {
            lemma_small_mod(0, p);
            assert(n1.value() == 0);
        } else {
            lemma_mod_add_multiples_vanish(-v, p as int);
            lemma_small_mod((p - v) as nat, p);
            assert(n1.value() == p - v);
        }
        let w = n1.value() as int;
        lemma_mod_bound(-w, p as int);
        Self::lemma_from_nat(((-w) % (p as int)) as nat);
        if w == 0 {
            lemma_small_mod(0, p);
        } else {
            lemma_mod_add_multiples_vanish(-w, p as int);
            lemma_small_mod((p - w) as nat, p);
        }
        Self::lemma_value_injective(n1.spec_neg(), x);
    }

    /// Adding `c` times minus one gives zero exactly when the element is `c`.
    pub proof fn lemma_minus_zero(x: Self, c: Self)
        requires
            1 < P,
            x.value() < P,
            c.value() < P,
        ensures
            x.spec_add(c.spec_mul(Self::spec_one().spec_neg())) == Self::spec_zero() <==> x == c,
    {
        let p = P as int;
        let u = x.value() as int;
        let v = c.value() as int;
        Self::lemma_sign_mul();
        let m1 = Self::spec_one().spec_neg();
        let n = c.spec_mul(m1);
        lemma_mul_nonnegative(v, p - 1);
        Self::lemma_from_nat((v * (p - 1)) as nat);
        if v == 0 {
            lemma_mul_basics(p - 1);
            assert(v * (p - 1) == 0);
            lemma_small_mod(0, p as nat);
            assert(n.value() == 0);
        } else {
            assert(v * (p - 1) == p * (v - 1) + (p - v)) by (nonlinear_arith);
            lemma_mod_multiples_vanish(v - 1, p - v, p);
            lemma_small_mod((p - v) as nat, p as nat);
            assert(n.value() == p - v);
        }
        let s = x.spec_add(n);
        Self::lemma_from_nat((u + n.value()) as nat);
        Self::lemma_from_nat(0);
        lemma_small_mod(0, p as nat);
        if v == 0 {
            lemma_small_mod(u as nat, p as nat);
        } else if u == v {
            lemma_mod_self_0(p);
        } else if u > v {
            lemma_mod_sub_multiples_vanish(u + p - v, p);
            lemma_small_mod((u - v) as nat, p as nat);
        } else {
            lemma_small_mod((u + p - v) as nat, p as nat);
        }
        Self::lemma_value_injective(s, Self::spec_zero());
        Self::lemma_value_injective(x, c);
    }

    /// Subtracting is adding the negation.
    pub proof fn lemma_sub_add_neg(x: Self, y: Self)
        requires
            0 < P,
        ensures
            x.spec_sub(y) == x.spec_add(y.spec_neg()),
    {
        let p = P as int;
        let a = x.value() as int;
        let b = y.value() as int;
        lemma_mod_bound(a - b, p);
        lemma_mod_bound(-b, p);
        Self::lemma_from_nat(((a - b) % p) as nat);
        Self::lemma_from_nat(((-b) % p) as nat);
        lemma_mod_twice(-b, p);
        Self::lemma_from_nat((a + y.spec_neg().value()) as nat);
        lemma_add_mod_noop(a, -b, p);
        lemma_mod_twice(a, p);
        lemma_mod_twice(a - b, p);
        lemma_add_mod_noop(a, (-b) % p, p);
        Self::lemma_value_injective(x.spec_sub(y), x.spec_add(y.spec_neg()));
    }

    /// A term moves across an equation as its negation: `x == y + e` exactly
    /// when `x + e * (-1) == y`.
    pub proof fn lemma_move_term(x: Self, y: Self, e: Self)
        requires
            1 < P,
            x.value() < P,
            y.value() < P,
            e.value() < P,
        ensures
            (x == y.spec_add(e)) <==> (x.spec_add(e.spec_mul(Self::spec_one().spec_neg())) == y),
    {
        let m = e.spec_mul(Self::spec_one().spec_neg());
        let zero = Self::spec_zero();
        Self::lemma_minus_zero(e, e);
        Self::lemma_commutative(e, m);
        Self::lemma_identities(x);
        Self::lemma_identities(y);
        Self::lemma_ops_canonical(e, Self::spec_one().spec_neg());
        if x == y.spec_add(e) {
            Self::lemma_add_associative(y, e, m);
        }
        if x.spec_add(m) == y {
            Self::lemma_add_associative(x, m, e);
        }
    }

    /// Results of the field operations are canonical.
    pub proof fn lemma_ops_canonical(x: Self, y: Self)
        requires
            0 < P,
        ensures
            x.spec_add(y).value() < P,
            x.spec_sub(y).value() < P,
            x.spec_mul(y).value() < P,
            x.spec_neg().value() < P,
            Self::spec_zero().value() == 0,
            Self::spec_one().value() == 1nat % (P as nat),
    {
        Self::lemma_from_nat(x.value() + y.value());
        Self::lemma_from_nat(x.value() * y.value());
        lemma_mod_bound(x.value() - y.value(), P as int);
        Self::lemma_from_nat(((x.value() - y.value()) % (P as int)) as nat);
        lemma_mod_bound(-(x.value() as int), P as int);
        Self::lemma_from_nat(((-(x.value() as int)) % (P as int)) as nat);
        Self::lemma_from_nat(0);
        Self::lemma_from_nat(1);
    }

    /// The element of value `x % P`.
    pub fn from_u64(x: u64) -> (r: Self)
        requires
            0 < P,
        ensures
            r.value() == x as nat % P as nat,
            r == Self::from_nat(x as nat),
    {
        let p: u64 = P;
        Fp { val: x % p }
    }

    /// The element of value `x` reduced into `0..P` (negative values wrap around).
    pub fn from_i64(x: i64) -> (r: Self)
        requires
            0 < P,
        ensures
            r.value() == (x as int) % (P as int),
            r == Self::from_int(x as int),
    {
        let p: u64 = P;
        proof {
            lemma_mod_bound(x as int, p as int);
            lemma_small_mod(((x as int) % (p as int)) as nat, p as nat);
        }
        if x >= 0 {
            let v: u64 = x as u64;
            Fp { val: v % p }
        } else {
            // |x| as u64 is at most 2^63
            let m: u64 = if x == i64::MIN { 0x8000_0000_0000_0000u64 } else { (-x) as u64 };
            let r: u64 = m % p;
            proof {
                lemma_fundamental_div_mod(m as int, p as int);
                lemma_mod_bound(m as int, p as int);
                assert(x as int == -(m as int));
                // x = -(q p + r) = (-q - 1) p + (p - r)
                if r == 0 {
                    lemma_mod_multiples_basic(-((m as int) / (p as int)), p as int);
                    assert((x as int) == -((m as int) / (p as int)) * (p as int)) by (nonlinear_arith)
                        requires
                            m as int == (p as int) * (m as int / p as int) + r as int,
                            r == 0,
                            x as int == -(m as int),
                    ;
                } else {
                    let q = (m as int) / (p as int);
                    assert((x as int) == (-q - 1) * (p as int) + ((p - r) as int)) by (nonlinear_arith)
                        requires
                            m as int == (p as int) * q + r as int,
                            x as int == -(m as int),
                    ;
                    lemma_fundamental_div_mod_converse(x as int, p as int, -q - 1, (p - r) as int);
                }
            }
            if r == 0 {
                Fp { val: 0 }
            } else {
                Fp { val: p - r }
            }
        }
    }

    /// The additive identity.
    pub fn zero() -> (r: Self)
        requires
            0 < P,
        ensures
            r.value() == 0,
            r == Self::spec_zero(),
    {
        proof {
            lemma_small_mod(0, P as nat);
        }
        Fp { val: 0 }
    }

    /// The multiplicative identity.
    pub fn one() -> (r: Self)
        requires
            1 < P,
        ensures
            r.value() == 1,
            r == Self::spec_one(),
    {
        proof {
            lemma_small_mod(1, P as nat);
        }
        Fp { val: 1 }
    }

    /// The canonical representative of the element.
    pub fn to_u64(&self) -> (r: u64)
        ensures
            r == self.value(),
    {
        self.val
    }

    /// Whether the element is zero.
    pub fn is_zero(&self) -> (r: bool)
        ensures
            r == (self.value() == 0),
    {
        self.val == 0
    }

    /// Field equality.
    pub fn equals(&self, other: &Self) -> (r: bool)
        ensures
            r == (self.value() == other.value()),
            r == (*self == *other),
    {
        self.val == other.val
    }

    /// Field addition.
    pub fn add(&self, other: &Self) -> (r: Self)
        ensures
            r.value() == (self.value() + other.value()) % (P as nat),
            r == self.spec_add(*other),
    {
        proof {
            use_type_invariant(self);
            use_type_invariant(other);
        }
        let p: u64 = P;
        let s: u128 = self.val as u128 + other.val as u128;
        let v: u128 = s % (p as u128);
        Fp { val: v as u64 }
    }

    /// Field subtraction.
    pub fn sub(&self, other: &Self) -> (r: Self)
        ensures
            r.value() == (self.value() - other.value()) % (P as int),
            r == self.spec_sub(*other),
    {
        proof {
            use_type_invariant(self);
            use_type_invariant(other);
        }
        let p: u64 = P;
        if self.val >= other.val {
            let v: u64 = self.val - other.val;
            proof {
                lemma_small_mod(v as nat, p as nat);
            }
            Fp { val: v }
        } else {
            let v: u64 = p - (other.val - self.val);
            proof {
                lemma_small_mod(v as nat, p as nat);
                lemma_mod_add_multiples_vanish(self.val - other.val, p as int);
            }
            Fp { val: v }
        }
    }

    /// Additive inverse.
    pub fn neg(&self) -> (r: Self)
        ensures
            r.value() == (-(self.value() as int)) % (P as int),
            r == self.spec_neg(),
    {
        proof {
            use_type_invariant(self);
        }
        let p: u64 = P;
        if self.val == 0 {
            proof {
                lemma_small_mod(0, p as nat);
            }
            Fp { val: 0 }
        } else {
            let v: u64 = p - self.val;
            proof {
                lemma_small_mod(v as nat, p as nat);
                lemma_mod_add_multiples_vanish(-(self.val as int), p as int);
            }
            Fp { val: v }
        }
    }

    /// The canonical element whose product with `self` is one (meaningful when `self` is invertible).
    pub open spec fn spec_inv(self) -> Self {
        choose|y: Self| y.value() < P && #[trigger] self.spec_mul(y) == Self::spec_one()
    }

    /// Inverses are unique among canonical elements.
    pub proof fn lemma_inverse_unique(x: Self, y1: Self, y2: Self)
        requires
            y1.value() < P,
            y2.value() < P,
            x.spec_mul(y1) == Self::spec_one(),
            x.spec_mul(y2) == Self::spec_one(),
        ensures
            y1 == y2,
    {
        let p = P as int;
        let (xv, a, b) = (x.value() as int, y1.value() as int, y2.value() as int);
        // a = a * (x * b) = (a * x) * b = b  (mod p)
        assert((xv * a) % p == 1int % p);
        assert((xv * b) % p == 1int % p);
        lemma_mul_mod_noop_right(a, xv * b, p);
        lemma_mul_mod_noop_right(b, xv * a, p);
        assert(a * (xv * b) == b * (xv * a)) by (nonlinear_arith);
        lemma_mul_mod_noop_right(a, 1, p);
        lemma_mul_mod_noop_right(b, 1, p);
        lemma_small_mod(a as nat, p as nat);
        lemma_small_mod(b as nat, p as nat);
        Self::lemma_value_injective(y1, y2);
    }

    /// For a prime modulus every nonzero canonical element has an inverse, and
    /// `spec_inv` is it.
    pub proof fn lemma_inverse_exists(x: Self)
        requires
            is_prime(P as nat),
            0 < x.value() < P,
        ensures
            x.spec_inv().value() < P,
            x.spec_mul(x.spec_inv()) == Self::spec_one(),
    {
        let p = P as int;
        let xv = x.value() as int;
        let (g, s, t, a, c) = lemma_bezout(xv, p);
        lemma_prime_gcd(xv, p, g, a, c);
        let y = s % p;
        lemma_mod_bound(s, p);
        let w = Self::from_nat(y as nat);
        Self::lemma_from_nat(y as nat);
        lemma_small_mod(y as nat, P as nat);
        lemma_mul_mod_noop_right(xv, s, p);
        assert(xv * s == 1 - p * t);
        lemma_mod_multiples_vanish(-t, 1, p);
        assert(p * (-t) + 1 == 1 - p * t) by (nonlinear_arith);
        lemma_small_mod(1, P as nat);
        lemma_mul_nonnegative(xv, y);
        Self::lemma_from_nat((xv * y) as nat);
        Self::lemma_from_nat(1);
        Self::lemma_value_injective(x.spec_mul(w), Self::spec_one());
        assert(w.value() < P && x.spec_mul(w) == Self::spec_one());
    }

    /// `self` has a multiplicative inverse modulo `P`.
    pub open spec fn invertible(self) -> bool {
        exists|y: nat| #[trigger] ((self.value() * y) % (P as nat)) == 1nat % (P as nat)
    }

    /// The multiplicative inverse, where one exists (for a prime `P`: for
    /// every nonzero element).
    pub fn inverse(&self) -> (r: Option<Self>)
        ensures
            r is Some <==> self.invertible(),
            r matches Some(y) ==> self.spec_mul(y) == Self::spec_one() && y == self.spec_inv(),
            is_prime(P as nat) && self.value() != 0 ==> r is Some,
    {
        proof {
            use_type_invariant(self);
        }
        let p: u64 = P;
        let x: u64 = self.val;
        let mut r0: u64 = p;
        let mut r1: u64 = x;
        let mut t0: u64 = 0;
        let mut t1: u64 = 1 % p;
        let ghost mut a: int = 0;
        let ghost mut b: int = 1;
        let ghost mut c: int = 1;
        let ghost mut d: int = 0;
        proof {
            lemma_small_mod(0, p as nat);
            lemma_mod_bound(1, p as int);
            lemma_mul_mod_noop_left(1, x as int, p as int);
        }
        while r1 != 0
            invariant
                p == P,
                0 < p,
                x < p,
                r0 <= p,
                r1 < p || (r1 == x && r0 == p),
                t0 < p,
                t1 < p,
                (r0 as int) % (p as int) == ((t0 as int) * (x as int)) % (p as int),
                (r1 as int) % (p as int) == ((t1 as int) * (x as int)) % (p as int),
                x as int == a * r0 + b * r1,
                p as int == c * r0 + d * r1,
            decreases r1,
        {
            let q: u64 = r0 / r1;
            let r2: u64 = r0 % r1;
            proof {
                lemma_fundamental_div_mod(r0 as int, r1 as int);
                lemma_mod_bound(r0 as int, r1 as int);
                lemma_div_is_ordered_by_denominator(r0 as int, 1, r1 as int);
                lemma_mul_upper_bound(q as int, p as int, t1 as int, p as int);
                assert((p as int) * (p as int) <= u64::MAX as int * u64::MAX as int) by (nonlinear_arith)
                    requires p <= u64::MAX;
                assert(u64::MAX as int * u64::MAX as int <= u128::MAX) by (nonlinear_arith);
            }
            let qt: u128 = ((q as u128) * (t1 as u128)) % (p as u128);
            let t2: u64 = (((t0 as u128) + (p as u128) - qt) % (p as u128)) as u64;
            proof {
                let qi = q as int;
                // r2 = r0 - q r1 and t2 = t0 - q t1 (mod p)
                assert(r2 as int == r0 as int - qi * r1 as int) by (nonlinear_arith)
                    requires r0 as int == r1 as int * qi + r2 as int;
                lemma_mod_bound(((q as int) * (t1 as int)), p as int);
                lemma_mod_sub_mul(r0 as int, r1 as int, qi, t0 as int, t1 as int, x as int, p as int, t2 as int, qt as int);
                let na = a * qi + b;
                let nc = c * qi + d;
                let ri0 = r0 as int;
                let ri1 = r1 as int;
                let ri2 = r2 as int;
                assert(x as int == na * ri1 + a * ri2) by (nonlinear_arith)
                    requires x as int == a * ri0 + b * ri1, ri0 == ri1 * qi + ri2, na == a * qi + b;
                assert(p as int == nc * ri1 + c * ri2) by (nonlinear_arith)
                    requires p as int == c * ri0 + d * ri1, ri0 == ri1 * qi + ri2, nc == c * qi + d;
                let oa = a;
                let oc = c;
                a = na;
                b = oa;
                c = nc;
                d = oc;
            }
            r0 = r1;
            r1 = r2;
            t0 = t1;
            t1 = t2;
        }
        proof {
            // r0 divides x and p
            assert(x as int == a * r0);
            assert(p as int == c * r0);
        }
        if r0 == 1 {
            proof {
                lemma_mul_is_commutative(x as int, t0 as int);
                assert(((x as nat) * (t0 as nat)) % (p as nat) == 1nat % (p as nat));
            }
            let y = Fp { val: t0 };
            proof {
                assert(((self.value() * y.value()) % (P as nat)) == 1nat % (P as nat));
                lemma_small_mod(0, p as nat);
                lemma_mod_bound(1, p as int);
                assert(self.spec_mul(y) == Self::spec_one());
                let z = self.spec_inv();
                assert(z.value() < P && self.spec_mul(z) == Self::spec_one());
                Self::lemma_inverse_unique(*self, y, z);
            }
            Some(y)
        } else {
            proof {
                assert(!self.invertible()) by {
                    if self.invertible() {
                        let y = choose|y: nat| #[trigger] ((self.value() * y) % (P as nat)) == 1nat % (P as nat);
                        lemma_no_inverse(x as int, p as int, r0 as int, a, c, y as int);
                    }
                }
                if is_prime(p as nat) && x != 0 {
                    lemma_prime_gcd(x as int, p as int, r0 as int, a, c);
                }
            }
            None
        }
    }

    /// Field multiplication.
    pub fn mul(&self, other: &Self) -> (r: Self)
        ensures
            r.value() == (self.value() * other.value()) % (P as nat),
            r == self.spec_mul(*other),
    {
        proof {
            use_type_invariant(self);
            use_type_invariant(other);
        }
        let p: u64 = P;
        let a: u128 = self.val as u128;
        let b: u128 = other.val as u128;
        proof {
            lemma_mul_upper_bound(a as int, u64::MAX as int, b as int, u64::MAX as int);
            assert(u64::MAX as int * u64::MAX as int <= u128::MAX) by (nonlinear_arith);
        }
        let s: u128 = a * b;
        let v: u128 = s % (p as u128);
        Fp { val: v as u64 }
    }

    /// The big-endian encoding of the canonical representative (eight bytes).
    pub fn to_bytes_be(&self) -> (r: Vec<u8>)
        ensures
            r@ == be_encoding(self.value(), 8),
    {
        u64_to_be_bytes(self.val, 8)
    }

    /// The element whose value is the big-endian number `bytes`, reduced modulo `P`.
    pub fn from_be_bytes_mod_order(bytes: &[u8]) -> (r: Self)
        requires
            0 < P,
        ensures
            r.value() == be_bytes_value(bytes@) % (P as nat),
            r == Self::from_nat(be_bytes_value(bytes@)),
    {
        let p: u64 = P;
        let mut acc: u64 = 0;
        let mut i: usize = 0;
        proof {
            assert(bytes@.subrange(0, 0).len() == 0);
            lemma_small_mod(0, p as nat);
        }
        while i < bytes.len()
            invariant
                0 < p,
                p == P,
                i <= bytes@.len(),
                acc < p,
                acc as nat == be_bytes_value(bytes@.subrange(0, i as int)) % (p as nat),
            decreases bytes.len() - i,
        {
            let b: u8 = bytes[i];
            proof {
                assert(bytes@.subrange(0, i + 1).drop_last() =~= bytes@.subrange(0, i as int));
                let prev = be_bytes_value(bytes@.subrange(0, i as int));
                lemma_mul_mod_noop_left(prev as int, 256, p as int);
                lemma_add_mod_noop((prev * 256) as int, b as int, p as int);
                lemma_add_mod_noop((acc * 256) as int, b as int, p as int);
                lemma_mul_upper_bound(acc as int, u64::MAX as int, 256, 256);
            }
            let t: u128 = (acc as u128) * 256u128 + (b as u128);
            acc = (t % (p as u128)) as u64;
            i = i + 1;
        }
        proof {
            assert(bytes@.subrange(0, bytes@.len() as int) =~= bytes@);
        }
        Fp { val: acc }
    }
}

/// A vector holding the same elements as the slice.
pub fn to_vec<const P: u64>(s: &[Fp<P>]) -> (r: Vec<Fp<P>>)
    ensures
        r@ == s@,
{
    let mut out: Vec<Fp<P>> = Vec::new();
    let mut i: usize = 0;
    while i < s.len()
        invariant
            i <= s@.len(),
            out@ == s@.subrange(0, i as int),
        decreases s@.len() - i,
    {
        out.push(s[i]);
        i = i + 1;
        proof {
            assert(out@ =~= s@.subrange(0, i as int));
        }
    }
    proof {
        assert(out@ =~= s@);
    }
    out
}

/// The `width` low bytes of `x`, most significant first.
pub open spec fn be_encoding(x: nat, width: nat) -> Seq<u8> {
    Seq::new(width, |i: int| ((x / pow256((width - 1 - i) as nat)) % 256) as u8)
}

/// The `width` low bytes of `x`, most significant first.
pub fn u64_to_be_bytes(x: u64, width: usize) -> (r: Vec<u8>)
    requires
        width <= 8,
    ensures
        r@ == be_encoding(x as nat, width as nat),
{
    let mut out: Vec<u8> = Vec::new();
    let mut i: usize = 0;
    while i < width
        invariant
            i <= width <= 8,
            out@ == be_encoding(x as nat, width as nat).subrange(0, i as int),
        decreases width - i,
    {
        let shift: u64 = ((width - 1 - i) * 8) as u64;
        proof {
            lemma_pow256_shift((width - 1 - i) as nat);
        }
        let ghost k: nat = (width - 1 - i) as nat;
        assert(shift == ((k * 8) as u64));
        let v: u64 = x >> shift;
        assert(v as nat == (x as nat) / pow256(k));
        let byte: u8 = (v % 256) as u8;
        out.push(byte);
        proof {
            assert(out@ =~= be_encoding(x as nat, width as nat).subrange(0, i + 1));
        }
        i = i + 1;
    }
    out
}

proof fn lemma_pow256_shift(k: nat)
    requires
        k < 8,
    ensures
        forall|x: u64| #[trigger] (x >> ((k * 8) as u64)) as nat == (x as nat) / pow256(k),
{
    lemma_pow256_values();
    assert forall|x: u64| #[trigger] (x >> ((k * 8) as u64)) as nat == (x as nat) / pow256(k) by {
        if k == 0 {
            assert(x >> 0u64 == x / 1) by (bit_vector);
        } else if k == 1 {
            assert(x >> 8u64 == x / 256) by (bit_vector);
        } else if k == 2 {
            assert(x >> 16u64 == x / 65536) by (bit_vector);
        } else if k == 3 {
            assert(x >> 24u64 == x / 16777216) by (bit_vector);
        } else if k == 4 {
            assert(x >> 32u64 == x / 4294967296) by (bit_vector);
        } else if k == 5 {
            assert(x >> 40u64 == x / 1099511627776) by (bit_vector);
        } else if k == 6 {
            assert(x >> 48u64 == x / 281474976710656) by (bit_vector);
        } else {
            assert(x >> 56u64 == x / 72057594037927936) by (bit_vector);
        }
    }
}

/// One Euclid step on the residues: `r0 - q r1` is congruent to `(t0 - q t1) x`.
proof fn lemma_mod_sub_mul(r0: int, r1: int, q: int, t0: int, t1: int, x: int, p: int, t2: int, qt: int)
    requires
        p > 0,
        0 <= t0 < p,
        0 <= qt < p,
        qt == (q * t1) % p,
        t2 == (t0 + p - qt) % p,
        r0 % p == (t0 * x) % p,
        r1 % p == (t1 * x) % p,
    ensures
        (r0 - q * r1) % p == (t2 * x) % p,
{
    // t2 == (t0 - q t1) mod p
    lemma_mod_sub_multiples(t0, q * t1, p, qt, t2);
    lemma_mul_mod_noop_left(t2, x, p);
    lemma_mul_mod_noop_left(t0 - q * t1, x, p);
    assert((t0 - q * t1) * x == t0 * x - q * (t1 * x)) by (nonlinear_arith);
    lemma_sub_mod_noop(r0, q * r1, p);
    lemma_mul_mod_noop_right(q, r1, p);
    lemma_mul_mod_noop_right(q, t1 * x, p);
    lemma_sub_mod_noop(t0 * x, q * (t1 * x), p);
}

proof fn lemma_mod_sub_multiples(t0: int, u: int, p: int, qt: int, t2: int)
    requires
        p > 0,
        0 <= t0 < p,
        qt == u % p,
        t2 == (t0 + p - qt) % p,
    ensures
        t2 == (t0 - u) % p,
{
    lemma_fundamental_div_mod(u, p);
    lemma_mod_multiples_vanish(1 - u / p, t0 - u, p);
    assert(t0 + p - qt == (t0 - u) + (1 + u / p) * p) by (nonlinear_arith)
        requires qt == u - p * (u / p);
    lemma_mod_multiples_vanish(1 + u / p, t0 - u, p);
}

proof fn lemma_sub_mod_noop(a: int, b: int, p: int)
    requires
        p > 0,
    ensures
        (a - b) % p == ((a % p) - (b % p)) % p,
{
    lemma_sub_mod_noop_general(a, b, p);
}

proof fn lemma_sub_mod_noop_general(a: int, b: int, p: int)
    requires
        p > 0,
    ensures
        (a - b) % p == ((a % p) - (b % p)) % p,
{
    lemma_fundamental_div_mod(a, p);
    lemma_fundamental_div_mod(b, p);
    assert(a - b == ((a % p) - (b % p)) + (a / p - b / p) * p) by (nonlinear_arith)
        requires a == p * (a / p) + a % p, b == p * (b / p) + b % p;
    lemma_mod_multiples_vanish(a / p - b / p, (a % p) - (b % p), p);
}

/// Extended Euclid: a common divisor `g = a s + b t` of `a` and `b`, with the cofactors.
proof fn lemma_bezout(a: int, b: int) -> (r: (int, int, int, int, int))
    requires
        a >= 0,
        b >= 0,
    ensures
        r.0 >= 0,
        a == r.3 * r.0,
        b == r.4 * r.0,
        r.0 == a * r.1 + b * r.2,
    decreases b,
{
    if b == 0 {
        (a, 1, 0, 1, 0)
    } else {
        let q = a / b;
        let rem = a % b;
        lemma_fundamental_div_mod(a, b);
        lemma_mod_bound(a, b);
        let (g, s, t, kb, kr) = lemma_bezout(b, rem);
        assert(a == (kb * q + kr) * g) by (nonlinear_arith)
            requires
                a == b * q + rem,
                b == kb * g,
                rem == kr * g,
        ;
        assert(g == a * t + b * (s - q * t)) by (nonlinear_arith)
            requires
                g == b * s + rem * t,
                a == b * q + rem,
        ;
        (g, t, s - q * t, kb * q + kr, kb)
    }
}

/// A common divisor of `x` and `p` divides one whenever `x` has an inverse `y`.
proof fn lemma_no_inverse(x: int, p: int, g: int, a: int, c: int, y: int)
    requires
        p > 0,
        x >= 0,
        y >= 0,
        g >= 0,
        x == a * g,
        p == c * g,
        (x * y) % p == 1int % p,
    ensures
        g == 1,
{
    lemma_fundamental_div_mod(x * y, p);
    if p == 1 {
        assert(g == 1) by (nonlinear_arith)
            requires c * g == 1, g >= 0;
    } else {
        lemma_small_mod(1, p as nat);
        let k = (x * y) / p;
        assert(x * y == p * k + 1);
        assert(g * (a * y - c * k) == 1) by (nonlinear_arith)
            requires x == a * g, p == c * g, x * y == p * k + 1;
        assert(g == 1) by (nonlinear_arith)
            requires g * (a * y - c * k) == 1, g >= 0;
    }
}

/// For a prime modulus, the only common divisor of `p` and a nonzero `x < p` is one.
proof fn lemma_prime_gcd(x: int, p: int, g: int, a: int, c: int)
    requires
        is_prime(p as nat),
        0 < x < p,
        g >= 0,
        x == a * g,
        p == c * g,
    ensures
        g == 1,
{
    if g == 0 {
        assert(p == 0) by (nonlinear_arith) requires p == c * g, g == 0;
    } else if g >= p {
        assert(a >= 1) by (nonlinear_arith) requires x == a * g, g > 0, x > 0;
        assert(x >= g) by (nonlinear_arith) requires x == a * g, a >= 1, g > 0;
    } else if g > 1 {
        assert((p as nat) % (g as nat) == 0) by {
            lemma_mod_multiples_basic(c, g);
            lemma_mul_is_commutative(c, g);
        }
        assert(1 < g < p);
        assert((p as nat) % (g as nat) != 0);
    }
}

/// `256^n`.
pub open spec fn pow256(n: nat) -> nat
    decreases n,
{
    if n == 0 {
        1
    } else {
        256 * pow256((n - 1) as nat)
    }
}

proof fn lemma_pow256_pos(n: nat)
    ensures
        pow256(n) > 0,
    decreases n,
{
    if n > 0 {
        lemma_pow256_pos((n - 1) as nat);
    }
}

/// Reading back the `width` low bytes of `x` gives `x` modulo `256^width`.
proof fn lemma_be_value(x: nat, width: nat)
    ensures
        be_bytes_value(be_encoding(x, width)) == x % pow256(width),
    decreases width,
{
    lemma_pow256_pos(width);
    if width == 0 {
        assert(be_encoding(x, 0) =~= Seq::<u8>::empty());
        lemma_small_mod(0, 1);
        lemma_mod_self_0(1);
        assert(x % 1 == 0) by {
            lemma_mod_bound(x as int, 1);
        }
    } else {
        let w1 = (width - 1) as nat;
        let e = be_encoding(x, width);
        lemma_be_value(x / 256, w1);
        lemma_pow256_pos(w1);
        assert(e.drop_last() =~= be_encoding(x / 256, w1)) by {
            assert forall|i: int| 0 <= i < w1 implies #[trigger] e.drop_last()[i] == be_encoding(x / 256, w1)[i] by {
                let k = (w1 - 1 - i) as nat;
                assert(pow256(k + 1) == 256 * pow256(k));
                lemma_pow256_pos(k);
                lemma_div_denominator(x as int, 256, pow256(k) as int);
            }
        }
        assert(e.last() == (x % 256) as u8) by {
            assert(pow256(0) == 1);
            lemma_div_basics(x as int);
            assert(e.last() == e[width - 1]);
        }
        lemma_mod_bound(x as int, 256);
        lemma_mod_breakdown(x as int, 256, pow256(w1) as int);
        assert(pow256(width) == 256 * pow256(w1));
        lemma_mul_is_commutative(256, ((x / 256) % pow256(w1)) as int);
    }
}

/// Encoding an element and reading the bytes back gives the element.
pub proof fn lemma_bytes_round_trip<const P: u64>(x: Fp<P>)
    requires
        0 < P,
        x.value() < P,
    ensures
        Fp::<P>::from_nat(be_bytes_value(be_encoding(x.value(), 8))) == x,
{
    lemma_be_value(x.value(), 8);
    lemma_pow256_values();
    lemma_small_mod(x.value(), pow256(8));
    Fp::<P>::lemma_from_nat(x.value());
    lemma_small_mod(x.value(), P as nat);
    Fp::<P>::lemma_value_injective(Fp::<P>::from_nat(x.value()), x);
}

proof fn lemma_pow256_values()
    ensures
        pow256(0) == 1,
        pow256(1) == 256,
        pow256(2) == 65536,
        pow256(3) == 16777216,
        pow256(4) == 4294967296,
        pow256(5) == 1099511627776,
        pow256(6) == 281474976710656,
        pow256(7) == 72057594037927936,
        pow256(8) == 18446744073709551616,
{
    reveal_with_fuel(pow256, 9);
}

impl<const P: u64> PartialEq for Fp<P> {
    fn eq(&self, other: &Self) -> (r: bool) {
        self.val == other.val
    }
}

impl<const P: u64> vstd::std_specs::cmp::PartialEqSpecImpl for Fp<P> {
    open spec fn obeys_eq_spec() -> bool {
        true
    }

    open spec fn eq_spec(&self, other: &Self) -> bool {
        self.value() == other.value()
    }
}

impl<const P: u64> Eq for Fp<P> {}

} // verus!
