//! Univariate polynomials over `Fp<P>` in dense coefficient form
//! (lowest degree first).
use crate::field::{be_encoding, is_prime, Fp};
use crate::multilinear::{coeff_or_zero, MultiLinearPolynomial};
use vstd::arithmetic::div_mod::*;
use vstd::arithmetic::mul::*;
use vstd::prelude::*;

verus! {

/// Horner evaluation of `cs` at `x`: `cs[0] + x * (cs[1] + x * (...))`.
pub open spec fn horner<const P: u64>(cs: Seq<Fp<P>>, x: Fp<P>) -> Fp<P>
    decreases cs.len(),
{
    if cs.len() == 0 {
        Fp::<P>::spec_zero()
    } else {
        horner(cs.drop_first(), x).spec_mul(x).spec_add(cs[0])
    }
}

/// The integer value of `sum_i cs[i] * x^i`, written in Horner form.
pub open spec fn poly_value<const P: u64>(cs: Seq<Fp<P>>, x: Fp<P>) -> int
    decreases cs.len(),
{
    if cs.len() == 0 {
        0
    } else {
        cs[0].value() + x.value() * poly_value(cs.drop_first(), x)
    }
}

/// Coefficient-wise sum; the shorter operand counts as zero beyond its end.
pub open spec fn poly_add<const P: u64>(a: Seq<Fp<P>>, b: Seq<Fp<P>>) -> Seq<Fp<P>> {
    Seq::new(
        if a.len() >= b.len() {
            a.len()
        } else {
            b.len()
        },
        |i: int|
            if i < a.len() && i < b.len() {
                a[i].spec_add(b[i])
            } else if i < a.len() {
                a[i]
            } else {
                b[i]
            },
    )
}

/// `sum_{i < m, 0 <= k - i < b.len()} a[i] * b[k - i]`, summed for increasing `i`.
pub open spec fn convolution<const P: u64>(a: Seq<Fp<P>>, b: Seq<Fp<P>>, k: int, m: nat) -> Fp<P>
    decreases m,
{
    if m == 0 {
        Fp::<P>::spec_zero()
    } else {
        let i = m - 1;
        if 0 <= k - i < b.len() {
            convolution(a, b, k, (m - 1) as nat).spec_add(a[i].spec_mul(b[k - i]))
        } else {
            convolution(a, b, k, (m - 1) as nat)
        }
    }
}

/// The product polynomial; empty when either factor is.
pub open spec fn poly_mul<const P: u64>(a: Seq<Fp<P>>, b: Seq<Fp<P>>) -> Seq<Fp<P>> {
    if a.len() == 0 || b.len() == 0 {
        Seq::empty()
    } else {
        Seq::new((a.len() + b.len() - 1) as nat, |k: int| convolution(a, b, k, a.len()))
    }
}

/// The Lagrange basis polynomial for point `i` of `xs`, built from the factors
/// `(X - xs[j]) / (xs[i] - xs[j])` for `j < upto`, `j != i`, in order.
pub open spec fn lagrange_basis<const P: u64>(xs: Seq<Fp<P>>, i: int, upto: nat) -> Seq<Fp<P>>
    decreases upto,
{
    if upto == 0 {
        seq![Fp::<P>::spec_one()]
    } else {
        let prev = lagrange_basis(xs, i, (upto - 1) as nat);
        let j = upto - 1;
        if j == i {
            prev
        } else {
            poly_mul(
                prev,
                poly_mul(
                    seq![xs[j].spec_neg(), Fp::<P>::spec_one()],
                    seq![xs[i].spec_sub(xs[j]).spec_inv()],
                ),
            )
        }
    }
}

/// The Lagrange interpolation of the first `t` points: the sum of `ys[i]`
/// times the basis polynomial of `xs[i]`.
pub open spec fn lagrange_sum<const P: u64>(xs: Seq<Fp<P>>, ys: Seq<Fp<P>>, t: nat) -> Seq<Fp<P>>
    decreases t,
{
    if t == 0 {
        Seq::empty()
    } else {
        poly_add(
            lagrange_sum(xs, ys, (t - 1) as nat),
            poly_mul(lagrange_basis(xs, t - 1, xs.len()), seq![ys[t - 1]]),
        )
    }
}

/// The number of points interpolated: pairs are taken while both lists last.
pub open spec fn point_count<const P: u64>(xs: Seq<Fp<P>>, ys: Seq<Fp<P>>) -> nat {
    if xs.len() <= ys.len() {
        xs.len()
    } else {
        ys.len()
    }
}

/// The interpolation points that are used are distinct from every point of `xs`.
pub open spec fn distinct_points<const P: u64>(xs: Seq<Fp<P>>, ys: Seq<Fp<P>>) -> bool {
    forall|i: int, j: int|
        0 <= i < point_count(xs, ys) && 0 <= j < xs.len() && i != j ==> #[trigger] xs[i] != #[trigger] xs[j]
}

/// The big-endian encoding of each coefficient (eight bytes each), in order.
pub open spec fn coefficient_bytes<const P: u64>(cs: Seq<Fp<P>>) -> Seq<u8>
    decreases cs.len(),
{
    if cs.len() == 0 {
        Seq::empty()
    } else {
        coefficient_bytes(cs.drop_last()) + be_encoding(cs.last().value(), 8)
    }
}

/// The points `0, 1, ..., n - 1` of the field.
pub open spec fn index_points<const P: u64>(n: nat) -> Seq<Fp<P>> {
    Seq::new(n, |i: int| Fp::<P>::from_nat(i as nat))
}

/// `x^e` by repeated multiplication.
pub open spec fn fp_pow<const P: u64>(x: Fp<P>, e: nat) -> Fp<P>
    decreases e,
{
    if e == 0 {
        Fp::<P>::spec_one()
    } else {
        fp_pow(x, (e - 1) as nat).spec_mul(x)
    }
}

/// `sum_i x^i * cs[i]`, summed from the lowest degree up.
pub open spec fn power_sum<const P: u64>(cs: Seq<Fp<P>>, x: Fp<P>) -> Fp<P>
    decreases cs.len(),
{
    if cs.len() == 0 {
        Fp::<P>::spec_zero()
    } else {
        power_sum(cs.drop_last(), x).spec_add(fp_pow(x, (cs.len() - 1) as nat).spec_mul(cs.last()))
    }
}

/// Polynomial addition is commutative.
pub proof fn lemma_poly_add_commutative<const P: u64>(a: Seq<Fp<P>>, b: Seq<Fp<P>>)
    ensures
        poly_add(a, b) == poly_add(b, a),
{
    assert forall|i: int| 0 <= i < poly_add(a, b).len() implies poly_add(a, b)[i] == poly_add(b, a)[i] by {
        if i < a.len() && i < b.len() {
            Fp::<P>::lemma_commutative(a[i], b[i]);
        }
    }
    assert(poly_add(a, b) =~= poly_add(b, a));
}

/// The zero polynomial (no coefficients) is neutral for addition.
pub proof fn lemma_poly_add_zero<const P: u64>(a: Seq<Fp<P>>)
    ensures
        poly_add(a, Seq::empty()) == a,
        poly_add(Seq::empty(), a) == a,
{
    assert(poly_add(a, Seq::empty()) =~= a);
    assert(poly_add(Seq::empty(), a) =~= a);
}

/// Convolving with the constant one picks the coefficient at `k` (zero past the first `m`).
proof fn lemma_convolution_one<const P: u64>(a: Seq<Fp<P>>, k: int, m: nat)
    requires
        1 < P,
        0 <= k,
        m <= a.len(),
        forall|i: int| 0 <= i < a.len() ==> (#[trigger] a[i]).value() < P,
    ensures
        convolution(a, seq![Fp::<P>::spec_one()], k, m) == if k < m {
            a[k]
        } else {
            Fp::<P>::spec_zero()
        },
    decreases m,
{
    if m > 0 {
        lemma_convolution_one(a, k, (m - 1) as nat);
        let i = m - 1;
        if i == k {
            Fp::<P>::lemma_identities(a[k]);
            Fp::<P>::lemma_identities(a[k].spec_mul(Fp::<P>::spec_one()));
        }
    }
}

/// The constant polynomial one is neutral for multiplication.
pub proof fn lemma_poly_mul_one<const P: u64>(a: Seq<Fp<P>>)
    requires
        1 < P,
        forall|i: int| 0 <= i < a.len() ==> (#[trigger] a[i]).value() < P,
    ensures
        poly_mul(a, seq![Fp::<P>::spec_one()]) == a,
        poly_mul(seq![Fp::<P>::spec_one()], a) == a,
{
    let one = seq![Fp::<P>::spec_one()];
    assert forall|k: int| 0 <= k < a.len() implies #[trigger] poly_mul(a, one)[k] == a[k] by {
        lemma_convolution_one(a, k, a.len());
    }
    assert(poly_mul(a, one) =~= a);
    assert forall|k: int| 0 <= k < a.len() implies #[trigger] poly_mul(one, a)[k] == a[k] by {
        Fp::<P>::lemma_identities(a[k]);
        Fp::<P>::lemma_identities(Fp::<P>::spec_one().spec_mul(a[k]));
        assert(convolution(one, a, k, 0) == Fp::<P>::spec_zero());
    }
    assert(poly_mul(one, a) =~= a);
}

/// `f(0) + f(1) + ... + f(n - 1)`.
pub open spec fn range_sum(f: spec_fn(int) -> int, n: nat) -> int
    decreases n,
{
    if n == 0 {
        0
    } else {
        range_sum(f, (n - 1) as nat) + f(n - 1)
    }
}

/// The integer product `a[i] * b[k - i]` where both indexes are in range, else zero.
pub open spec fn cross_term<const P: u64>(a: Seq<Fp<P>>, b: Seq<Fp<P>>, k: int, i: int) -> int {
    if 0 <= i < a.len() && 0 <= k - i < b.len() {
        (a[i].value() * b[k - i].value()) as int
    } else {
        0
    }
}

/// Sums of functions that agree on the range are equal.
proof fn lemma_range_sum_ext(f: spec_fn(int) -> int, g: spec_fn(int) -> int, n: nat)
    requires
        forall|i: int| 0 <= i < n ==> #[trigger] f(i) == g(i),
    ensures
        range_sum(f, n) == range_sum(g, n),
    decreases n,
{
    if n > 0 {
        lemma_range_sum_ext(f, g, (n - 1) as nat);
    }
}

/// Zero terms past `n` add nothing.
proof fn lemma_range_sum_zero_tail(f: spec_fn(int) -> int, n: nat, m: nat)
    requires
        n <= m,
        forall|i: int| n <= i < m ==> #[trigger] f(i) == 0,
    ensures
        range_sum(f, m) == range_sum(f, n),
    decreases m,
{
    if m > n {
        lemma_range_sum_zero_tail(f, n, (m - 1) as nat);
    }
}

/// Splitting off the first term.
proof fn lemma_range_sum_first(f: spec_fn(int) -> int, n: nat)
    requires
        n > 0,
    ensures
        range_sum(f, n) == f(0) + range_sum(|i: int| f(i + 1), (n - 1) as nat),
    decreases n,
{
    let g = |i: int| f(i + 1);
    if n > 1 {
        lemma_range_sum_first(f, (n - 1) as nat);
        assert(range_sum(g, (n - 1) as nat) == range_sum(g, (n - 2) as nat) + g(n - 2));
        assert(g(n - 2) == f(n - 1));
    } else {
        assert(range_sum(f, 0) == 0);
        assert(range_sum(g, 0) == 0);
    }
}

/// Summing in reverse order.
proof fn lemma_range_sum_reverse(f: spec_fn(int) -> int, n: nat)
    ensures
        range_sum(f, n) == range_sum(|i: int| f(n - 1 - i), n),
    decreases n,
{
    if n > 0 {
        let g = |i: int| f(n - 1 - i);
        lemma_range_sum_first(g, n);
        let h = |i: int| g(i + 1);
        let f1 = |i: int| f(i);
        lemma_range_sum_reverse(f, (n - 1) as nat);
        lemma_range_sum_ext(h, |i: int| f((n - 1) as nat - 1 - i), (n - 1) as nat);
        lemma_range_sum_ext(f1, f, (n - 1) as nat);
    }
}

/// The value of a convolution is the integer sum of its cross terms, reduced.
proof fn lemma_convolution_value<const P: u64>(a: Seq<Fp<P>>, b: Seq<Fp<P>>, k: int, m: nat)
    requires
        0 < P,
        m <= a.len(),
    ensures
        convolution(a, b, k, m).value() == range_sum(|i: int| cross_term(a, b, k, i), m) % (P as int),
    decreases m,
{
    let f = |i: int| cross_term(a, b, k, i);
    if m == 0 {
        Fp::<P>::lemma_from_nat(0);
    } else {
        lemma_convolution_value(a, b, k, (m - 1) as nat);
        let i = m - 1;
        let prev = convolution(a, b, k, (m - 1) as nat);
        let s = range_sum(f, (m - 1) as nat);
        if 0 <= k - i < b.len() {
            let t = a[i].spec_mul(b[k - i]);
            lemma_mul_nonnegative(a[i].value() as int, b[k - i].value() as int);
            Fp::<P>::lemma_from_nat(a[i].value() * b[k - i].value());
            Fp::<P>::lemma_from_nat(prev.value() + t.value());
            let ab = (a[i].value() * b[k - i].value()) as int;
            lemma_add_mod_noop(s, ab, P as int);
            lemma_mod_twice(s, P as int);
            lemma_mod_twice(ab, P as int);
            lemma_mod_bound(s, P as int);
        }
    }
}

/// Polynomial multiplication is commutative.
pub proof fn lemma_poly_mul_commutative<const P: u64>(a: Seq<Fp<P>>, b: Seq<Fp<P>>)
    requires
        0 < P,
    ensures
        poly_mul(a, b) == poly_mul(b, a),
{
    if a.len() > 0 && b.len() > 0 {
        assert forall|k: int| 0 <= k < poly_mul(a, b).len() implies poly_mul(a, b)[k] == poly_mul(b, a)[k] by {
            let fab = |i: int| cross_term(a, b, k, i);
            let fba = |i: int| cross_term(b, a, k, i);
            let n = (a.len() + b.len()) as nat;
            lemma_convolution_value(a, b, k, a.len());
            lemma_convolution_value(b, a, k, b.len());
            lemma_range_sum_zero_tail(fab, a.len(), n);
            lemma_range_sum_zero_tail(fab, (k + 1) as nat, n);
            lemma_range_sum_zero_tail(fba, b.len(), n);
            lemma_range_sum_zero_tail(fba, (k + 1) as nat, n);
            lemma_range_sum_reverse(fab, (k + 1) as nat);
            let rev = |i: int| fab((k + 1) as nat - 1 - i);
            assert forall|j: int| 0 <= j < k + 1 implies #[trigger] rev(j) == fba(j) by {
                if 0 <= j < b.len() && 0 <= k - j < a.len() {
                    lemma_mul_is_commutative(a[k - j].value() as int, b[j].value() as int);
                }
            }
            lemma_range_sum_ext(rev, fba, (k + 1) as nat);
            Fp::<P>::lemma_value_injective(poly_mul(a, b)[k], poly_mul(b, a)[k]);
        }
        assert(poly_mul(a, b) =~= poly_mul(b, a));
    }
}

/// Every coefficient is canonical.
pub open spec fn canonical_coeffs<const P: u64>(cs: Seq<Fp<P>>) -> bool {
    forall|i: int| 0 <= i < cs.len() ==> (#[trigger] cs[i]).value() < P
}

/// A Horner value is canonical.
proof fn lemma_horner_canonical<const P: u64>(cs: Seq<Fp<P>>, x: Fp<P>)
    requires
        1 < P,
    ensures
        horner(cs, x).value() < P,
{
    Fp::<P>::lemma_ops_canonical(Fp::<P>::spec_zero(), Fp::<P>::spec_zero());
    if cs.len() > 0 {
        Fp::<P>::lemma_ops_canonical(horner(cs.drop_first(), x).spec_mul(x), cs[0]);
    }
}

/// `(u + v) x + (c + d) == (u x + c) + (v x + d)`.
proof fn lemma_add_step<const P: u64>(u: Fp<P>, v: Fp<P>, c: Fp<P>, d: Fp<P>, x: Fp<P>)
    requires
        0 < P,
    ensures
        u.spec_add(v).spec_mul(x).spec_add(c.spec_add(d)) == u.spec_mul(x).spec_add(c).spec_add(
            v.spec_mul(x).spec_add(d),
        ),
{
    let ux = u.spec_mul(x);
    let vx = v.spec_mul(x);
    Fp::<P>::lemma_commutative(u.spec_add(v), x);
    Fp::<P>::lemma_distributive(x, u, v);
    Fp::<P>::lemma_commutative(x, u);
    Fp::<P>::lemma_commutative(x, v);
    // (ux + vx) + (c + d) == (ux + c) + (vx + d)
    Fp::<P>::lemma_add_associative(ux, vx, c.spec_add(d));
    Fp::<P>::lemma_add_associative(vx, c, d);
    Fp::<P>::lemma_commutative(vx, c);
    Fp::<P>::lemma_add_associative(c, vx, d);
    Fp::<P>::lemma_add_associative(ux, c, vx.spec_add(d));
}

/// Adding polynomials adds their values.
pub proof fn lemma_horner_add<const P: u64>(a: Seq<Fp<P>>, b: Seq<Fp<P>>, x: Fp<P>)
    requires
        1 < P,
    ensures
        horner(poly_add(a, b), x) == horner(a, x).spec_add(horner(b, x)),
    decreases a.len() + b.len(),
{
    let zero = Fp::<P>::spec_zero();
    lemma_horner_canonical(a, x);
    lemma_horner_canonical(b, x);
    if a.len() == 0 {
        assert(poly_add(a, b) =~= b);
        Fp::<P>::lemma_identities(horner(b, x));
    } else if b.len() == 0 {
        assert(poly_add(a, b) =~= a);
        Fp::<P>::lemma_identities(horner(a, x));
    } else {
        let s = poly_add(a, b);
        assert(s.drop_first() =~= poly_add(a.drop_first(), b.drop_first()));
        lemma_horner_add(a.drop_first(), b.drop_first(), x);
        lemma_add_step(horner(a.drop_first(), x), horner(b.drop_first(), x), a[0], b[0], x);
    }
}

/// The coefficients of `b` scaled by `c`.
pub open spec fn poly_scale<const P: u64>(b: Seq<Fp<P>>, c: Fp<P>) -> Seq<Fp<P>> {
    Seq::new(b.len(), |k: int| c.spec_mul(b[k]))
}

/// Scaling the coefficients scales the value.
proof fn lemma_horner_scale<const P: u64>(b: Seq<Fp<P>>, c: Fp<P>, x: Fp<P>)
    requires
        1 < P,
    ensures
        horner(poly_scale(b, c), x) == c.spec_mul(horner(b, x)),
    decreases b.len(),
{
    let zero = Fp::<P>::spec_zero();
    if b.len() == 0 {
        Fp::<P>::lemma_from_nat(0);
        lemma_small_mod(0, P as nat);
        assert(c.value() * 0 == 0);
    } else {
        assert(poly_scale(b, c).drop_first() =~= poly_scale(b.drop_first(), c));
        lemma_horner_scale(b.drop_first(), c, x);
        let h = horner(b.drop_first(), x);
        Fp::<P>::lemma_mul_associative(c, h, x);
        Fp::<P>::lemma_distributive(c, h.spec_mul(x), b[0]);
    }
}

/// A convolution at a negative index is zero.
proof fn lemma_convolution_negative<const P: u64>(a: Seq<Fp<P>>, b: Seq<Fp<P>>, k: int, m: nat)
    requires
        k < 0,
    ensures
        convolution(a, b, k, m) == Fp::<P>::spec_zero(),
    decreases m,
{
    if m > 0 {
        lemma_convolution_negative(a, b, k, (m - 1) as nat);
    }
}

/// A convolution splits off the term of the first coefficient of `a`.
proof fn lemma_convolution_first<const P: u64>(a: Seq<Fp<P>>, b: Seq<Fp<P>>, k: int, m: nat)
    requires
        1 < P,
        1 <= m <= a.len(),
    ensures
        convolution(a, b, k, m) == if 0 <= k < b.len() {
            a[0].spec_mul(b[k]).spec_add(convolution(a.drop_first(), b, k - 1, (m - 1) as nat))
        } else {
            convolution(a.drop_first(), b, k - 1, (m - 1) as nat)
        },
    decreases m,
{
    let a1 = a.drop_first();
    assert(convolution(a, b, k, 0) == Fp::<P>::spec_zero());
    assert(convolution(a1, b, k - 1, 0) == Fp::<P>::spec_zero());
    if m == 1 {
        if 0 <= k < b.len() {
            Fp::<P>::lemma_commutative(Fp::<P>::spec_zero(), a[0].spec_mul(b[k]));
        }
    } else {
        lemma_convolution_first(a, b, k, (m - 1) as nat);
        let i = m - 1;
        assert(a1[m - 2] == a[m - 1]);
        assert(convolution(a1, b, k - 1, (m - 1) as nat) == if 0 <= (k - 1) - (m - 2) < b.len() {
            convolution(a1, b, k - 1, (m - 2) as nat).spec_add(a1[m - 2].spec_mul(b[(k - 1) - (m - 2)]))
        } else {
            convolution(a1, b, k - 1, (m - 2) as nat)
        });
        if 0 <= k - i < b.len() && 0 <= k < b.len() {
            Fp::<P>::lemma_add_associative(
                a[0].spec_mul(b[k]),
                convolution(a1, b, k - 1, (m - 2) as nat),
                a[i].spec_mul(b[k - i]),
            );
        }
    }
}

/// Multiplying by a polynomial with at least two coefficients: the first
/// coefficient scales the other factor, the rest shifts by one degree.
proof fn lemma_poly_mul_step<const P: u64>(a: Seq<Fp<P>>, b: Seq<Fp<P>>)
    requires
        1 < P,
        a.len() >= 2,
        b.len() >= 1,
    ensures
        poly_mul(a, b) =~= poly_add(
            poly_scale(b, a[0]),
            seq![Fp::<P>::spec_zero()] + poly_mul(a.drop_first(), b),
        ),
{
    let a1 = a.drop_first();
    let lhs = poly_mul(a, b);
    let sh = seq![Fp::<P>::spec_zero()] + poly_mul(a1, b);
    let rhs = poly_add(poly_scale(b, a[0]), sh);
    assert forall|k: int| 0 <= k < lhs.len() implies #[trigger] lhs[k] == rhs[k] by {
        lemma_convolution_first(a, b, k, a.len());
        if k == 0 {
            lemma_convolution_negative(a1, b, -1, a1.len());
            Fp::<P>::lemma_ops_canonical(a[0], b[0]);
            Fp::<P>::lemma_identities(a[0].spec_mul(b[0]));
        } else {
            assert(sh[k] == poly_mul(a1, b)[k - 1]);
        }
    }
}

/// Multiplying polynomials multiplies their values.
pub proof fn lemma_horner_mul<const P: u64>(a: Seq<Fp<P>>, b: Seq<Fp<P>>, x: Fp<P>)
    requires
        1 < P,
        canonical_coeffs(a),
        canonical_coeffs(b),
    ensures
        horner(poly_mul(a, b), x) == horner(a, x).spec_mul(horner(b, x)),
    decreases a.len(),
{
    let zero = Fp::<P>::spec_zero();
    Fp::<P>::lemma_from_nat(0);
    lemma_small_mod(0, P as nat);
    lemma_horner_canonical(a, x);
    lemma_horner_canonical(b, x);
    if a.len() == 0 || b.len() == 0 {
        assert(poly_mul(a, b) =~= Seq::<Fp<P>>::empty());
        assert(horner(Seq::<Fp<P>>::empty(), x) == zero);
        assert(horner(a, x).value() * 0 == 0);
        assert(0 * horner(b, x).value() == 0);
    } else if a.len() == 1 {
        assert(poly_mul(a, b) =~= poly_scale(b, a[0])) by {
            assert forall|k: int| 0 <= k < b.len() implies #[trigger] poly_mul(a, b)[k] == poly_scale(b, a[0])[k] by {
                assert(convolution(a, b, k, 0) == zero);
                Fp::<P>::lemma_ops_canonical(a[0], b[k]);
                Fp::<P>::lemma_identities(a[0].spec_mul(b[k]));
            }
        }
        lemma_horner_scale(b, a[0], x);
        assert(a.drop_first().len() == 0);
        assert(zero.spec_mul(x) == zero) by {
            assert(0 * x.value() == 0);
        }
        Fp::<P>::lemma_identities(a[0]);
        assert(horner(a, x) == horner(a.drop_first(), x).spec_mul(x).spec_add(a[0]));
        assert(horner(a.drop_first(), x) == zero);
    } else {
        let a1 = a.drop_first();
        lemma_poly_mul_step(a, b);
        lemma_horner_mul(a1, b, x);
        let pm1 = poly_mul(a1, b);
        let sh = seq![zero] + pm1;
        lemma_horner_add(poly_scale(b, a[0]), sh, x);
        lemma_horner_scale(b, a[0], x);
        assert(sh.drop_first() =~= pm1);
        lemma_horner_canonical(pm1, x);
        Fp::<P>::lemma_ops_canonical(horner(pm1, x), x);
        Fp::<P>::lemma_identities(horner(pm1, x).spec_mul(x));
        // a0 hb + (ha1 hb) x == (ha1 x + a0) hb
        let ha1 = horner(a1, x);
        let hb = horner(b, x);
        Fp::<P>::lemma_mul_associative(ha1, hb, x);
        Fp::<P>::lemma_commutative(hb, x);
        Fp::<P>::lemma_mul_associative(ha1, x, hb);
        Fp::<P>::lemma_commutative(ha1.spec_mul(x).spec_add(a[0]), hb);
        Fp::<P>::lemma_distributive(hb, ha1.spec_mul(x), a[0]);
        Fp::<P>::lemma_commutative(hb, ha1.spec_mul(x));
        Fp::<P>::lemma_commutative(hb, a[0]);
        Fp::<P>::lemma_commutative(a[0].spec_mul(hb), ha1.spec_mul(x).spec_mul(hb));
        assert(horner(sh, x) == horner(pm1, x).spec_mul(x));
        assert(horner(poly_mul(a, b), x) == a[0].spec_mul(hb).spec_add(ha1.spec_mul(hb).spec_mul(x)));
        assert(horner(a, x) == ha1.spec_mul(x).spec_add(a[0]));
    }
}

/// Products of polynomials have canonical coefficients.
pub proof fn lemma_poly_mul_canonical<const P: u64>(a: Seq<Fp<P>>, b: Seq<Fp<P>>)
    requires
        1 < P,
    ensures
        canonical_coeffs(poly_mul(a, b)),
{
    assert forall|k: int| 0 <= k < poly_mul(a, b).len() implies (#[trigger] poly_mul(a, b)[k]).value() < P by {
        lemma_convolution_canonical(a, b, k, a.len());
    }
}

/// A convolution is canonical.
proof fn lemma_convolution_canonical<const P: u64>(a: Seq<Fp<P>>, b: Seq<Fp<P>>, k: int, m: nat)
    requires
        1 < P,
    ensures
        convolution(a, b, k, m).value() < P,
    decreases m,
{
    Fp::<P>::lemma_ops_canonical(Fp::<P>::spec_zero(), Fp::<P>::spec_zero());
    if m > 0 {
        lemma_convolution_canonical(a, b, k, (m - 1) as nat);
        if 0 <= k - (m - 1) < b.len() {
            Fp::<P>::lemma_ops_canonical(convolution(a, b, k, (m - 1) as nat), a[m - 1].spec_mul(b[k - (m - 1)]));
        }
    }
}

/// Sums of polynomials with canonical coefficients have canonical coefficients.
pub proof fn lemma_poly_add_canonical<const P: u64>(a: Seq<Fp<P>>, b: Seq<Fp<P>>)
    requires
        1 < P,
        canonical_coeffs(a),
        canonical_coeffs(b),
    ensures
        canonical_coeffs(poly_add(a, b)),
{
    assert forall|k: int| 0 <= k < poly_add(a, b).len() implies (#[trigger] poly_add(a, b)[k]).value() < P by {
        if k < a.len() && k < b.len() {
            Fp::<P>::lemma_ops_canonical(a[k], b[k]);
        }
    }
}

/// The value at `x` of the Lagrange basis polynomial of point `i` built from
/// the points below `upto`: the product of `(x - xs[j]) / (xs[i] - xs[j])`.
pub open spec fn basis_value<const P: u64>(xs: Seq<Fp<P>>, i: int, upto: nat, x: Fp<P>) -> Fp<P>
    decreases upto,
{
    if upto == 0 {
        Fp::<P>::spec_one()
    } else {
        let prev = basis_value(xs, i, (upto - 1) as nat, x);
        let j = upto - 1;
        if j == i {
            prev
        } else {
            prev.spec_mul(x.spec_sub(xs[j]).spec_mul(xs[i].spec_sub(xs[j]).spec_inv()))
        }
    }
}

/// The basis polynomial takes `basis_value`.
proof fn lemma_basis_horner<const P: u64>(xs: Seq<Fp<P>>, i: int, upto: nat, x: Fp<P>)
    requires
        is_prime(P as nat),
        0 <= i < xs.len(),
        upto <= xs.len(),
        x.value() < P,
        canonical_coeffs(xs),
        forall|j: int| 0 <= j < xs.len() && j != i ==> #[trigger] xs[j] != xs[i],
    ensures
        canonical_coeffs(lagrange_basis(xs, i, upto)),
        horner(lagrange_basis(xs, i, upto), x) == basis_value(xs, i, upto, x),
    decreases upto,
{
    let zero = Fp::<P>::spec_zero();
    let one = Fp::<P>::spec_one();
    Fp::<P>::lemma_sign_mul();
    Fp::<P>::lemma_from_nat(0);
    lemma_small_mod(0, P as nat);
    assert(zero.spec_mul(x) == zero) by {
        assert(0 * x.value() == 0);
    }
    if upto == 0 {
        assert(horner(seq![one], x) == horner(seq![one].drop_first(), x).spec_mul(x).spec_add(one));
        assert(horner(seq![one].drop_first(), x) == zero);
        Fp::<P>::lemma_identities(one);
    } else {
        let j = upto - 1;
        lemma_basis_horner(xs, i, (upto - 1) as nat, x);
        if j != i {
            let prev = lagrange_basis(xs, i, (upto - 1) as nat);
            let lin = seq![xs[j].spec_neg(), one];
            let d = xs[i].spec_sub(xs[j]);
            Fp::<P>::lemma_value_injective(xs[i], xs[j]);
            lemma_sub_nonzero(xs[i], xs[j]);
            Fp::<P>::lemma_ops_canonical(xs[i], xs[j]);
            Fp::<P>::lemma_inverse_exists(d);
            let inv = d.spec_inv();
            let c = seq![inv];
            Fp::<P>::lemma_ops_canonical(xs[j], xs[j]);
            assert(canonical_coeffs(lin));
            assert(canonical_coeffs(c));
            lemma_horner_mul(lin, c, x);
            let factor = poly_mul(lin, c);
            lemma_poly_mul_canonical(lin, c);
            lemma_horner_mul(prev, factor, x);
            lemma_poly_mul_canonical(prev, factor);
            // the values of the two small factors
            assert(horner(lin, x) == horner(lin.drop_first(), x).spec_mul(x).spec_add(lin[0]));
            assert(lin.drop_first() =~= seq![one]);
            assert(horner(seq![one], x) == horner(seq![one].drop_first(), x).spec_mul(x).spec_add(one));
            assert(horner(seq![one].drop_first(), x) == zero);
            Fp::<P>::lemma_identities(one);
            Fp::<P>::lemma_identities(x);
            Fp::<P>::lemma_sub_add_neg(x, xs[j]);
            assert(horner(c, x) == horner(c.drop_first(), x).spec_mul(x).spec_add(inv));
            assert(horner(c.drop_first(), x) == zero);
            Fp::<P>::lemma_identities(inv);
        }
    }
}

/// At one of the points, a basis polynomial is one for its own point and zero for the others.
proof fn lemma_basis_at_points<const P: u64>(xs: Seq<Fp<P>>, i: int, k: int, upto: nat)
    requires
        is_prime(P as nat),
        0 <= i < xs.len(),
        0 <= k < xs.len(),
        upto <= xs.len(),
        canonical_coeffs(xs),
        forall|j: int| 0 <= j < xs.len() && j != i ==> #[trigger] xs[j] != xs[i],
    ensures
        basis_value(xs, i, upto, xs[k]) == if k == i {
            Fp::<P>::spec_one()
        } else if k < upto {
            Fp::<P>::spec_zero()
        } else {
            basis_value(xs, i, upto, xs[k])
        },
        basis_value(xs, i, upto, xs[k]).value() < P,
    decreases upto,
{
    let zero = Fp::<P>::spec_zero();
    let one = Fp::<P>::spec_one();
    Fp::<P>::lemma_sign_mul();
    Fp::<P>::lemma_from_nat(0);
    lemma_small_mod(0, P as nat);
    if upto > 0 {
        let j = upto - 1;
        lemma_basis_at_points(xs, i, k, (upto - 1) as nat);
        if j != i {
            let prev = basis_value(xs, i, (upto - 1) as nat, xs[k]);
            let d = xs[i].spec_sub(xs[j]);
            Fp::<P>::lemma_value_injective(xs[i], xs[j]);
            lemma_sub_nonzero(xs[i], xs[j]);
            Fp::<P>::lemma_ops_canonical(xs[i], xs[j]);
            Fp::<P>::lemma_inverse_exists(d);
            let f = xs[k].spec_sub(xs[j]).spec_mul(d.spec_inv());
            Fp::<P>::lemma_ops_canonical(prev, f);
            if k == i {
                Fp::<P>::lemma_identities(one);
            } else if k == j {
                assert(xs[k].spec_sub(xs[k]) == zero);
                assert(zero.spec_mul(d.spec_inv()) == zero) by {
                    assert(0 * d.spec_inv().value() == 0);
                }
                assert(prev.spec_mul(zero) == zero) by {
                    assert(prev.value() * 0 == 0);
                }
            } else if k < j {
                assert(zero.spec_mul(f) == zero) by {
                    assert(0 * f.value() == 0);
                }
            }
        } else {
            Fp::<P>::lemma_ops_canonical(one, one);
        }
    } else {
        Fp::<P>::lemma_identities(one);
    }
}

/// The interpolation of the first `t` pairs takes, at point `k`, `ys[k]` if
/// `k < t` and zero otherwise.
proof fn lemma_lagrange_sum_at<const P: u64>(xs: Seq<Fp<P>>, ys: Seq<Fp<P>>, t: nat, k: int)
    requires
        is_prime(P as nat),
        t <= point_count(xs, ys),
        0 <= k < point_count(xs, ys),
        distinct_points(xs, ys),
        canonical_coeffs(xs),
        canonical_coeffs(ys),
    ensures
        canonical_coeffs(lagrange_sum(xs, ys, t)),
        horner(lagrange_sum(xs, ys, t), xs[k]) == if k < t {
            ys[k]
        } else {
            Fp::<P>::spec_zero()
        },
    decreases t,
{
    let zero = Fp::<P>::spec_zero();
    Fp::<P>::lemma_from_nat(0);
    lemma_small_mod(0, P as nat);
    if t > 0 {
        let i = t - 1;
        lemma_lagrange_sum_at(xs, ys, (t - 1) as nat, k);
        assert forall|j: int| 0 <= j < xs.len() && j != i implies #[trigger] xs[j] != xs[i] by {
            assert(xs[i] != xs[j]);
        }
        let basis = lagrange_basis(xs, i, xs.len());
        let c = seq![ys[i]];
        lemma_basis_horner(xs, i, xs.len(), xs[k]);
        lemma_basis_at_points(xs, i, k, xs.len());
        assert(canonical_coeffs(c));
        lemma_horner_mul(basis, c, xs[k]);
        lemma_poly_mul_canonical(basis, c);
        let prev = lagrange_sum(xs, ys, (t - 1) as nat);
        lemma_horner_add(prev, poly_mul(basis, c), xs[k]);
        lemma_poly_add_canonical(prev, poly_mul(basis, c));
        assert(horner(c, xs[k]) == horner(c.drop_first(), xs[k]).spec_mul(xs[k]).spec_add(ys[i]));
        assert(horner(c.drop_first(), xs[k]) == zero);
        assert(zero.spec_mul(xs[k]) == zero) by {
            assert(0 * xs[k].value() == 0);
        }
        Fp::<P>::lemma_identities(ys[i]);
        Fp::<P>::lemma_identities(zero);
        lemma_horner_canonical(prev, xs[k]);
        Fp::<P>::lemma_identities(horner(prev, xs[k]));
        if k == i {
            Fp::<P>::lemma_identities(ys[k]);
        } else {
            assert(zero.spec_mul(ys[i]) == zero) by {
                assert(0 * ys[i].value() == 0);
            }
        }
    } else {
        assert(horner(Seq::<Fp<P>>::empty(), xs[k]) == zero);
    }
}

/// Lagrange interpolation passes through its points: the interpolation of the
/// pairs `(xs[i], ys[i])` takes `ys[k]` at `xs[k]`.
pub proof fn lemma_interpolation_passes<const P: u64>(xs: Seq<Fp<P>>, ys: Seq<Fp<P>>, k: int)
    requires
        is_prime(P as nat),
        distinct_points(xs, ys),
        canonical_coeffs(xs),
        canonical_coeffs(ys),
        0 <= k < point_count(xs, ys),
    ensures
        horner(lagrange_sum(xs, ys, point_count(xs, ys)), xs[k]) == ys[k],
{
    lemma_lagrange_sum_at(xs, ys, point_count(xs, ys), k);
}

/// Appending a coefficient adds it times the matching power.
proof fn lemma_horner_push<const P: u64>(cs: Seq<Fp<P>>, c: Fp<P>, x: Fp<P>)
    requires
        1 < P,
    ensures
        horner(cs.push(c), x) == horner(cs, x).spec_add(fp_pow(x, cs.len()).spec_mul(c)),
    decreases cs.len(),
{
    let zero = Fp::<P>::spec_zero();
    let one = Fp::<P>::spec_one();
    Fp::<P>::lemma_from_nat(0);
    lemma_small_mod(0, P as nat);
    if cs.len() == 0 {
        assert(cs.push(c).drop_first() =~= Seq::<Fp<P>>::empty());
        assert(zero.spec_mul(x) == zero) by {
            assert(0 * x.value() == 0);
        }
        Fp::<P>::lemma_sign_mul();
        Fp::<P>::lemma_ops_canonical(one, c);
        // zero + c and zero + one * c are the same element
        Fp::<P>::lemma_from_nat(c.value());
        Fp::<P>::lemma_from_nat(one.spec_mul(c).value());
        assert(one.spec_mul(c).value() == c.value() % (P as nat)) by {
            Fp::<P>::lemma_from_nat(1 * c.value());
        }
        lemma_mod_twice(c.value() as int, P as int);
        Fp::<P>::lemma_value_injective(zero.spec_add(c), zero.spec_add(one.spec_mul(c)));
        assert(horner(seq![c], x) == horner(seq![c].drop_first(), x).spec_mul(x).spec_add(c));
        assert(cs.push(c) =~= seq![c]);
        assert(fp_pow(x, 0) == one);
    } else {
        let rest = cs.drop_first();
        assert(cs.push(c).drop_first() =~= rest.push(c));
        lemma_horner_push(rest, c, x);
        let h = horner(rest, x);
        let t = fp_pow(x, rest.len()).spec_mul(c);
        // (h + t) x + c0 == (h x + c0) + x^n c
        Fp::<P>::lemma_commutative(h.spec_add(t), x);
        Fp::<P>::lemma_distributive(x, h, t);
        Fp::<P>::lemma_commutative(x, h);
        Fp::<P>::lemma_add_associative(h.spec_mul(x), x.spec_mul(t), cs[0]);
        Fp::<P>::lemma_commutative(x.spec_mul(t), cs[0]);
        Fp::<P>::lemma_add_associative(h.spec_mul(x), cs[0], x.spec_mul(t));
        // x (x^(n-1) c) == x^n c
        Fp::<P>::lemma_mul_associative(x, fp_pow(x, rest.len()), c);
        Fp::<P>::lemma_commutative(x, fp_pow(x, rest.len()));
        assert(fp_pow(x, cs.len()) == fp_pow(x, rest.len()).spec_mul(x));
        assert(horner(cs.push(c), x) == horner(rest.push(c), x).spec_mul(x).spec_add(cs[0]));
        assert(horner(cs, x) == h.spec_mul(x).spec_add(cs[0]));
    }
}

/// Evaluating term by term and by Horner's rule agree.
pub proof fn lemma_power_sum_horner<const P: u64>(cs: Seq<Fp<P>>, x: Fp<P>)
    requires
        1 < P,
    ensures
        power_sum(cs, x) == horner(cs, x),
    decreases cs.len(),
{
    if cs.len() > 0 {
        lemma_power_sum_horner(cs.drop_last(), x);
        lemma_horner_push(cs.drop_last(), cs.last(), x);
        assert(cs.drop_last().push(cs.last()) =~= cs);
    }
}

/// A univariate polynomial, coefficients from the lowest degree up.
#[derive(Clone, Debug, PartialEq)]
pub struct UnivariatePolynomial<const P: u64> {
    coefficients: Vec<Fp<P>>,
}

impl<const P: u64> UnivariatePolynomial<P> {
    /// The coefficients, lowest degree first.
    pub closed spec fn coeffs(self) -> Seq<Fp<P>> {
        self.coefficients@
    }

    /// Instantiate a new polynomial.
    pub fn new(coefficients: Vec<Fp<P>>) -> (r: Self)
        ensures
            r.coeffs() == coefficients@,
    {
        UnivariatePolynomial { coefficients }
    }

    /// The coefficients as a slice.
    pub fn coefficients(&self) -> (r: &[Fp<P>])
        ensures
            r@ == self.coeffs(),
    {
        self.coefficients.as_slice()
    }

    /// Evaluate at `x` (Horner's rule).
    pub fn evaluate(&self, x: &Fp<P>) -> (r: Fp<P>)
        requires
            0 < P,
        ensures
            r == horner(self.coeffs(), *x),
    {
        let mut acc: Fp<P> = Fp::zero();
        let mut i: usize = self.coefficients.len();
        proof {
            assert(self.coefficients@.subrange(i as int, self.coefficients@.len() as int).len() == 0);
        }
        while i > 0
            invariant
                i <= self.coefficients@.len(),
                acc == horner(self.coefficients@.subrange(i as int, self.coefficients@.len() as int), *x),
            decreases i,
        {
            i = i - 1;
            proof {
                let s = self.coefficients@.subrange(i as int, self.coefficients@.len() as int);
                assert(s.drop_first() =~= self.coefficients@.subrange(i + 1, self.coefficients@.len() as int));
                assert(s[0] == self.coefficients@[i as int]);
            }
            acc = acc.mul(x).add(&self.coefficients[i]);
        }
        proof {
            assert(self.coefficients@.subrange(0, self.coefficients@.len() as int) =~= self.coefficients@);
        }
        acc
    }

    /// True for the zero polynomial (no coefficients).
    pub fn is_zero(&self) -> (r: bool)
        ensures
            r <==> self.coeffs().len() == 0,
    {
        self.coefficients.len() == 0
    }

    /// The degree: one less than the number of coefficients (zero when there are none).
    pub fn degree(&self) -> (r: usize)
        ensures
            r == if self.coeffs().len() == 0 {
                0
            } else {
                self.coeffs().len() - 1
            },
    {
        if self.coefficients.len() == 0 {
            0
        } else {
            self.coefficients.len() - 1
        }
    }

    /// The zero polynomial.
    pub fn additive_identity() -> (r: Self)
        ensures
            r.coeffs() == Seq::<Fp<P>>::empty(),
    {
        UnivariatePolynomial { coefficients: Vec::new() }
    }

    /// The constant polynomial one.
    pub fn multiplicative_identity() -> (r: Self)
        requires
            1 < P,
        ensures
            r.coeffs() == seq![Fp::<P>::spec_one()],
    {
        let mut coefficients: Vec<Fp<P>> = Vec::new();
        coefficients.push(Fp::one());
        proof {
            assert(coefficients@ =~= seq![Fp::<P>::spec_one()]);
        }
        UnivariatePolynomial { coefficients }
    }

    /// The encoding of the polynomial: each coefficient in order, eight bytes, big-endian.
    pub fn to_bytes(&self) -> (r: Vec<u8>)
        ensures
            r@ == coefficient_bytes(self.coeffs()),
    {
        let mut result: Vec<u8> = Vec::new();
        let mut i: usize = 0;
        while i < self.coefficients.len()
            invariant
                i <= self.coefficients@.len(),
                result@ == coefficient_bytes(self.coefficients@.subrange(0, i as int)),
            decreases self.coefficients@.len() - i,
        {
            let bytes = self.coefficients[i].to_bytes_be();
            let ghost before = result@;
            let mut t: usize = 0;
            while t < bytes.len()
                invariant
                    t <= bytes@.len(),
                    result@ == before + bytes@.subrange(0, t as int),
                decreases bytes@.len() - t,
            {
                result.push(bytes[t]);
                proof {
                    assert(bytes@.subrange(0, t + 1) =~= bytes@.subrange(0, t as int).push(bytes@[t as int]));
                }
                t = t + 1;
            }
            proof {
                assert(bytes@.subrange(0, bytes@.len() as int) =~= bytes@);
                assert(self.coefficients@.subrange(0, i + 1).drop_last() =~= self.coefficients@.subrange(0, i as int));
            }
            i = i + 1;
        }
        proof {
            assert(self.coefficients@.subrange(0, self.coefficients@.len() as int) =~= self.coefficients@);
        }
        result
    }

    /// The polynomial through the points `(xs[i], ys[i])`, pairs taken while both
    /// lists last (Lagrange interpolation).
    pub fn interpolate_xy(xs: Vec<Fp<P>>, ys: Vec<Fp<P>>) -> (r: Self)
        requires
            is_prime(P as nat),
            xs@.len() + 2 <= usize::MAX,
            distinct_points(xs@, ys@),
        ensures
            r.coeffs() == lagrange_sum(xs@, ys@, point_count(xs@, ys@)),
    {
        let count: usize = if xs.len() <= ys.len() {
            xs.len()
        } else {
            ys.len()
        };
        let mut result = Self::additive_identity();
        let mut i: usize = 0;
        while i < count
            invariant
                is_prime(P as nat),
                xs@.len() + 2 <= usize::MAX,
                distinct_points(xs@, ys@),
                count == point_count(xs@, ys@),
                i <= count,
                result.coeffs() == lagrange_sum(xs@, ys@, i as nat),
            decreases count - i,
        {
            let mut lagrange_basis_poly = Self::multiplicative_identity();
            let mut j: usize = 0;
            while j < xs.len()
                invariant
                    is_prime(P as nat),
                    xs@.len() + 2 <= usize::MAX,
                    distinct_points(xs@, ys@),
                    i < count,
                    count == point_count(xs@, ys@),
                    j <= xs@.len(),
                    lagrange_basis_poly.coeffs() == lagrange_basis(xs@, i as int, j as nat),
                    1 <= lagrange_basis_poly.coeffs().len() <= j + 1,
                decreases xs@.len() - j,
            {
                if j != i {
                    let mut numerator_coeffs: Vec<Fp<P>> = Vec::new();
                    numerator_coeffs.push(xs[j].neg());
                    numerator_coeffs.push(Fp::one());
                    let numerator = Self::new(numerator_coeffs);
                    let difference = xs[i].sub(&xs[j]);
                    let xi = xs[i];
                    let xj = xs[j];
                    proof {
                        use_type_invariant(&xi);
                        use_type_invariant(&xj);
                        Fp::<P>::lemma_canonical(xi);
                        Fp::<P>::lemma_canonical(xj);
                        assert(xs@[i as int] != xs@[j as int]);
                        Fp::<P>::lemma_value_injective(xs@[i as int], xs@[j as int]);
                        lemma_sub_nonzero(xs@[i as int], xs@[j as int]);
                    }
                    let denominator = difference.inverse().unwrap();
                    let mut denominator_coeffs: Vec<Fp<P>> = Vec::new();
                    denominator_coeffs.push(denominator);
                    let factor = numerator.mul(&Self::new(denominator_coeffs));
                    proof {
                        assert(numerator.coeffs() =~= seq![xs@[j as int].spec_neg(), Fp::<P>::spec_one()]);
                    }
                    proof {
                        assert(factor.coeffs().len() == 2);
                    }
                    lagrange_basis_poly = lagrange_basis_poly.mul(&factor);
                }
                j = j + 1;
            }
            let mut y_coeffs: Vec<Fp<P>> = Vec::new();
            y_coeffs.push(ys[i]);
            let monomial = lagrange_basis_poly.mul(&Self::new(y_coeffs));
            proof {
                assert(seq![ys@[i as int]] =~= seq![ys@[i as int]]);
            }
            result = result.add(&monomial);
            i = i + 1;
        }
        result
    }

    /// The polynomial through `(i, ys[i])` for every position `i` of `ys`.
    pub fn interpolate(ys: Vec<Fp<P>>) -> (r: Self)
        requires
            is_prime(P as nat),
            ys@.len() <= P,
            ys@.len() + 2 <= usize::MAX,
        ensures
            r.coeffs() == lagrange_sum(index_points::<P>(ys@.len()), ys@, ys@.len()),
    {
        let mut xs: Vec<Fp<P>> = Vec::new();
        let mut i: usize = 0;
        while i < ys.len()
            invariant
                0 < P,
                ys@.len() <= P,
                i <= ys@.len(),
                xs@ == index_points::<P>(i as nat),
            decreases ys@.len() - i,
        {
            xs.push(Fp::from_u64(i as u64));
            proof {
                assert(xs@ =~= index_points::<P>((i + 1) as nat));
            }
            i = i + 1;
        }
        proof {
            assert forall|a: int, b: int|
                0 <= a < point_count(xs@, ys@) && 0 <= b < xs@.len() && a != b implies #[trigger] xs@[a] != #[trigger] xs@[b] by {
                Fp::<P>::lemma_from_nat(a as nat);
                Fp::<P>::lemma_from_nat(b as nat);
                vstd::arithmetic::div_mod::lemma_small_mod(a as nat, P as nat);
                vstd::arithmetic::div_mod::lemma_small_mod(b as nat, P as nat);
            }
        }
        Self::interpolate_xy(xs, ys)
    }

    /// The univariate polynomial of a multilinear polynomial in at most one
    /// variable: its constant and linear coefficients.
    pub fn try_from(value: MultiLinearPolynomial<P>) -> (r: Result<Self, &'static str>)
        requires
            0 < P,
        ensures
            r is Ok <==> value.num_vars() <= 1,
            r matches Ok(u) ==> u.coeffs() == seq![coeff_or_zero(value.terms(), 0), coeff_or_zero(value.terms(), 1)],
    {
        if value.n_vars() > 1 {
            return Err("cannot convert multilinear polynomial with more than one variable to univariate poly");
        }
        let coefficients = value.coefficients();
        let c0 = match coefficients.get(&0) {
            Some(v) => *v,
            None => Fp::zero(),
        };
        let c1 = match coefficients.get(&1) {
            Some(v) => *v,
            None => Fp::zero(),
        };
        let mut out: Vec<Fp<P>> = Vec::new();
        out.push(c0);
        out.push(c1);
        proof {
            assert(out@ =~= seq![coeff_or_zero(value.terms(), 0), coeff_or_zero(value.terms(), 1)]);
        }
        Ok(UnivariatePolynomial { coefficients: out })
    }

    /// Polynomial addition.
    pub fn add(&self, other: &Self) -> (r: Self)
        ensures
            r.coeffs() == poly_add(self.coeffs(), other.coeffs()),
    {
        if self.is_zero() {
            let out = copy_coefficients(&other.coefficients);
            proof {
                assert(out@ =~= poly_add(self.coefficients@, other.coefficients@));
            }
            return UnivariatePolynomial { coefficients: out };
        }
        if other.is_zero() {
            let out = copy_coefficients(&self.coefficients);
            proof {
                assert(out@ =~= poly_add(self.coefficients@, other.coefficients@));
            }
            return UnivariatePolynomial { coefficients: out };
        }
        let self_longer = self.coefficients.len() >= other.coefficients.len();
        let (mut new_coefficients, other_coeff) = if self_longer {
            (copy_coefficients(&self.coefficients), &other.coefficients)
        } else {
            (copy_coefficients(&other.coefficients), &self.coefficients)
        };
        let ghost longer = new_coefficients@;
        let mut i: usize = 0;
        while i < other_coeff.len()
            invariant
                i <= other_coeff@.len(),
                other_coeff@.len() <= longer.len(),
                new_coefficients@.len() == longer.len(),
                forall|t: int| 0 <= t < i ==> #[trigger] new_coefficients@[t] == longer[t].spec_add(other_coeff@[t]),
                forall|t: int| i <= t < longer.len() ==> #[trigger] new_coefficients@[t] == longer[t],
            decreases other_coeff@.len() - i,
        {
            let v = new_coefficients[i].add(&other_coeff[i]);
            new_coefficients.set(i, v);
            i = i + 1;
        }
        proof {
            assert(new_coefficients@ =~= poly_add(self.coefficients@, other.coefficients@));
        }
        UnivariatePolynomial { coefficients: new_coefficients }
    }

    /// Polynomial multiplication.
    pub fn mul(&self, other: &Self) -> (r: Self)
        requires
            0 < P,
            self.coeffs().len() + other.coeffs().len() <= usize::MAX,
        ensures
            r.coeffs() == poly_mul(self.coeffs(), other.coeffs()),
    {
        if self.is_zero() || other.is_zero() {
            return UnivariatePolynomial { coefficients: Vec::new() };
        }
        let a = &self.coefficients;
        let b = &other.coefficients;
        let product_max_degree = self.degree() + other.degree();
        let mut product_coefficients: Vec<Fp<P>> = Vec::new();
        let mut k: usize = 0;
        while k <= product_max_degree
            invariant
                0 < P,
                a@.len() + b@.len() <= usize::MAX,
                product_max_degree == a@.len() + b@.len() - 2,
                k <= product_max_degree + 1,
                product_coefficients@.len() == k,
                forall|t: int| 0 <= t < k ==> #[trigger] product_coefficients@[t] == Fp::<P>::spec_zero(),
            decreases product_max_degree + 1 - k,
        {
            product_coefficients.push(Fp::zero());
            k = k + 1;
        }
        let mut i: usize = 0;
        while i < a.len()
            invariant
                0 < P,
                a@.len() > 0,
                b@.len() > 0,
                a@.len() + b@.len() <= usize::MAX,
                i <= a@.len(),
                product_coefficients@.len() == a@.len() + b@.len() - 1,
                forall|t: int| 0 <= t < product_coefficients@.len() ==> #[trigger] product_coefficients@[t]
                    == convolution(a@, b@, t, i as nat),
            decreases a@.len() - i,
        {
            let mut j: usize = 0;
            while j < b.len()
                invariant
                    0 < P,
                    i < a@.len(),
                    j <= b@.len(),
                    a@.len() + b@.len() <= usize::MAX,
                    product_coefficients@.len() == a@.len() + b@.len() - 1,
                    forall|t: int| 0 <= t < product_coefficients@.len() ==> #[trigger] product_coefficients@[t]
                        == if i <= t < i + j {
                            convolution(a@, b@, t, i as nat).spec_add(a@[i as int].spec_mul(b@[t - i]))
                        } else {
                            convolution(a@, b@, t, i as nat)
                        },
                decreases b@.len() - j,
            {
                let v = product_coefficients[i + j].add(&a[i].mul(&b[j]));
                product_coefficients.set(i + j, v);
                j = j + 1;
            }
            proof {
                assert forall|t: int| 0 <= t < product_coefficients@.len() implies #[trigger] product_coefficients@[t]
                    == convolution(a@, b@, t, (i + 1) as nat) by {
                }
            }
            i = i + 1;
        }
        proof {
            assert(product_coefficients@ =~= poly_mul(a@, b@));
        }
        UnivariatePolynomial { coefficients: product_coefficients }
    }
}

/// Distinct elements have a nonzero difference.
proof fn lemma_sub_nonzero<const P: u64>(a: Fp<P>, b: Fp<P>)
    requires
        a.value() < P,
        b.value() < P,
        a.value() != b.value(),
    ensures
        a.spec_sub(b).value() != 0,
{
    Fp::<P>::lemma_ops_canonical(a, b);
    let d = a.value() - b.value();
    vstd::arithmetic::div_mod::lemma_mod_bound(d, P as int);
    Fp::<P>::lemma_from_nat((d % (P as int)) as nat);
    if d > 0 {
        vstd::arithmetic::div_mod::lemma_small_mod(d as nat, P as nat);
    } else {
        vstd::arithmetic::div_mod::lemma_mod_add_multiples_vanish(d, P as int);
        vstd::arithmetic::div_mod::lemma_small_mod((d + P) as nat, P as nat);
    }
    vstd::arithmetic::div_mod::lemma_small_mod(((d % (P as int)) as nat), P as nat);
}

/// A polynomial in dense coefficient form, lowest degree first, evaluated term by term.
#[derive(Debug, PartialEq)]
pub struct Polynomial<const P: u64> {
    coefficients: Vec<Fp<P>>,
}

impl<const P: u64> Polynomial<P> {
    /// The coefficients, lowest degree first.
    pub closed spec fn coeffs(self) -> Seq<Fp<P>> {
        self.coefficients@
    }

    /// Instantiate a new polynomial.
    pub fn new(coefficients: Vec<Fp<P>>) -> (r: Self)
        ensures
            r.coeffs() == coefficients@,
    {
        Polynomial { coefficients }
    }

    /// Evaluate at `x` as the sum of `x^i * coefficient_i`.
    pub fn evaluate(&self, x: &Fp<P>) -> (r: Fp<P>)
        requires
            1 < P,
        ensures
            r == power_sum(self.coeffs(), *x),
    {
        let mut acc: Fp<P> = Fp::zero();
        let mut power: Fp<P> = Fp::one();
        let mut i: usize = 0;
        while i < self.coefficients.len()
            invariant
                1 < P,
                i <= self.coefficients@.len(),
                power == fp_pow(*x, i as nat),
                acc == power_sum(self.coefficients@.subrange(0, i as int), *x),
            decreases self.coefficients@.len() - i,
        {
            proof {
                let s = self.coefficients@.subrange(0, i + 1);
                assert(s.drop_last() =~= self.coefficients@.subrange(0, i as int));
            }
            acc = acc.add(&power.mul(&self.coefficients[i]));
            power = power.mul(x);
            i = i + 1;
        }
        proof {
            assert(self.coefficients@.subrange(0, self.coefficients@.len() as int) =~= self.coefficients@);
        }
        acc
    }

    /// The polynomial through the points `(xs[i], ys[i])`, pairs taken while both
    /// lists last (Lagrange interpolation).
    pub fn interpolate(xs: Vec<Fp<P>>, ys: Vec<Fp<P>>) -> (r: Self)
        requires
            is_prime(P as nat),
            xs@.len() + 2 <= usize::MAX,
            distinct_points(xs@, ys@),
        ensures
            r.coeffs() == lagrange_sum(xs@, ys@, point_count(xs@, ys@)),
    {
        let u = UnivariatePolynomial::interpolate_xy(xs, ys);
        Polynomial { coefficients: u.coefficients }
    }

    /// True for the zero polynomial (no coefficients).
    pub fn is_zero(&self) -> (r: bool)
        ensures
            r <==> self.coeffs().len() == 0,
    {
        self.coefficients.len() == 0
    }

    /// The degree: one less than the number of coefficients (zero when there are none).
    pub fn degree(&self) -> (r: usize)
        ensures
            r == if self.coeffs().len() == 0 {
                0
            } else {
                self.coeffs().len() - 1
            },
    {
        if self.coefficients.len() == 0 {
            0
        } else {
            self.coefficients.len() - 1
        }
    }

    /// Polynomial addition.
    pub fn add(&self, other: &Self) -> (r: Self)
        ensures
            r.coeffs() == poly_add(self.coeffs(), other.coeffs()),
    {
        let a = UnivariatePolynomial { coefficients: copy_coefficients(&self.coefficients) };
        let b = UnivariatePolynomial { coefficients: copy_coefficients(&other.coefficients) };
        Polynomial { coefficients: a.add(&b).coefficients }
    }

    /// Polynomial multiplication.
    pub fn mul(&self, other: &Self) -> (r: Self)
        requires
            0 < P,
            self.coeffs().len() + other.coeffs().len() <= usize::MAX,
        ensures
            r.coeffs() == poly_mul(self.coeffs(), other.coeffs()),
    {
        let a = UnivariatePolynomial { coefficients: copy_coefficients(&self.coefficients) };
        let b = UnivariatePolynomial { coefficients: copy_coefficients(&other.coefficients) };
        Polynomial { coefficients: a.mul(&b).coefficients }
    }
}

/// A vector holding the same coefficients.
fn copy_coefficients<const P: u64>(v: &Vec<Fp<P>>) -> (r: Vec<Fp<P>>)
    ensures
        r@ == v@,
{
    let mut out: Vec<Fp<P>> = Vec::new();
    let mut i: usize = 0;
    while i < v.len()
        invariant
            i <= v@.len(),
            out@ == v@.subrange(0, i as int),
        decreases v@.len() - i,
    {
        out.push(v[i]);
        proof {
            assert(out@ =~= v@.subrange(0, i + 1));
        }
        i = i + 1;
    }
    proof {
        assert(out@ =~= v@);
    }
    out
}

} // verus!
