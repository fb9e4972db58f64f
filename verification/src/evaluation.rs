//! What a multilinear polynomial stands for: the function its coefficients
//! define on field points, and how substitution and sums of coefficients act
//! on that function.
//!
//! Monomial `k` holds variable `i` when bit `i` of `k` is set; the polynomial
//! with coefficients `f` in `n` variables takes at `x` the value
//! `sum_k f(k) * prod_{i in k} x[i]`, computed by splitting on the last variable.
use crate::bits::bit_of;
use crate::field::Fp;
use crate::multilinear::{
    add_terms, all_canonical, bits_of, coeff_or_zero, compress, count_true, fix_all, kept_bits,
    lemma_bits_value, relabelled_terms, fix_variable, has_partner, keys_below, lemma_fix_all_keys,
};
use crate::sumcheck::{fix_from, lemma_fix_from_zero, point_value};
use vstd::arithmetic::div_mod::*;
use vstd::arithmetic::power2::*;
use vstd::prelude::*;

verus! {

/// The coefficients from monomial `d` on: coefficient `k` of the result is
/// coefficient `k + d` of `f`.
pub open spec fn shifted<const P: u64>(f: spec_fn(nat) -> Fp<P>, d: nat) -> spec_fn(nat) -> Fp<P> {
    |k: nat| f(k + d)
}

/// The value at `x` of the polynomial in the first `n` variables whose
/// coefficient of monomial `k` is `f(k)`: the part without the last variable
/// plus that variable times the part with it.
pub open spec fn poly_value<const P: u64>(f: spec_fn(nat) -> Fp<P>, n: nat, x: Seq<Fp<P>>) -> Fp<P>
    decreases n,
{
    if n == 0 {
        f(0)
    } else {
        let h = (n - 1) as nat;
        poly_value(f, h, x).spec_add(x[h as int].spec_mul(poly_value(shifted(f, pow2(h)), h, x)))
    }
}

/// The value depends on the coefficients below `2^n` and the first `n` coordinates only.
pub proof fn lemma_value_ext<const P: u64>(
    f: spec_fn(nat) -> Fp<P>,
    g: spec_fn(nat) -> Fp<P>,
    n: nat,
    x: Seq<Fp<P>>,
    y: Seq<Fp<P>>,
)
    requires
        forall|k: nat| k < pow2(n) ==> #[trigger] f(k) == g(k),
        forall|i: int| 0 <= i < n ==> x[i] == y[i],
    ensures
        poly_value(f, n, x) == poly_value(g, n, y),
    decreases n,
{
    lemma_pow2_pos(n);
    if n > 0 {
        let h = (n - 1) as nat;
        lemma_pow2_unfold(n);
        lemma_value_ext(f, g, h, x, y);
        let d = pow2(h);
        assert forall|k: nat| k < pow2(h) implies #[trigger] shifted(f, d)(k) == shifted(g, d)(k) by {
        }
        lemma_value_ext(shifted(f, d), shifted(g, d), h, x, y);
    }
}

/// Anything times zero is zero, and zero plus zero is zero.
pub proof fn lemma_times_zero<const P: u64>(x: Fp<P>)
    requires
        0 < P,
    ensures
        x.spec_mul(Fp::<P>::spec_zero()) == Fp::<P>::spec_zero(),
        Fp::<P>::spec_zero().spec_add(Fp::<P>::spec_zero()) == Fp::<P>::spec_zero(),
        Fp::<P>::spec_zero().value() == 0,
{
    Fp::<P>::lemma_from_nat(0);
    lemma_small_mod(0, P as nat);
    assert(x.value() * 0 == 0);
}

/// Coefficients that are all zero below `2^n` give zero.
pub proof fn lemma_value_zero<const P: u64>(f: spec_fn(nat) -> Fp<P>, n: nat, x: Seq<Fp<P>>)
    requires
        0 < P,
        forall|k: nat| k < pow2(n) ==> #[trigger] f(k) == Fp::<P>::spec_zero(),
    ensures
        poly_value(f, n, x) == Fp::<P>::spec_zero(),
    decreases n,
{
    lemma_pow2_pos(n);
    if n > 0 {
        let h = (n - 1) as nat;
        lemma_pow2_unfold(n);
        lemma_value_zero(f, h, x);
        let d = pow2(h);
        assert forall|k: nat| k < pow2(h) implies #[trigger] shifted(f, d)(k) == Fp::<P>::spec_zero() by {
        }
        lemma_value_zero(shifted(f, d), h, x);
        lemma_times_zero(x[h as int]);
    }
}

/// Coefficients zero below `2^n` except the constant one give the constant.
pub proof fn lemma_value_constant<const P: u64>(f: spec_fn(nat) -> Fp<P>, n: nat, x: Seq<Fp<P>>)
    requires
        1 < P,
        f(0).value() < P,
        forall|k: nat| 0 < k < pow2(n) ==> #[trigger] f(k) == Fp::<P>::spec_zero(),
    ensures
        poly_value(f, n, x) == f(0),
    decreases n,
{
    lemma_pow2_pos(n);
    if n > 0 {
        let h = (n - 1) as nat;
        lemma_pow2_unfold(n);
        lemma_pow2_pos(h);
        lemma_value_constant(f, h, x);
        let d = pow2(h);
        assert forall|k: nat| k < pow2(h) implies #[trigger] shifted(f, d)(k) == Fp::<P>::spec_zero() by {
        }
        lemma_value_zero(shifted(f, d), h, x);
        lemma_times_zero(x[h as int]);
        Fp::<P>::lemma_identities(f(0));
    }
}

/// `(a + b) + x (c + d) == (a + x c) + (b + x d)`.
proof fn lemma_sum_split<const P: u64>(a: Fp<P>, b: Fp<P>, c: Fp<P>, d: Fp<P>, x: Fp<P>)
    requires
        0 < P,
    ensures
        a.spec_add(b).spec_add(x.spec_mul(c.spec_add(d))) == a.spec_add(x.spec_mul(c)).spec_add(
            b.spec_add(x.spec_mul(d)),
        ),
{
    let xc = x.spec_mul(c);
    let xd = x.spec_mul(d);
    Fp::<P>::lemma_distributive(x, c, d);
    Fp::<P>::lemma_add_associative(a, b, xc.spec_add(xd));
    Fp::<P>::lemma_add_associative(b, xc, xd);
    Fp::<P>::lemma_commutative(b, xc);
    Fp::<P>::lemma_add_associative(xc, b, xd);
    Fp::<P>::lemma_add_associative(a, xc, b.spec_add(xd));
}

/// `c a + x (c b) == c (a + x b)`.
proof fn lemma_scale_split<const P: u64>(a: Fp<P>, b: Fp<P>, c: Fp<P>, x: Fp<P>)
    requires
        0 < P,
    ensures
        c.spec_mul(a).spec_add(x.spec_mul(c.spec_mul(b))) == c.spec_mul(a.spec_add(x.spec_mul(b))),
{
    Fp::<P>::lemma_mul_associative(x, c, b);
    Fp::<P>::lemma_commutative(x, c);
    Fp::<P>::lemma_mul_associative(c, x, b);
    Fp::<P>::lemma_distributive(c, a, x.spec_mul(b));
}

/// Adding coefficients adds values.
pub proof fn lemma_value_add<const P: u64>(
    f: spec_fn(nat) -> Fp<P>,
    g: spec_fn(nat) -> Fp<P>,
    s: spec_fn(nat) -> Fp<P>,
    n: nat,
    x: Seq<Fp<P>>,
)
    requires
        0 < P,
        forall|k: nat| k < pow2(n) ==> #[trigger] s(k) == f(k).spec_add(g(k)),
    ensures
        poly_value(s, n, x) == poly_value(f, n, x).spec_add(poly_value(g, n, x)),
    decreases n,
{
    lemma_pow2_pos(n);
    if n > 0 {
        let h = (n - 1) as nat;
        lemma_pow2_unfold(n);
        let d = pow2(h);
        lemma_value_add(f, g, s, h, x);
        assert forall|k: nat| k < pow2(h) implies #[trigger] shifted(s, d)(k) == shifted(f, d)(k).spec_add(shifted(g, d)(k)) by {
        }
        lemma_value_add(shifted(f, d), shifted(g, d), shifted(s, d), h, x);
        lemma_sum_split(
            poly_value(f, h, x),
            poly_value(g, h, x),
            poly_value(shifted(f, d), h, x),
            poly_value(shifted(g, d), h, x),
            x[h as int],
        );
    }
}

/// Scaling coefficients scales values.
pub proof fn lemma_value_scale<const P: u64>(
    f: spec_fn(nat) -> Fp<P>,
    s: spec_fn(nat) -> Fp<P>,
    c: Fp<P>,
    n: nat,
    x: Seq<Fp<P>>,
)
    requires
        0 < P,
        forall|k: nat| k < pow2(n) ==> #[trigger] s(k) == c.spec_mul(f(k)),
    ensures
        poly_value(s, n, x) == c.spec_mul(poly_value(f, n, x)),
    decreases n,
{
    lemma_pow2_pos(n);
    if n > 0 {
        let h = (n - 1) as nat;
        lemma_pow2_unfold(n);
        let d = pow2(h);
        lemma_value_scale(f, s, c, h, x);
        assert forall|k: nat| k < pow2(h) implies #[trigger] shifted(s, d)(k) == c.spec_mul(shifted(f, d)(k)) by {
        }
        lemma_value_scale(shifted(f, d), shifted(s, d), c, h, x);
        lemma_scale_split(poly_value(f, h, x), poly_value(shifted(f, d), h, x), c, x[h as int]);
    }
}

/// A number below `2^h` has bit `h` clear, and adding `2^h` sets it.
pub proof fn lemma_bit_top(k: nat, h: nat)
    requires
        k < pow2(h),
    ensures
        !bit_of(k, h),
        bit_of(k + pow2(h), h),
{
    lemma_pow2_pos(h);
    lemma_basic_div(k as int, pow2(h) as int);
    lemma_hoist_over_denominator(k as int, 1, pow2(h));
}

/// Adding `2^h` leaves the bits below `h` as they were.
pub proof fn lemma_bit_shift(k: nat, h: nat, p: nat)
    requires
        p < h,
    ensures
        bit_of(k + pow2(h), p) == bit_of(k, p),
{
    let e = (h - p) as nat;
    lemma_pow2_adds(p, e);
    lemma_pow2_pos(p);
    lemma_pow2_pos(e);
    lemma_pow2_unfold(e);
    lemma_pow2_pos((e - 1) as nat);
    vstd::arithmetic::mul::lemma_mul_is_commutative(pow2(p) as int, pow2(e) as int);
    lemma_hoist_over_denominator(k as int, pow2(e) as int, pow2(p));
    let q = k / pow2(p);
    lemma_mod_multiples_vanish(pow2((e - 1) as nat) as int, q as int, 2);
}

/// Substituting `c` for variable `p` (coefficients `g`, from `f`: each
/// monomial without `p` gains `c` times the one with it, and the monomials with
/// `p` vanish) gives the value at the point with coordinate `p` set to `c`.
pub proof fn lemma_value_fix<const P: u64>(
    f: spec_fn(nat) -> Fp<P>,
    g: spec_fn(nat) -> Fp<P>,
    p: nat,
    c: Fp<P>,
    n: nat,
    x: Seq<Fp<P>>,
)
    requires
        1 < P,
        p < n,
        n <= x.len(),
        forall|k: nat|
            k < pow2(n) ==> #[trigger] g(k) == if bit_of(k, p) {
                Fp::<P>::spec_zero()
            } else {
                f(k).spec_add(c.spec_mul(f(k + pow2(p))))
            },
    ensures
        poly_value(g, n, x) == poly_value(f, n, x.update(p as int, c)),
    decreases n,
{
    let h = (n - 1) as nat;
    let d = pow2(h);
    let y = x.update(p as int, c);
    lemma_pow2_unfold(n);
    lemma_pow2_pos(h);
    if p == h {
        // below 2^h: f(k) + c f(k + 2^h); above: zero
        assert forall|k: nat| k < pow2(h) implies #[trigger] g(k) == f(k).spec_add(c.spec_mul(shifted(f, d)(k))) by {
            lemma_bit_top(k, h);
        }
        lemma_value_lin(f, shifted(f, d), g, c, h, x);
        assert forall|k: nat| k < pow2(h) implies #[trigger] shifted(g, d)(k) == Fp::<P>::spec_zero() by {
            lemma_bit_top(k, h);
        }
        lemma_value_zero(shifted(g, d), h, x);
        lemma_times_zero(x[h as int]);
        let v = poly_value(f, h, x).spec_add(c.spec_mul(poly_value(shifted(f, d), h, x)));
        Fp::<P>::lemma_ops_canonical(poly_value(f, h, x), c.spec_mul(poly_value(shifted(f, d), h, x)));
        Fp::<P>::lemma_identities(v);
        lemma_value_ext(f, f, h, x, y);
        lemma_value_ext(shifted(f, d), shifted(f, d), h, x, y);
    } else {
        assert forall|k: nat| k < pow2(h) implies #[trigger] g(k) == if bit_of(k, p) {
            Fp::<P>::spec_zero()
        } else {
            f(k).spec_add(c.spec_mul(f(k + pow2(p))))
        } by {}
        lemma_value_fix(f, g, p, c, h, x);
        assert forall|k: nat| k < pow2(h) implies #[trigger] shifted(g, d)(k) == if bit_of(k, p) {
            Fp::<P>::spec_zero()
        } else {
            shifted(f, d)(k).spec_add(c.spec_mul(shifted(f, d)(k + pow2(p))))
        } by {
            lemma_bit_shift(k, h, p);
            assert(k + pow2(p) + d == k + d + pow2(p));
        }
        lemma_value_fix(shifted(f, d), shifted(g, d), p, c, h, x);
        assert(y[h as int] == x[h as int]);
    }
}

/// Adding a multiple of other coefficients adds that multiple of their value.
pub proof fn lemma_value_lin<const P: u64>(
    f: spec_fn(nat) -> Fp<P>,
    g: spec_fn(nat) -> Fp<P>,
    s: spec_fn(nat) -> Fp<P>,
    c: Fp<P>,
    n: nat,
    x: Seq<Fp<P>>,
)
    requires
        0 < P,
        forall|k: nat| k < pow2(n) ==> #[trigger] s(k) == f(k).spec_add(c.spec_mul(g(k))),
    ensures
        poly_value(s, n, x) == poly_value(f, n, x).spec_add(c.spec_mul(poly_value(g, n, x))),
{
    let cg = |k: nat| c.spec_mul(g(k));
    assert forall|k: nat| k < pow2(n) implies #[trigger] s(k) == f(k).spec_add(cg(k)) by {}
    lemma_value_add(f, cg, s, n, x);
    assert forall|k: nat| k < pow2(n) implies #[trigger] cg(k) == c.spec_mul(g(k)) by {}
    lemma_value_scale(g, cg, c, n, x);
}

/// The coefficient of monomial `k` in the terms `m` (zero where `m` holds none).
pub open spec fn coeffs<const P: u64>(m: Map<usize, Fp<P>>) -> spec_fn(nat) -> Fp<P> {
    |k: nat|
        if k <= usize::MAX && m.contains_key(k as usize) {
            m[k as usize]
        } else {
            Fp::<P>::spec_zero()
        }
}

/// The value at `x` of the polynomial in `n` variables with terms `m`.
pub open spec fn terms_value<const P: u64>(m: Map<usize, Fp<P>>, n: nat, x: Seq<Fp<P>>) -> Fp<P> {
    poly_value(coeffs(m), n, x)
}

/// `fix_variable` substitutes on the coefficients as `lemma_value_fix` expects,
/// and keeps the keys below `2^n` and the coefficients canonical.
pub proof fn lemma_fix_variable_coeffs<const P: u64>(m: Map<usize, Fp<P>>, p: nat, c: Fp<P>, n: nat)
    requires
        1 < P,
        keys_below(m, n),
        all_canonical(m),
        pow2(n) <= usize::MAX,
    ensures
        keys_below(fix_variable(m, p, c), n),
        all_canonical(fix_variable(m, p, c)),
        forall|k: nat|
            k < pow2(n) ==> #[trigger] coeffs(fix_variable(m, p, c))(k) == if bit_of(k, p) {
                Fp::<P>::spec_zero()
            } else {
                coeffs(m)(k).spec_add(c.spec_mul(coeffs(m)(k + pow2(p))))
            },
{
    let r = fix_variable(m, p, c);
    let zero = Fp::<P>::spec_zero();
    lemma_times_zero(c);
    Fp::<P>::lemma_identities(zero);
    assert forall|k: usize| #[trigger] r.contains_key(k) implies (k as nat) < pow2(n) && r[k].value() < P by {
        if has_partner(m, k, p) {
            let q = (k + pow2(p)) as usize;
            assert(m.contains_key(q));
            Fp::<P>::lemma_ops_canonical(coeff_or_zero(m, k), m[q].spec_mul(c));
        } else {
            assert(m.contains_key(k));
        }
    }
    assert forall|k: nat| k < pow2(n) implies #[trigger] coeffs(r)(k) == if bit_of(k, p) {
        zero
    } else {
        coeffs(m)(k).spec_add(c.spec_mul(coeffs(m)(k + pow2(p))))
    } by {
        let ku = k as usize;
        if !bit_of(k, p) {
            if has_partner(m, ku, p) {
                let q = (ku + pow2(p)) as usize;
                Fp::<P>::lemma_commutative(m[q], c);
            } else if m.contains_key(ku) {
                Fp::<P>::lemma_identities(m[ku]);
            } else {
            }
        }
    }
}

/// The point with the coordinates from `first` on replaced by `vals`.
pub open spec fn substituted<const P: u64>(y: Seq<Fp<P>>, first: nat, vals: Seq<Fp<P>>) -> Seq<Fp<P>> {
    Seq::new(
        y.len(),
        |i: int|
            if first <= i < first + vals.len() {
                vals[i - first]
            } else {
                y[i]
            },
    )
}

/// Substituting `vals` from variable `first` on gives the value at the point
/// with those coordinates replaced.
pub proof fn lemma_fix_from_value<const P: u64>(
    m: Map<usize, Fp<P>>,
    first: nat,
    vals: Seq<Fp<P>>,
    n: nat,
    y: Seq<Fp<P>>,
)
    requires
        1 < P,
        keys_below(m, n),
        all_canonical(m),
        pow2(n) <= usize::MAX,
        first + vals.len() <= n,
        y.len() == n,
    ensures
        keys_below(fix_from(m, first, vals), n),
        all_canonical(fix_from(m, first, vals)),
        terms_value(fix_from(m, first, vals), n, y) == terms_value(m, n, substituted(y, first, vals)),
    decreases vals.len(),
{
    if vals.len() == 0 {
        assert(substituted(y, first, vals) =~= y);
    } else {
        let prev = vals.drop_last();
        let q = (first + vals.len() - 1) as nat;
        let v = vals.last();
        let fm = fix_from(m, first, prev);
        let y2 = y.update(q as int, v);
        lemma_fix_from_value(m, first, prev, n, y2);
        lemma_fix_variable_coeffs(fm, q, v, n);
        lemma_value_fix(coeffs(fm), coeffs(fix_variable(fm, q, v)), q, v, n, y);
        assert(substituted(y2, first, prev) =~= substituted(y, first, vals));
    }
}

/// What `evaluate` computes is the value of the polynomial at the point.
pub proof fn lemma_point_value<const P: u64>(m: Map<usize, Fp<P>>, n: nat, xs: Seq<Fp<P>>)
    requires
        1 < P,
        keys_below(m, n),
        all_canonical(m),
        pow2(n) <= usize::MAX,
        xs.len() == n,
        n == 0 || !m.dom().is_empty(),
    ensures
        point_value(m, n, xs) == terms_value(m, n, xs),
{
    if n == 0 {
    } else {
        lemma_fix_from_zero(m, xs);
        lemma_fix_from_value(m, 0, xs, n, xs);
        assert(substituted(xs, 0, xs) =~= xs);
        let r = fix_all(m, xs);
        lemma_fix_all_keys(m, xs, n);
        lemma_pow2_pos(n);
        assert forall|k: nat| 0 < k < pow2(n) implies #[trigger] coeffs(r)(k) == Fp::<P>::spec_zero() by {
            if r.contains_key(k as usize) {
                lemma_small_mod(k, pow2(n));
            }
        }
        let k0 = r.dom().choose();
        assert(r.contains_key(k0));
        lemma_small_mod(k0 as nat, pow2(n));
        assert(k0 == 0);
        lemma_value_constant(coeffs(r), n, xs);
    }
}

/// Every coefficient below `2^n` is canonical.
pub open spec fn canonical_below<const P: u64>(f: spec_fn(nat) -> Fp<P>, n: nat) -> bool {
    forall|k: nat| k < pow2(n) ==> (#[trigger] f(k)).value() < P
}

/// Coefficients that vanish on every monomial holding variable 0 give a value
/// that does not depend on that variable: it is the value of the polynomial in
/// the other variables, renumbered from zero.
pub proof fn lemma_value_drop_first<const P: u64>(
    f: spec_fn(nat) -> Fp<P>,
    g: spec_fn(nat) -> Fp<P>,
    n: nat,
    y: Seq<Fp<P>>,
)
    requires
        1 < P,
        1 <= n,
        n <= y.len(),
        canonical_below(f, n),
        forall|k: nat| k < pow2(n) && k % 2 == 1 ==> #[trigger] f(k) == Fp::<P>::spec_zero(),
        forall|x: nat| #[trigger] g(x) == f(2 * x),
    ensures
        poly_value(f, n, y) == poly_value(g, (n - 1) as nat, y.skip(1)),
    decreases n,
{
    let h = (n - 1) as nat;
    lemma_pow2_unfold(n);
    lemma_pow2_pos(h);
    if n == 1 {
        lemma2_to64();
        assert(pow2(0) == 1);
        assert(shifted(f, 1)(0) == f(1));
        assert(f(1) == Fp::<P>::spec_zero());
        assert(f(0).value() < P);
        assert(g(0) == f(0));
        lemma_times_zero(y[0]);
        Fp::<P>::lemma_identities(f(0));
        assert(poly_value(f, 0, y) == f(0));
        assert(poly_value(shifted(f, pow2(0)), 0, y) == shifted(f, pow2(0))(0));
        assert(poly_value(g, 0, y.skip(1)) == g(0));
    } else {
        let d = pow2(h);
        let sf = shifted(f, d);
        lemma_pow2_unfold(h);
        lemma_pow2_pos((h - 1) as nat);
        assert forall|k: nat| k < pow2(h) implies (#[trigger] f(k)).value() < P by {}
        lemma_value_drop_first(f, g, h, y);
        let sg = |x: nat| sf(2 * x);
        assert forall|k: nat| k < pow2(h) && k % 2 == 1 implies #[trigger] sf(k) == Fp::<P>::spec_zero() by {
            lemma_mod_multiples_vanish(pow2((h - 1) as nat) as int, k as int, 2);
            assert(k + d == 2 * pow2((h - 1) as nat) + k);
        }
        assert forall|k: nat| k < pow2(h) implies (#[trigger] sf(k)).value() < P by {}
        lemma_value_drop_first(sf, sg, h, y);
        let e = pow2((h - 1) as nat);
        assert forall|x: nat| x < pow2((h - 1) as nat) implies #[trigger] sg(x) == shifted(g, e)(x) by {
            assert(2 * x + d == 2 * (x + e));
        }
        lemma_value_ext(sg, shifted(g, e), (h - 1) as nat, y.skip(1), y.skip(1));
        assert(y.skip(1)[(h - 1) as int] == y[h as int]);
        assert(poly_value(g, h, y.skip(1)) == poly_value(g, (h - 1) as nat, y.skip(1)).spec_add(
            y.skip(1)[(h - 1) as int].spec_mul(poly_value(shifted(g, e), (h - 1) as nat, y.skip(1))),
        ));
    }
}

/// Coefficients that vanish on every monomial holding one of the first `r`
/// variables give the value of the polynomial in the others, renumbered from zero.
pub proof fn lemma_value_drop_prefix<const P: u64>(
    f: spec_fn(nat) -> Fp<P>,
    g: spec_fn(nat) -> Fp<P>,
    r: nat,
    n: nat,
    y: Seq<Fp<P>>,
)
    requires
        1 < P,
        r <= n,
        n <= y.len(),
        canonical_below(f, n),
        forall|k: nat| k < pow2(n) && k % pow2(r) != 0 ==> #[trigger] f(k) == Fp::<P>::spec_zero(),
        forall|x: nat| #[trigger] g(x) == f(x * pow2(r)),
    ensures
        poly_value(f, n, y) == poly_value(g, (n - r) as nat, y.skip(r as int)),
    decreases r,
{
    if r == 0 {
        lemma2_to64();
        assert(y.skip(0) =~= y);
        assert forall|x: nat| x < pow2(n) implies #[trigger] g(x) == f(x) by {}
        lemma_value_ext(g, f, n, y, y);
    } else {
        let f1 = |x: nat| f(2 * x);
        let r1 = (r - 1) as nat;
        lemma_pow2_unfold(r);
        lemma_pow2_pos(r1);
        lemma_pow2_unfold(n);
        lemma_pow2_pos((n - 1) as nat);
        assert forall|k: nat| k < pow2(n) && k % 2 == 1 implies #[trigger] f(k) == Fp::<P>::spec_zero() by {
            lemma_mod_breakdown(k as int, 2, pow2(r1) as int);
        }
        lemma_value_drop_first(f, f1, n, y);
        assert forall|k: nat| k < pow2((n - 1) as nat) implies (#[trigger] f1(k)).value() < P by {}
        assert forall|k: nat| k < pow2((n - 1) as nat) && k % pow2(r1) != 0 implies #[trigger] f1(k)
            == Fp::<P>::spec_zero() by {
            lemma_mod_multiples_basic(0, 2);
            lemma_mod_breakdown((2 * k) as int, 2, pow2(r1) as int);
            lemma_div_multiples_vanish(k as int, 2);
            assert((2 * k) % 2 == 0) by {
                lemma_mod_multiples_vanish(k as int, 0, 2);
            }
        }
        let g1 = |x: nat| f1(x * pow2(r1));
        lemma_value_drop_prefix(f1, g1, r1, (n - 1) as nat, y.skip(1));
        assert forall|x: nat| x < pow2((n - r) as nat) implies #[trigger] g1(x) == g(x) by {
            vstd::arithmetic::mul::lemma_mul_is_associative(2, x as int, pow2(r1) as int);
            vstd::arithmetic::mul::lemma_mul_is_commutative(2, x as int);
            vstd::arithmetic::mul::lemma_mul_is_associative(x as int, 2, pow2(r1) as int);
        }
        lemma_value_ext(g1, g, (n - r) as nat, y.skip(1).skip(r1 as int), y.skip(r as int));
    }
}

/// Coefficients that vanish from `2^a` on give the value of the polynomial in
/// the first `a` variables.
pub proof fn lemma_value_fewer<const P: u64>(f: spec_fn(nat) -> Fp<P>, a: nat, n: nat, y: Seq<Fp<P>>)
    requires
        1 < P,
        a <= n,
        canonical_below(f, n),
        forall|k: nat| pow2(a) <= k < pow2(n) ==> #[trigger] f(k) == Fp::<P>::spec_zero(),
    ensures
        poly_value(f, n, y) == poly_value(f, a, y),
    decreases n,
{
    if n > a {
        let h = (n - 1) as nat;
        lemma_pow2_unfold(n);
        lemma_pow2_pos(h);
        lemma_pow2_strictly_increases(a, n);
        if a < h {
            lemma_pow2_strictly_increases(a, h);
        }
        assert forall|k: nat| k < pow2(h) implies (#[trigger] f(k)).value() < P by {}
        lemma_value_fewer(f, a, h, y);
        let d = pow2(h);
        if a < h {
            lemma_pow2_strictly_increases(a, h);
        }
        assert forall|k: nat| k < pow2(h) implies #[trigger] shifted(f, d)(k) == Fp::<P>::spec_zero() by {}
        lemma_value_zero(shifted(f, d), h, y);
        lemma_times_zero(y[h as int]);
        lemma_value_canonical(f, h, y);
        Fp::<P>::lemma_identities(poly_value(f, h, y));
    }
}

/// Values of canonical coefficients are canonical.
pub proof fn lemma_value_canonical<const P: u64>(f: spec_fn(nat) -> Fp<P>, n: nat, y: Seq<Fp<P>>)
    requires
        1 < P,
        canonical_below(f, n),
    ensures
        poly_value(f, n, y).value() < P,
{
    lemma_pow2_pos(n);
    if n > 0 {
        let h = (n - 1) as nat;
        Fp::<P>::lemma_ops_canonical(
            poly_value(f, h, y),
            y[h as int].spec_mul(poly_value(shifted(f, pow2(h)), h, y)),
        );
    }
}

/// The coefficients of a sum of terms are the sums of the coefficients.
pub proof fn lemma_add_terms_value<const P: u64>(
    a: Map<usize, Fp<P>>,
    b: Map<usize, Fp<P>>,
    n: nat,
    y: Seq<Fp<P>>,
)
    requires
        1 < P,
        pow2(n) <= usize::MAX,
    ensures
        terms_value(add_terms(a, b), n, y) == terms_value(a, n, y).spec_add(terms_value(b, n, y)),
{
    lemma_times_zero(Fp::<P>::spec_zero());
    assert forall|k: nat| k < pow2(n) implies #[trigger] coeffs(add_terms(a, b))(k) == coeffs(a)(k).spec_add(
        coeffs(b)(k),
    ) by {}
    lemma_value_add(coeffs(a), coeffs(b), coeffs(add_terms(a, b)), n, y);
}

/// The presence vector of `n` variables of which the first `r` are gone.
pub open spec fn later_present(r: nat, n: nat) -> Seq<bool> {
    Seq::new(n, |i: int| i >= r)
}

/// The bits a presence vector keeps when the first `r` variables are gone.
proof fn lemma_kept_bits_later(k: nat, r: nat, j: nat)
    ensures
        j <= r ==> kept_bits(k, later_present(r, j)) =~= Seq::<bool>::empty(),
        j >= r ==> kept_bits(k, later_present(r, j)) =~= bits_of(k / pow2(r), (j - r) as nat),
    decreases j,
{
    if j > 0 {
        let pj = later_present(r, j);
        assert(pj.drop_last() =~= later_present(r, (j - 1) as nat));
        lemma_kept_bits_later(k, r, (j - 1) as nat);
        if j > r {
            let e = (j - 1 - r) as nat;
            lemma_pow2_adds(r, e);
            lemma_pow2_pos(r);
            lemma_pow2_pos(e);
            lemma_div_denominator(k as int, pow2(r) as int, pow2(e) as int);
            assert(bits_of(k / pow2(r), (j - r) as nat) =~= bits_of(k / pow2(r), e).push(bit_of(k, (j - 1) as nat)));
        }
    }
}

/// The number of variables left when the first `r` of `n` are gone.
proof fn lemma_count_later(r: nat, n: nat)
    requires
        r <= n,
    ensures
        count_true(later_present(r, n)) == n - r,
    decreases n,
{
    if n > 0 {
        assert(later_present(r, n).drop_last() =~= later_present(r, (n - 1) as nat));
        if n > r {
            lemma_count_later(r, (n - 1) as nat);
        } else {
            lemma_count_none(r, n);
        }
    }
}

/// No variable is left among the first `r`.
proof fn lemma_count_none(r: nat, n: nat)
    requires
        n <= r,
    ensures
        count_true(later_present(r, n)) == 0,
    decreases n,
{
    if n > 0 {
        assert(later_present(r, n).drop_last() =~= later_present(r, (n - 1) as nat));
        lemma_count_none(r, (n - 1) as nat);
    }
}

/// Renumbering the variables when the first `r` are gone divides each
/// monomial's index by `2^r`.
pub proof fn lemma_compress_later(k: nat, r: nat, n: nat)
    requires
        r <= n,
        k < pow2(n),
    ensures
        compress(k, later_present(r, n)) == k / pow2(r),
        k / pow2(r) < pow2((n - r) as nat),
{
    lemma_kept_bits_later(k, r, n);
    lemma_pow2_adds(r, (n - r) as nat);
    lemma_pow2_pos(r);
    vstd::arithmetic::div_mod::lemma_multiply_divide_lt(k as int, pow2(r) as int, pow2((n - r) as nat) as int);
    lemma_bits_value(k / pow2(r), (n - r) as nat);
}

/// The terms of a polynomial whose monomials all miss the first `r` variables,
/// renumbered: coefficient `x` of the result is coefficient `x * 2^r` before,
/// and the value is the value before on any point with the same later coordinates.
pub proof fn lemma_relabel_later<const P: u64>(m: Map<usize, Fp<P>>, r: nat, n: nat, y: Seq<Fp<P>>)
    requires
        1 < P,
        r <= n,
        n <= y.len(),
        pow2(n) <= usize::MAX,
        keys_below(m, n),
        all_canonical(m),
        forall|k: usize| #[trigger] m.contains_key(k) ==> (k as nat) % pow2(r) == 0,
    ensures
        keys_below(relabelled_terms(m, later_present(r, n)), (n - r) as nat),
        all_canonical(relabelled_terms(m, later_present(r, n))),
        count_true(later_present(r, n)) == n - r,
        forall|x: nat|
            x < pow2((n - r) as nat) ==> #[trigger] coeffs(relabelled_terms(m, later_present(r, n)))(x) == coeffs(
                m,
            )(x * pow2(r)),
        terms_value(relabelled_terms(m, later_present(r, n)), (n - r) as nat, y.skip(r as int)) == terms_value(
            m,
            n,
            y,
        ),
{
    let pr = later_present(r, n);
    let t = relabelled_terms(m, pr);
    let e = (n - r) as nat;
    lemma_count_later(r, n);
    lemma_pow2_pos(r);
    lemma_pow2_adds(r, e);
    assert forall|x: usize| #[trigger] t.contains_key(x) implies (x as nat) < pow2(e) && t[x].value() < P by {
        let k = choose|k: usize| #[trigger] m.contains_key(k) && compress(k as nat, pr) == x;
        lemma_compress_later(k as nat, r, n);
    }
    // a key of m is determined by its renumbered index
    assert forall|k: usize| #[trigger] m.contains_key(k) implies k == compress(k as nat, pr) * pow2(r) by {
        lemma_compress_later(k as nat, r, n);
        lemma_fundamental_div_mod(k as int, pow2(r) as int);
        vstd::arithmetic::mul::lemma_mul_is_commutative(pow2(r) as int, (k as nat / pow2(r)) as int);
    }
    if e < n {
        lemma_pow2_strictly_increases(e, n);
    }
    assert forall|x: nat| x < pow2(e) implies #[trigger] coeffs(t)(x) == coeffs(m)(x * pow2(r)) by {
        let big = x * pow2(r);
        vstd::arithmetic::mul::lemma_mul_strict_inequality(x as int, pow2(e) as int, pow2(r) as int);
        vstd::arithmetic::mul::lemma_mul_is_commutative(pow2(e) as int, pow2(r) as int);
        if m.contains_key(big as usize) {
            lemma_compress_later(big, r, n);
            vstd::arithmetic::div_mod::lemma_div_multiples_vanish(x as int, pow2(r) as int);
            vstd::arithmetic::mul::lemma_mul_is_commutative(x as int, pow2(r) as int);
            assert(compress(big, pr) == x);
            assert(t.contains_key(x as usize));
        }
        let xu = x as usize;
        if t.contains_key(xu) {
            let k = choose|k: usize| #[trigger] m.contains_key(k) && compress(k as nat, pr) == xu;
            assert(k == compress(k as nat, pr) * pow2(r));
        }
    }
    let f = coeffs(m);
    let g = |x: nat| f(x * pow2(r));
    assert forall|k: nat| k < pow2(n) implies (#[trigger] f(k)).value() < P by {
        Fp::<P>::lemma_from_nat(0);
        lemma_small_mod(0, P as nat);
    }
    assert forall|k: nat| k < pow2(n) && k % pow2(r) != 0 implies #[trigger] f(k) == Fp::<P>::spec_zero() by {}
    lemma_value_drop_prefix(f, g, r, n, y);
    assert forall|x: nat| x < pow2(e) implies #[trigger] g(x) == coeffs(t)(x) by {}
    lemma_value_ext(g, coeffs(t), e, y.skip(r as int), y.skip(r as int));
}

/// Powers of two grow with the exponent.
pub proof fn lemma_pow2_le(a: nat, b: nat)
    requires
        a <= b,
    ensures
        pow2(a) <= pow2(b),
{
    if a < b {
        lemma_pow2_strictly_increases(a, b);
    }
}

/// A power of two below the width of `usize` fits in a `usize`.
pub proof fn lemma_pow2_below_bits(n: nat)
    requires
        n < usize::BITS,
    ensures
        pow2(n) <= usize::MAX,
{
    vstd::layout::unsigned_int_max_values();
    lemma_pow2_strictly_increases(n, usize::BITS as nat);
}

/// `a b + x (a c) == a (b + x c)`.
proof fn lemma_factor_split<const P: u64>(a: Fp<P>, b: Fp<P>, c: Fp<P>, x: Fp<P>)
    requires
        0 < P,
    ensures
        a.spec_mul(b).spec_add(x.spec_mul(a.spec_mul(c))) == a.spec_mul(b.spec_add(x.spec_mul(c))),
{
    lemma_scale_split(b, c, a, x);
}

/// Coefficients `g(k) = fa(k mod 2^n) * fb(k / 2^n)` (the product of a
/// polynomial in the first `n` variables and one in the next `mb`) give the
/// product of the two values.
pub proof fn lemma_value_product<const P: u64>(
    fa: spec_fn(nat) -> Fp<P>,
    n: nat,
    fb: spec_fn(nat) -> Fp<P>,
    mb: nat,
    g: spec_fn(nat) -> Fp<P>,
    x: Seq<Fp<P>>,
)
    requires
        1 < P,
        n + mb <= x.len(),
        forall|k: nat| k < pow2(n + mb) ==> #[trigger] g(k) == fa(k % pow2(n)).spec_mul(fb(k / pow2(n))),
    ensures
        poly_value(g, n + mb, x) == poly_value(fa, n, x).spec_mul(poly_value(fb, mb, x.skip(n as int))),
    decreases mb,
{
    lemma_pow2_pos(n);
    if mb == 0 {
        assert forall|k: nat| k < pow2(n) implies #[trigger] g(k) == fb(0).spec_mul(fa(k)) by {
            lemma_small_mod(k, pow2(n));
            lemma_basic_div(k as int, pow2(n) as int);
            Fp::<P>::lemma_commutative(fa(k), fb(0));
        }
        lemma_value_scale(fa, g, fb(0), n, x);
        Fp::<P>::lemma_commutative(fb(0), poly_value(fa, n, x));
    } else {
        let h = (n + mb - 1) as nat;
        let e = (mb - 1) as nat;
        let d = pow2(h);
        let de = pow2(e);
        lemma_pow2_adds(n, e);
        lemma_pow2_unfold(n + mb);
        lemma_pow2_pos(e);
        assert forall|k: nat| k < pow2(n + e) implies #[trigger] g(k) == fa(k % pow2(n)).spec_mul(fb(k / pow2(n))) by {}
        lemma_value_product(fa, n, fb, e, g, x);
        let sg = shifted(g, d);
        let sfb = shifted(fb, de);
        assert forall|k: nat| k < pow2(n + e) implies #[trigger] sg(k) == fa(k % pow2(n)).spec_mul(sfb(k / pow2(n))) by {
            vstd::arithmetic::mul::lemma_mul_is_commutative(pow2(n) as int, de as int);
            lemma_mod_multiples_vanish(de as int, k as int, pow2(n) as int);
            lemma_hoist_over_denominator(k as int, de as int, pow2(n));
        }
        lemma_value_product(fa, n, sfb, e, sg, x);
        let xs = x.skip(n as int);
        assert(xs[e as int] == x[h as int]);
        lemma_factor_split(poly_value(fa, n, x), poly_value(fb, e, xs), poly_value(sfb, e, xs), x[h as int]);
    }
}

/// A number with bit `p` set stays nonnegative and keeps its bits below `p`
/// when `2^p` is taken away; that bit is then clear.
pub proof fn lemma_bit_clear_below(k: nat, p: nat)
    requires
        bit_of(k, p),
    ensures
        k >= pow2(p),
        !bit_of((k - pow2(p)) as nat, p),
{
    lemma_pow2_pos(p);
    let q = k / pow2(p);
    lemma_fundamental_div_mod(k as int, pow2(p) as int);
    assert(q >= 1);
    vstd::arithmetic::mul::lemma_mul_inequality(1, q as int, pow2(p) as int);
    vstd::arithmetic::mul::lemma_mul_is_commutative(pow2(p) as int, q as int);
    let k1 = (k - pow2(p)) as nat;
    lemma_hoist_over_denominator(k1 as int, 1, pow2(p));
    assert(k1 / pow2(p) + 1 == q);
    lemma_mod_add_multiples_vanish((k1 / pow2(p)) as int, 2);
}

} // verus!
