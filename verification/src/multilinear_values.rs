//! What the operations on multilinear polynomials do to their values: the
//! checker of a bit string is the indicator of that string, interpolation
//! takes the given values on the hypercube, and products, sums, scaling and
//! partial evaluation act on values as their names say.
use crate::bits::{bit_len, bit_of, digit_char, lemma_binary_digits_index, lemma_bit_len_bound, lemma_high_bits_clear, padded_binary};
use crate::evaluation::{
    coeffs, lemma_point_value, lemma_pow2_le, lemma_times_zero, lemma_value_ext,
    lemma_value_product, lemma_value_scale, lemma_value_zero, poly_value, terms_value,
};
use crate::field::Fp;
use crate::multilinear::{
    all_canonical, apply_assignments, bits_of, check_terms, checker_terms, coeff_or_zero,
    fix_variable, interpolation_terms, keys_below, lemma_apply_views, lemma_bit_len_at_most, lemma_bits_value,
    lemma_checker_base, lemma_checker_step, lemma_single_selector, product_terms, selector_views,
    selectors_valid, single_position, substitute, sum_maps, MultiLinearPolynomial,
};
use crate::sumcheck::{cube_point, point_value};
use crate::univariate::horner;
use vstd::arithmetic::power2::*;
use vstd::prelude::*;

verus! {

/// The coefficients of a product over disjoint variables are the products of
/// the coefficients.
pub proof fn lemma_product_coeffs<const P: u64>(a: Map<usize, Fp<P>>, n: nat, b: Map<usize, Fp<P>>, mb: nat)
    requires
        1 < P,
        pow2(n + mb) <= usize::MAX,
    ensures
        forall|k: nat|
            k < pow2(n + mb) ==> #[trigger] coeffs(product_terms(a, n, b))(k) == coeffs(a)(k % pow2(n)).spec_mul(
                coeffs(b)(k / pow2(n)),
            ),
{
    lemma_pow2_pos(n);
    lemma_pow2_le(n, n + mb);
    let zero = Fp::<P>::spec_zero();
    Fp::<P>::lemma_from_nat(0);
    vstd::arithmetic::div_mod::lemma_small_mod(0, P as nat);
    assert forall|k: nat| k < pow2(n + mb) implies #[trigger] coeffs(product_terms(a, n, b))(k) == coeffs(a)(k
        % pow2(n)).spec_mul(coeffs(b)(k / pow2(n))) by {
        let i = k % pow2(n);
        let j = k / pow2(n);
        vstd::arithmetic::div_mod::lemma_mod_bound(k as int, pow2(n) as int);
        vstd::arithmetic::div_mod::lemma_div_is_ordered(k as int, pow2(n + mb) as int, pow2(n) as int);
        vstd::arithmetic::div_mod::lemma_div_by_self(pow2(n) as int);
        vstd::arithmetic::div_mod::lemma_div_is_ordered_by_denominator(k as int, 1, pow2(n) as int);
        lemma_times_zero(coeffs(a)(i));
        assert(zero.spec_mul(coeffs(b)(j)) == zero) by {
            assert(zero.value() * coeffs(b)(j).value() == 0);
        }
        if a.contains_key(i as usize) && a[i as usize].value() == 0 {
            assert(a[i as usize].value() * coeffs(b)(j).value() == 0);
        }
        if b.contains_key(j as usize) && b[j as usize].value() == 0 {
            assert(coeffs(a)(i).value() * b[j as usize].value() == 0);
        }
    }
}

/// The value of the one-variable checker of `c` at `v`: `v` for `'1'`, `1 - v` otherwise.
pub open spec fn check_value<const P: u64>(c: char, v: Fp<P>) -> Fp<P> {
    if c == '1' {
        v
    } else {
        Fp::<P>::spec_one().spec_add(v.spec_mul(Fp::<P>::spec_one().spec_neg()))
    }
}

/// The product over the characters of `s` of their checkers' values at `x`.
pub open spec fn checker_product<const P: u64>(s: Seq<char>, x: Seq<Fp<P>>) -> Fp<P>
    decreases s.len(),
{
    if s.len() == 0 {
        Fp::<P>::spec_one()
    } else {
        checker_product(s.drop_last(), x).spec_mul(check_value(s.last(), x[s.len() - 1]))
    }
}

/// The one-variable checker of `c` takes `check_value` at `x[0]`.
proof fn lemma_check_value<const P: u64>(c: char, x: Seq<Fp<P>>)
    requires
        1 < P,
        1 <= x.len(),
        x[0].value() < P,
    ensures
        terms_value(check_terms::<P>(c), 1, x) == check_value(c, x[0]),
        check_value(c, x[0]).value() < P,
{
    let f = coeffs(check_terms::<P>(c));
    let one = Fp::<P>::spec_one();
    Fp::<P>::lemma_sign_mul();
    lemma2_to64();
    assert(poly_value(f, 1, x) == poly_value(f, 0, x).spec_add(x[0].spec_mul(poly_value(shifted_one(f), 0, x))));
    assert(poly_value(f, 0, x) == f(0));
    assert(poly_value(shifted_one(f), 0, x) == f(1));
    Fp::<P>::lemma_ops_canonical(one, x[0].spec_mul(one.spec_neg()));
    if c == '1' {
        Fp::<P>::lemma_identities(x[0]);
        Fp::<P>::lemma_from_nat(0);
        vstd::arithmetic::div_mod::lemma_small_mod(0, P as nat);
        Fp::<P>::lemma_identities(x[0].spec_mul(one));
    }
}

/// The coefficients of `f` from monomial one on.
spec fn shifted_one<const P: u64>(f: spec_fn(nat) -> Fp<P>) -> spec_fn(nat) -> Fp<P> {
    crate::evaluation::shifted(f, pow2(0))
}

/// The checker of `s` takes the product of its characters' checker values.
pub proof fn lemma_checker_value<const P: u64>(s: Seq<char>, x: Seq<Fp<P>>)
    requires
        1 < P,
        1 <= s.len() <= x.len(),
        pow2(s.len()) <= usize::MAX,
        forall|i: int| 0 <= i < x.len() ==> (#[trigger] x[i]).value() < P,
    ensures
        terms_value(checker_terms::<P>(s), s.len(), x) == checker_product(s, x),
        checker_product(s, x).value() < P,
    decreases s.len(),
{
    let n = s.len();
    let c = s.last();
    Fp::<P>::lemma_sign_mul();
    if n == 1 {
        lemma_checker_base::<P>(c);
        assert(s =~= seq![c]);
        lemma_check_value(c, x);
        lemma2_to64();
        let e = Seq::<char>::empty();
        let one_coeff = crate::multilinear::coeff_or_zero(checker_terms::<P>(e), 0);
        assert(checker_terms::<P>(e).contains_key(0));
        assert(one_coeff == Fp::<P>::spec_one());
        let f = coeffs(check_terms::<P>(c));
        let g = coeffs(checker_terms::<P>(s));
        Fp::<P>::lemma_identities(Fp::<P>::spec_one());
        Fp::<P>::lemma_identities(Fp::<P>::spec_one().spec_neg());
        assert forall|k: nat| k < pow2(1) implies #[trigger] g(k) == f(k) by {
            if check_terms::<P>(c).contains_key(k as usize) {
                assert(check_terms::<P>(c)[k as usize] == Fp::<P>::spec_one() || check_terms::<P>(c)[k as usize]
                    == Fp::<P>::spec_one().spec_neg());
            }
        }
        lemma_value_ext(g, f, 1, x, x);
        assert(s.drop_last() =~= e);
        assert(checker_product(e, x) == Fp::<P>::spec_one());
        Fp::<P>::lemma_identities(check_value(c, x[0]));
        assert(checker_product(s, x) == checker_product(e, x).spec_mul(check_value(c, x[0])));
    } else {
        let pre = s.drop_last();
        lemma_pow2_le(pre.len(), n);
        lemma_checker_value(pre, x);
        lemma_checker_step::<P>(pre, c);
        assert(pre.push(c) =~= s);
        lemma_product_coeffs(checker_terms::<P>(pre), pre.len(), check_terms::<P>(c), 1);
        lemma_value_product(
            coeffs(checker_terms::<P>(pre)),
            pre.len(),
            coeffs(check_terms::<P>(c)),
            1,
            coeffs(checker_terms::<P>(s)),
            x,
        );
        let xs = x.skip(pre.len() as int);
        assert(xs[0] == x[n - 1]);
        lemma_check_value(c, xs);
        assert(checker_product(s, x) == checker_product(pre, x).spec_mul(check_value(c, x[n - 1])));
        Fp::<P>::lemma_ops_canonical(checker_product(pre, x), check_value(c, x[n - 1]));
    }
}

/// `x` spells `s`: coordinate `i` is one exactly where character `i` is `'1'`.
pub open spec fn spells<const P: u64>(x: Seq<Fp<P>>, s: Seq<char>) -> bool {
    forall|i: int| 0 <= i < s.len() ==> ((#[trigger] x[i] == Fp::<P>::spec_one()) <==> (s[i] == '1'))
}

/// Every coordinate of `x` is zero or one.
pub open spec fn boolean_point<const P: u64>(x: Seq<Fp<P>>) -> bool {
    forall|i: int| 0 <= i < x.len() ==> #[trigger] x[i] == Fp::<P>::spec_zero() || x[i] == Fp::<P>::spec_one()
}

/// On a boolean point the checker values multiply to one where the point
/// spells the string and to zero elsewhere.
proof fn lemma_checker_indicator<const P: u64>(s: Seq<char>, x: Seq<Fp<P>>)
    requires
        1 < P,
        s.len() <= x.len(),
        boolean_point(x),
    ensures
        checker_product(s, x) == if spells(x, s) {
            Fp::<P>::spec_one()
        } else {
            Fp::<P>::spec_zero()
        },
    decreases s.len(),
{
    let one = Fp::<P>::spec_one();
    let zero = Fp::<P>::spec_zero();
    lemma_times_zero(zero);
    Fp::<P>::lemma_identities(zero);
    Fp::<P>::lemma_sign_mul();
    if s.len() > 0 {
        let n = s.len();
        let pre = s.drop_last();
        lemma_checker_indicator(pre, x);
        let v = x[n - 1];
        let c = s.last();
        let cv = check_value(c, v);
        lemma_times_zero(one);
        assert(zero.spec_mul(one.spec_neg()) == zero) by {
            assert(zero.value() * one.spec_neg().value() == 0);
        }
        Fp::<P>::lemma_minus_zero(one, one);
        Fp::<P>::lemma_identities(one);
        assert(cv == if (v == one) == (c == '1') {
            one
        } else {
            zero
        });
        assert(spells(x, s) <==> spells(x, pre) && ((v == one) == (c == '1'))) by {
            if spells(x, pre) && ((v == one) == (c == '1')) {
                assert forall|i: int| 0 <= i < s.len() implies ((#[trigger] x[i] == one) <==> (s[i] == '1')) by {
                    if i < n - 1 {
                        assert(x[i] == one <==> pre[i] == '1');
                    }
                }
            }
            if spells(x, s) {
                assert forall|i: int| 0 <= i < pre.len() implies ((#[trigger] x[i] == one) <==> (pre[i] == '1')) by {
                    assert(x[i] == one <==> s[i] == '1');
                }
                assert(x[n - 1] == one <==> s[n - 1] == '1');
            }
        }
        lemma_times_zero(zero);
    Fp::<P>::lemma_identities(zero);
        assert(zero.spec_mul(zero) == zero);
        assert(one.spec_mul(zero) == zero) by {
            lemma_times_zero(one);
        }
    }
}

/// The checker of a bit string is one at the point of the hypercube that
/// spells the string and zero at every other point of the hypercube.
pub proof fn lemma_checker_is_indicator<const P: u64>(s: Seq<char>, x: Seq<Fp<P>>)
    requires
        1 < P,
        s.len() < usize::BITS,
        x.len() == s.len(),
        boolean_point(x),
    ensures
        point_value(checker_terms::<P>(s), s.len(), x) == if spells(x, s) {
            Fp::<P>::spec_one()
        } else {
            Fp::<P>::spec_zero()
        },
{
    let n = s.len();
    let m = checker_terms::<P>(s);
    let one = Fp::<P>::spec_one();
    let zero = Fp::<P>::spec_zero();
    Fp::<P>::lemma_sign_mul();
    lemma_times_zero(zero);
    Fp::<P>::lemma_identities(zero);
    lemma_checker_indicator(s, x);
    if n == 0 {
        lemma2_to64();
        assert(m.contains_key(0));
        assert(spells(x, s));
    } else {
        crate::evaluation::lemma_pow2_below_bits(n);
        assert forall|i: int| 0 <= i < x.len() implies (#[trigger] x[i]).value() < P by {
            assert(x[i] == zero || x[i] == one);
        }
        lemma_checker_value(s, x);
        assert forall|k: usize| #[trigger] m.contains_key(k) implies (k as nat) < pow2(n) && m[k].value() < P by {}
        // the checker has a term: it is one at the point spelling its string
        let z = Seq::new(n, |i: int| if s[i] == '1' { one } else { zero });
        assert(boolean_point(z));
        assert(spells(z, s));
        assert forall|i: int| 0 <= i < z.len() implies (#[trigger] z[i]).value() < P by {}
        lemma_checker_value(s, z);
        lemma_checker_indicator(s, z);
        if m.dom().is_empty() {
            assert forall|k: nat| k < pow2(n) implies #[trigger] coeffs(m)(k) == zero by {}
            lemma_value_zero(coeffs(m), n, z);
        }
        lemma_point_value(m, n, x);
    }
}

/// Digit `q` of the `n`-digit binary string of `i` is bit `n - 1 - q` of `i`.
pub proof fn lemma_padded_digit(i: nat, n: nat, q: int)
    requires
        i < pow2(n),
        0 <= q < n,
    ensures
        padded_binary(i, n).len() == n,
        padded_binary(i, n)[q] == digit_char(bit_of(i, (n - 1 - q) as nat)),
{
    lemma_bit_len_at_most(i, n);
    lemma_bit_len_bound(i);
    let len = bit_len(i);
    if q < n - len {
        lemma_high_bits_clear(i, (n - 1 - q) as nat);
    } else {
        lemma_binary_digits_index(i, q - (n - len));
    }
}

/// The `j`-th point of the hypercube spells the binary string of `i` exactly when `i` is `j`.
proof fn lemma_cube_point_spells<const P: u64>(i: nat, j: nat, n: nat)
    requires
        1 < P,
        0 < n,
        i < pow2(n),
        j < pow2(n),
    ensures
        boolean_point(cube_point::<P>(n, j)),
        spells(cube_point::<P>(n, j), padded_binary(i, n)) <==> i == j,
{
    let x = cube_point::<P>(n, j);
    let s = padded_binary(i, n);
    let one = Fp::<P>::spec_one();
    lemma_times_zero(Fp::<P>::spec_zero());
    Fp::<P>::lemma_identities(Fp::<P>::spec_zero());
    assert forall|q: int| 0 <= q < n implies ((#[trigger] x[q] == one) <==> (s[q] == '1')) == (bit_of(j, (n - 1 - q) as nat)
        == bit_of(i, (n - 1 - q) as nat)) by {
        lemma_padded_digit(i, n, q);
    }
    lemma_padded_digit(i, n, 0);
    if i == j {
        assert forall|q: int| 0 <= q < s.len() implies ((#[trigger] x[q] == one) <==> (s[q] == '1')) by {}
    }
    if spells(x, s) {
        assert(bits_of(i, n) =~= bits_of(j, n)) by {
            assert forall|t: int| 0 <= t < n implies bits_of(i, n)[t] == bits_of(j, n)[t] by {
                let q = n - 1 - t;
                assert(x[q] == one <==> s[q] == '1');
            }
        }
        lemma_bits_value(i, n);
        lemma_bits_value(j, n);
    }
}

/// The terms of an interpolation are below `2^n`, canonical, and there is one
/// once there is a value; at the `j`-th point of the hypercube the
/// interpolation of `vals` takes `vals[j]`, or zero past the values.
proof fn lemma_interpolation_value<const P: u64>(vals: Seq<Fp<P>>, n: nat, j: nat)
    requires
        1 < P,
        0 < n < usize::BITS,
        vals.len() <= pow2(n),
        j < pow2(n),
        forall|i: int| 0 <= i < vals.len() ==> (#[trigger] vals[i]).value() < P,
    ensures
        keys_below(interpolation_terms(vals, n), n),
        all_canonical(interpolation_terms(vals, n)),
        vals.len() > 0 ==> !interpolation_terms(vals, n).dom().is_empty(),
        terms_value(interpolation_terms(vals, n), n, cube_point::<P>(n, j)) == if j < vals.len() {
            vals[j as int]
        } else {
            Fp::<P>::spec_zero()
        },
    decreases vals.len(),
{
    let zero = Fp::<P>::spec_zero();
    let one = Fp::<P>::spec_one();
    let x = cube_point::<P>(n, j);
    let m = interpolation_terms(vals, n);
    crate::evaluation::lemma_pow2_below_bits(n);
    lemma_times_zero(zero);
    Fp::<P>::lemma_identities(zero);
    Fp::<P>::lemma_sign_mul();
    lemma_cube_point_spells::<P>(0, j, n);
    if vals.len() == 0 {
        assert forall|k: nat| k < pow2(n) implies #[trigger] coeffs(m)(k) == zero by {}
        lemma_value_zero(coeffs(m), n, x);
    } else {
        let k = (vals.len() - 1) as nat;
        let prev = vals.drop_last();
        let v = vals.last();
        let s = padded_binary(k, n);
        let c = checker_terms::<P>(s);
        let scaled = c.map_values(|t: Fp<P>| t.spec_mul(v));
        lemma_interpolation_value(prev, n, j);
        lemma_padded_digit(k, n, 0);
        assert forall|i: int| 0 <= i < x.len() implies (#[trigger] x[i]).value() < P by {
            assert(x[i] == zero || x[i] == one);
        }
        lemma_checker_value(s, x);
        lemma_checker_indicator(s, x);
        lemma_cube_point_spells::<P>(k, j, n);
        // the scaled checker's value
        assert forall|t: nat| t < pow2(n) implies #[trigger] coeffs(scaled)(t) == v.spec_mul(coeffs(c)(t)) by {
            if c.contains_key(t as usize) {
                Fp::<P>::lemma_commutative(c[t as usize], v);
            } else {
                lemma_times_zero(v);
            }
        }
        lemma_value_scale(coeffs(c), coeffs(scaled), v, n, x);
        crate::evaluation::lemma_add_terms_value(interpolation_terms(prev, n), scaled, n, x);
        lemma_times_zero(v);
        Fp::<P>::lemma_identities(v);
        if j < k {
            assert(vals[j as int] == prev[j as int]);
            Fp::<P>::lemma_identities(prev[j as int]);
        }
        // keys, canonical coefficients, a term
        assert forall|t: usize| #[trigger] m.contains_key(t) implies (t as nat) < pow2(n) && m[t].value() < P by {
            Fp::<P>::lemma_ops_canonical(
                crate::multilinear::coeff_or_zero(interpolation_terms(prev, n), t),
                crate::multilinear::coeff_or_zero(scaled, t),
            );
        }
        let z = Seq::new(n, |i: int| if s[i] == '1' { one } else { zero });
        assert(boolean_point(z));
        assert(spells(z, s));
        assert forall|i: int| 0 <= i < z.len() implies (#[trigger] z[i]).value() < P by {}
        lemma_checker_value(s, z);
        lemma_checker_indicator(s, z);
        if c.dom().is_empty() {
            assert forall|t: nat| t < pow2(n) implies #[trigger] coeffs(c)(t) == zero by {}
            lemma_value_zero(coeffs(c), n, z);
        }
        let t0 = c.dom().choose();
        assert(c.contains_key(t0));
        assert(m.contains_key(t0));
    }
}

/// Interpolation takes the given values: the interpolation of `values` in `n`
/// variables is `values[j]` at the `j`-th point of the hypercube (coordinate
/// `i` is the binary digit of `j` of weight `2^(n - 1 - i)`).
pub proof fn lemma_interpolation_hits<const P: u64>(values: Seq<Fp<P>>, n: nat, j: nat)
    requires
        1 < P,
        0 < n < usize::BITS,
        values.len() <= pow2(n),
        j < values.len(),
        forall|i: int| 0 <= i < values.len() ==> (#[trigger] values[i]).value() < P,
    ensures
        point_value(interpolation_terms(values, n), n, cube_point::<P>(n, j)) == values[j as int],
{
    lemma_interpolation_value(values, n, j);
    crate::evaluation::lemma_pow2_below_bits(n);
    lemma_point_value(interpolation_terms(values, n), n, cube_point::<P>(n, j));
}

/// The coefficients of a coefficient-wise sum are the sums of the coefficients.
proof fn lemma_sum_maps_coeffs<const P: u64>(a: Map<usize, Fp<P>>, b: Map<usize, Fp<P>>, n: nat)
    requires
        1 < P,
        all_canonical(a),
    ensures
        forall|k: nat| k < pow2(n) ==> #[trigger] coeffs(sum_maps(a, b))(k) == coeffs(a)(k).spec_add(coeffs(b)(k)),
{
    let zero = Fp::<P>::spec_zero();
    lemma_times_zero(zero);
    Fp::<P>::lemma_identities(zero);
    assert forall|k: nat| k < pow2(n) implies #[trigger] coeffs(sum_maps(a, b))(k) == coeffs(a)(k).spec_add(
        coeffs(b)(k),
    ) by {
        if k <= usize::MAX && a.contains_key(k as usize) {
            Fp::<P>::lemma_identities(a[k as usize]);
        }
    }
}

/// The polynomial a map of canonical terms below `2^n` stands for: evaluating
/// it is taking its value.
proof fn lemma_poly_value<const P: u64>(p: MultiLinearPolynomial<P>, xs: Seq<Fp<P>>)
    requires
        1 < P,
        p.wf(),
        p.num_vars() < usize::BITS,
        xs.len() == p.num_vars(),
        p.num_vars() == 0 || !p.terms().dom().is_empty(),
    ensures
        point_value(p.terms(), p.num_vars(), xs) == terms_value(p.terms(), p.num_vars(), xs),
{
    p.lemma_wf();
    crate::evaluation::lemma_pow2_below_bits(p.num_vars());
    lemma_point_value(p.terms(), p.num_vars(), xs);
}

/// The sum of two polynomials in the same variables evaluates to the sum of their values.
pub proof fn lemma_add_evaluates<const P: u64>(
    p: MultiLinearPolynomial<P>,
    q: MultiLinearPolynomial<P>,
    xs: Seq<Fp<P>>,
)
    requires
        1 < P,
        p.wf(),
        q.wf(),
        p.num_vars() == q.num_vars(),
        0 < p.num_vars() < usize::BITS,
        !p.terms().dom().is_empty(),
        !q.terms().dom().is_empty(),
        xs.len() == p.num_vars(),
    ensures
        p.sum_vars(q) == p.num_vars(),
        point_value(p.sum_terms(q), p.num_vars(), xs) == point_value(p.terms(), p.num_vars(), xs).spec_add(
            point_value(q.terms(), q.num_vars(), xs),
        ),
{
    let n = p.num_vars();
    let a = p.terms();
    let b = q.terms();
    p.lemma_wf();
    q.lemma_wf();
    crate::evaluation::lemma_pow2_below_bits(n);
    lemma_poly_value(p, xs);
    lemma_poly_value(q, xs);
    let s = p.sum_terms(q);
    let (x, y) = if a.len() > b.len() {
        (a, b)
    } else {
        (b, a)
    };
    assert(s == sum_maps(x, y));
    lemma_sum_maps_coeffs(x, y, n);
    crate::evaluation::lemma_value_add(coeffs(x), coeffs(y), coeffs(s), n, xs);
    Fp::<P>::lemma_commutative(terms_value(a, n, xs), terms_value(b, n, xs));
    assert forall|k: usize| #[trigger] s.contains_key(k) implies (k as nat) < pow2(n) && s[k].value() < P by {
        if y.contains_key(k) {
            Fp::<P>::lemma_ops_canonical(coeff_or_zero(x, k), y[k]);
        }
    }
    let k0 = a.dom().choose();
    assert(a.contains_key(k0));
    assert(s.contains_key(k0));
    lemma_point_value(s, n, xs);
}

/// Scaling a polynomial scales its values.
pub proof fn lemma_scale_evaluates<const P: u64>(p: MultiLinearPolynomial<P>, c: Fp<P>, xs: Seq<Fp<P>>)
    requires
        1 < P,
        p.wf(),
        p.num_vars() < usize::BITS,
        p.num_vars() == 0 || !p.terms().dom().is_empty(),
        c.value() < P,
        xs.len() == p.num_vars(),
    ensures
        point_value(p.terms().map_values(|t: Fp<P>| t.spec_mul(c)), p.num_vars(), xs) == c.spec_mul(
            point_value(p.terms(), p.num_vars(), xs),
        ),
{
    let n = p.num_vars();
    let a = p.terms();
    let s = a.map_values(|t: Fp<P>| t.spec_mul(c));
    p.lemma_wf();
    crate::evaluation::lemma_pow2_below_bits(n);
    lemma_poly_value(p, xs);
    lemma_times_zero(c);
    assert forall|k: nat| k < pow2(n) implies #[trigger] coeffs(s)(k) == c.spec_mul(coeffs(a)(k)) by {
        if k <= usize::MAX && a.contains_key(k as usize) {
            Fp::<P>::lemma_commutative(a[k as usize], c);
        }
    }
    lemma_value_scale(coeffs(a), coeffs(s), c, n, xs);
    assert forall|k: usize| #[trigger] s.contains_key(k) implies (k as nat) < pow2(n) && s[k].value() < P by {
        Fp::<P>::lemma_ops_canonical(a[k], c);
    }
    if n > 0 {
        let k0 = a.dom().choose();
        assert(a.contains_key(k0));
        assert(s.contains_key(k0));
    }
    lemma_point_value(s, n, xs);
}

/// The product of two polynomials over disjoint variables (those of `q`
/// after those of `p`) evaluates to the product of their values on the two
/// parts of the point.
pub proof fn lemma_mul_evaluates<const P: u64>(
    p: MultiLinearPolynomial<P>,
    q: MultiLinearPolynomial<P>,
    xs: Seq<Fp<P>>,
)
    requires
        1 < P,
        p.wf(),
        q.wf(),
        0 < p.num_vars(),
        0 < q.num_vars(),
        p.num_vars() + q.num_vars() < usize::BITS,
        !p.terms().dom().is_empty(),
        !q.terms().dom().is_empty(),
        !p.product(q).dom().is_empty(),
        xs.len() == p.num_vars() + q.num_vars(),
    ensures
        p.product_vars(q) == p.num_vars() + q.num_vars(),
        point_value(p.product(q), p.num_vars() + q.num_vars(), xs) == point_value(
            p.terms(),
            p.num_vars(),
            xs.subrange(0, p.num_vars() as int),
        ).spec_mul(point_value(q.terms(), q.num_vars(), xs.skip(p.num_vars() as int))),
{
    let na = p.num_vars();
    let nb = q.num_vars();
    let a = p.terms();
    let b = q.terms();
    let m = p.product(q);
    p.lemma_wf();
    q.lemma_wf();
    crate::evaluation::lemma_pow2_below_bits(na + nb);
    lemma_pow2_le(na, na + nb);
    lemma_pow2_le(nb, na + nb);
    lemma_poly_value(p, xs.subrange(0, na as int));
    lemma_poly_value(q, xs.skip(na as int));
    lemma_product_coeffs(a, na, b, nb);
    lemma_value_product(coeffs(a), na, coeffs(b), nb, coeffs(m), xs);
    lemma_value_ext(coeffs(a), coeffs(a), na, xs, xs.subrange(0, na as int));
    lemma_pow2_pos(na);
    lemma_pow2_adds(na, nb);
    assert forall|k: usize| #[trigger] m.contains_key(k) implies (k as nat) < pow2(na + nb) && m[k].value() < P by {
        let i = (k as nat % pow2(na)) as usize;
        let j = (k as nat / pow2(na)) as usize;
        Fp::<P>::lemma_ops_canonical(a[i], b[j]);
        assert((j as nat) < pow2(nb));
        vstd::arithmetic::div_mod::lemma_fundamental_div_mod(k as int, pow2(na) as int);
        vstd::arithmetic::div_mod::lemma_mod_bound(k as int, pow2(na) as int);
        assert((k as nat) < pow2(na) * pow2(nb)) by (nonlinear_arith)
            requires
                k == pow2(na) * j + k as nat % pow2(na),
                k as nat % pow2(na) < pow2(na),
                j + 1 <= pow2(nb),
        ;
    }
    lemma_point_value(m, na + nb, xs);
}

/// The point `y` with each assignment's value written at the variable its
/// selector selects; of two assignments to one variable the earlier counts.
pub open spec fn assigned_point<const P: u64>(y: Seq<Fp<P>>, s: Seq<(Seq<bool>, Fp<P>)>) -> Seq<Fp<P>>
    decreases s.len(),
{
    if s.len() == 0 {
        y
    } else {
        assigned_point(y.update(single_position(s.last().0) as int, s.last().1), s.drop_last())
    }
}

/// Substituting values for selected variables gives the value at the point
/// with those values written in.
pub proof fn lemma_substitute_value<const P: u64>(m: Map<usize, Fp<P>>, s: Seq<(Seq<bool>, Fp<P>)>, n: nat, y: Seq<Fp<P>>)
    requires
        1 < P,
        keys_below(m, n),
        all_canonical(m),
        pow2(n) <= usize::MAX,
        selectors_valid(s, n),
        y.len() == n,
    ensures
        keys_below(substitute(m, s), n),
        all_canonical(substitute(m, s)),
        !m.dom().is_empty() ==> !substitute(m, s).dom().is_empty(),
        assigned_point(y, s).len() == n,
        terms_value(substitute(m, s), n, y) == terms_value(m, n, assigned_point(y, s)),
    decreases s.len(),
{
    if s.len() > 0 {
        let last = s.last();
        let pos = single_position(last.0);
        let prev = s.drop_last();
        assert(selectors_valid(prev, n)) by {
            assert forall|i: int| 0 <= i < prev.len() implies crate::multilinear::valid_selector(#[trigger] prev[i].0, n) by {
                assert(prev[i] == s[i]);
            }
        }
        assert(crate::multilinear::valid_selector(s[s.len() - 1].0, n));
        lemma_single_selector(last.0);
        let y2 = y.update(pos as int, last.1);
        lemma_substitute_value(m, prev, n, y2);
        let f = substitute(m, prev);
        crate::evaluation::lemma_fix_variable_coeffs(f, pos, last.1, n);
        crate::evaluation::lemma_value_fix(coeffs(f), coeffs(fix_variable(f, pos, last.1)), pos, last.1, n, y);
        if !m.dom().is_empty() {
            let k0 = f.dom().choose();
            assert(f.contains_key(k0));
            if bit_of(k0 as nat, pos) {
                crate::evaluation::lemma_bit_clear_below(k0 as nat, pos);
                let k1 = (k0 - pow2(pos)) as usize;
                assert(crate::multilinear::has_partner(f, k1, pos));
                assert(fix_variable(f, pos, last.1).contains_key(k1));
            } else {
                assert(fix_variable(f, pos, last.1).contains_key(k0));
            }
        }
    }
}

/// Evaluating after a partial evaluation is evaluating at the point with the
/// assigned values written in (of two assignments to one variable the earlier counts).
pub proof fn lemma_partial_then_evaluate<const P: u64>(
    p: MultiLinearPolynomial<P>,
    assignments: Seq<(Vec<bool>, Fp<P>)>,
    xs: Seq<Fp<P>>,
)
    requires
        1 < P,
        p.wf(),
        0 < p.num_vars() < usize::BITS,
        !p.terms().dom().is_empty(),
        forall|i: int|
            0 <= i < assignments.len() ==> crate::multilinear::valid_selector(
                #[trigger] assignments[i].0@,
                p.num_vars(),
            ),
        xs.len() == p.num_vars(),
    ensures
        point_value(apply_assignments(p.terms(), assignments), p.num_vars(), xs) == point_value(
            p.terms(),
            p.num_vars(),
            assigned_point(xs, selector_views(assignments)),
        ),
{
    let n = p.num_vars();
    let s = selector_views(assignments);
    p.lemma_wf();
    crate::evaluation::lemma_pow2_below_bits(n);
    lemma_apply_views(p.terms(), assignments);
    assert(selectors_valid(s, n)) by {
        assert forall|i: int| 0 <= i < s.len() implies crate::multilinear::valid_selector(#[trigger] s[i].0, n) by {
            assert(s[i] == (assignments[i].0@, assignments[i].1));
        }
    }
    lemma_substitute_value(p.terms(), s, n, xs);
    lemma_point_value(substitute(p.terms(), s), n, xs);
    lemma_point_value(p.terms(), n, assigned_point(xs, s));
}

/// Terms in at most one variable and the univariate polynomial of their
/// constant and linear coefficients take the same value at `x`.
pub proof fn lemma_line_value<const P: u64>(m: Map<usize, Fp<P>>, c: nat, x: Fp<P>)
    requires
        1 < P,
        c <= 1,
        keys_below(m, c),
        all_canonical(m),
        x.value() < P,
    ensures
        horner(seq![coeff_or_zero(m, 0), coeff_or_zero(m, 1)], x) == terms_value(m, c, Seq::new(c, |j: int| x)),
{
    let zero = Fp::<P>::spec_zero();
    let c0 = coeff_or_zero(m, 0);
    let c1 = coeff_or_zero(m, 1);
    let cs = seq![c0, c1];
    lemma_times_zero(zero);
    Fp::<P>::lemma_identities(zero);
    lemma2_to64();
    assert(c0.value() < P);
    assert(c1.value() < P);
    assert(zero.spec_mul(x) == zero) by {
        assert(0 * x.value() == 0);
    }
    assert(horner(cs, x) == horner(cs.drop_first(), x).spec_mul(x).spec_add(c0));
    assert(cs.drop_first() =~= seq![c1]);
    assert(horner(seq![c1], x) == horner(seq![c1].drop_first(), x).spec_mul(x).spec_add(c1));
    assert(horner(seq![c1].drop_first(), x) == zero);
    Fp::<P>::lemma_identities(c1);
    let pt = Seq::new(c, |j: int| x);
    let f = coeffs(m);
    if c == 0 {
        assert(!m.contains_key(1));
        lemma_times_zero(x);
        Fp::<P>::lemma_identities(c0);
        assert(poly_value(f, 0, pt) == f(0));
    } else {
        assert(poly_value(f, 1, pt) == poly_value(f, 0, pt).spec_add(pt[0].spec_mul(poly_value(crate::evaluation::shifted(f, pow2(0)), 0, pt))));
        assert(poly_value(f, 0, pt) == f(0));
        assert(poly_value(crate::evaluation::shifted(f, pow2(0)), 0, pt) == f(1));
        Fp::<P>::lemma_commutative(c1, x);
        Fp::<P>::lemma_commutative(c1.spec_mul(x), c0);
    }
}

/// A multilinear polynomial in at most one variable and the univariate
/// polynomial of its constant and linear coefficients take the same values.
pub proof fn lemma_univariate_agrees<const P: u64>(p: MultiLinearPolynomial<P>, x: Fp<P>)
    requires
        1 < P,
        p.wf(),
        p.num_vars() <= 1,
        p.num_vars() == 0 || !p.terms().dom().is_empty(),
        x.value() < P,
    ensures
        horner(seq![coeff_or_zero(p.terms(), 0), coeff_or_zero(p.terms(), 1)], x) == point_value(
            p.terms(),
            p.num_vars(),
            seq![x].subrange(0, p.num_vars() as int),
        ),
{
    let m = p.terms();
    let n = p.num_vars();
    let zero = Fp::<P>::spec_zero();
    let c0 = coeff_or_zero(m, 0);
    let c1 = coeff_or_zero(m, 1);
    let cs = seq![c0, c1];
    p.lemma_wf();
    lemma_times_zero(zero);
    Fp::<P>::lemma_identities(zero);
    lemma2_to64();
    assert(c0.value() < P);
    assert(c1.value() < P);
    assert(zero.spec_mul(x) == zero) by {
        assert(0 * x.value() == 0);
    }
    assert(horner(cs, x) == horner(cs.drop_first(), x).spec_mul(x).spec_add(c0));
    assert(cs.drop_first() =~= seq![c1]);
    assert(horner(seq![c1], x) == horner(seq![c1].drop_first(), x).spec_mul(x).spec_add(c1));
    assert(horner(seq![c1].drop_first(), x) == zero);
    Fp::<P>::lemma_identities(c1);
    let pt = seq![x].subrange(0, n as int);
    if n == 0 {
        assert(!m.contains_key(1));
        lemma_times_zero(x);
        Fp::<P>::lemma_identities(c0);
    } else {
        crate::evaluation::lemma_pow2_below_bits(1);
        assert(pt =~= seq![x]);
        lemma_point_value(m, 1, pt);
        let f = coeffs(m);
        assert(poly_value(f, 1, pt) == poly_value(f, 0, pt).spec_add(pt[0].spec_mul(poly_value(crate::evaluation::shifted(f, pow2(0)), 0, pt))));
        assert(poly_value(f, 0, pt) == f(0));
        assert(poly_value(crate::evaluation::shifted(f, pow2(0)), 0, pt) == f(1));
        Fp::<P>::lemma_commutative(c1, x);
        Fp::<P>::lemma_commutative(c1.spec_mul(x), c0);
    }
}

} // verus!
