//! Why a sumcheck proof made honestly is accepted exactly when its claimed sum
//! is the true sum: each round polynomial, at `x`, sums the polynomial over the
//! points that start with the challenges so far and `x`.
use crate::bits::{bit_of, selector_value};
use crate::evaluation::{
    canonical_below, coeffs, later_present, lemma_add_terms_value, lemma_bit_shift, lemma_bit_top,
    lemma_fix_from_value, lemma_point_value, lemma_relabel_later, lemma_value_canonical, lemma_value_ext,
    lemma_value_fewer, substituted, terms_value,
};
use crate::field::Fp;
use crate::multilinear::{
    all_canonical, bits_of, coeff_or_zero, compress, count_true, kept_bits, keys_below,
    lemma_bits_value, lemma_fix_all_keys, presence_spec, relabelled_terms, MultiLinearPolynomial,
};
use crate::sumcheck::{
    cube_point, cube_sum, fix_from, honest_rounds, honest_rounds_from, hypercube_terms, lemma_fix_from_zero, point_value,
    prover_challenges, prover_state, round_terms, round_value, round_vars, sumcheck_accepts, verify_rounds,
    SumcheckProof,
};
use crate::field::be_encoding;
use vstd::arithmetic::power2::*;
use vstd::prelude::*;

verus! {

/// The sum of `f(t)` for `t` below `count`.
pub open spec fn range_sum<const P: u64>(f: spec_fn(nat) -> Fp<P>, count: nat) -> Fp<P>
    decreases count,
{
    if count == 0 {
        Fp::<P>::spec_zero()
    } else {
        range_sum(f, (count - 1) as nat).spec_add(f((count - 1) as nat))
    }
}

/// A range sum depends on the summands below the count only.
pub proof fn lemma_range_sum_ext<const P: u64>(f: spec_fn(nat) -> Fp<P>, g: spec_fn(nat) -> Fp<P>, count: nat)
    requires
        forall|t: nat| t < count ==> #[trigger] f(t) == g(t),
    ensures
        range_sum(f, count) == range_sum(g, count),
    decreases count,
{
    if count > 0 {
        lemma_range_sum_ext(f, g, (count - 1) as nat);
    }
}

/// A range sum is canonical.
pub proof fn lemma_range_sum_canonical<const P: u64>(f: spec_fn(nat) -> Fp<P>, count: nat)
    requires
        1 < P,
    ensures
        range_sum(f, count).value() < P,
{
    Fp::<P>::lemma_ops_canonical(Fp::<P>::spec_zero(), Fp::<P>::spec_zero());
    if count > 0 {
        Fp::<P>::lemma_ops_canonical(range_sum(f, (count - 1) as nat), f((count - 1) as nat));
    }
}

/// Summing below `a + b` is summing below `a`, then the next `b` summands.
pub proof fn lemma_range_sum_split<const P: u64>(f: spec_fn(nat) -> Fp<P>, a: nat, b: nat)
    requires
        1 < P,
    ensures
        range_sum(f, a + b) == range_sum(f, a).spec_add(range_sum(|t: nat| f(t + a), b)),
    decreases b,
{
    let g = |t: nat| f(t + a);
    if b == 0 {
        lemma_range_sum_canonical(f, a);
        Fp::<P>::lemma_identities(range_sum(f, a));
    } else {
        lemma_range_sum_split(f, a, (b - 1) as nat);
        assert(g((b - 1) as nat) == f((a + b - 1) as nat));
        Fp::<P>::lemma_add_associative(range_sum(f, a), range_sum(g, (b - 1) as nat), g((b - 1) as nat));
    }
}

/// The sum, over the points `b` of `{0, 1}^(n - prefix.len())`, of the value
/// of the polynomial (terms `m`, `n` variables) at `prefix ++ b`.
pub open spec fn tail_sum<const P: u64>(m: Map<usize, Fp<P>>, n: nat, prefix: Seq<Fp<P>>) -> Fp<P> {
    let d = (n - prefix.len()) as nat;
    range_sum(|t: nat| terms_value(m, n, prefix + cube_point::<P>(d, t)), pow2(d))
}

/// The points of `{0, 1}^(k + 1)` are those of `{0, 1}^k` after a zero, then after a one.
pub proof fn lemma_cube_point_split<const P: u64>(k: nat, t: nat)
    requires
        t < pow2(k),
    ensures
        cube_point::<P>(k + 1, t) =~= seq![Fp::<P>::spec_zero()] + cube_point::<P>(k, t),
        cube_point::<P>(k + 1, t + pow2(k)) =~= seq![Fp::<P>::spec_one()] + cube_point::<P>(k, t),
{
    lemma_bit_top(t, k);
    assert forall|i: int| 1 <= i < k + 1 implies #[trigger] cube_point::<P>(k + 1, t + pow2(k))[i]
        == cube_point::<P>(k, t)[i - 1] by {
        lemma_bit_shift(t, k, (k - i) as nat);
    }
}

/// The sum over the points after `prefix` splits on the next coordinate.
pub proof fn lemma_tail_sum_split<const P: u64>(m: Map<usize, Fp<P>>, n: nat, prefix: Seq<Fp<P>>)
    requires
        1 < P,
        prefix.len() < n,
    ensures
        tail_sum(m, n, prefix) == tail_sum(m, n, prefix.push(Fp::<P>::spec_zero())).spec_add(
            tail_sum(m, n, prefix.push(Fp::<P>::spec_one())),
        ),
{
    let d = (n - prefix.len()) as nat;
    let k = (d - 1) as nat;
    let f = |t: nat| terms_value(m, n, prefix + cube_point::<P>(d, t));
    let f0 = |t: nat| terms_value(m, n, prefix.push(Fp::<P>::spec_zero()) + cube_point::<P>(k, t));
    let f1 = |t: nat| terms_value(m, n, prefix.push(Fp::<P>::spec_one()) + cube_point::<P>(k, t));
    lemma_pow2_unfold(d);
    lemma_range_sum_split(f, pow2(k), pow2(k));
    assert forall|t: nat| t < pow2(k) implies #[trigger] f(t) == f0(t) by {
        lemma_cube_point_split::<P>(k, t);
        assert(prefix + cube_point::<P>(d, t) =~= prefix.push(Fp::<P>::spec_zero()) + cube_point::<P>(k, t));
    }
    lemma_range_sum_ext(f, f0, pow2(k));
    let g = |t: nat| f(t + pow2(k));
    assert forall|t: nat| t < pow2(k) implies #[trigger] g(t) == f1(t) by {
        lemma_cube_point_split::<P>(k, t);
        assert(prefix + cube_point::<P>(d, t + pow2(k)) =~= prefix.push(Fp::<P>::spec_one()) + cube_point::<P>(
            k,
            t,
        ));
    }
    lemma_range_sum_ext(g, f1, pow2(k));
}

/// Substituting from variable `first` on clears those variables' bits in every monomial.
pub proof fn lemma_fix_from_bits<const P: u64>(m: Map<usize, Fp<P>>, first: nat, vals: Seq<Fp<P>>)
    ensures
        forall|k: usize, q: nat|
            #![trigger fix_from(m, first, vals).contains_key(k), bit_of(k as nat, q)]
            fix_from(m, first, vals).contains_key(k) && first <= q < first + vals.len() ==> !bit_of(k as nat, q),
    decreases vals.len(),
{
    if vals.len() > 0 {
        let prev = vals.drop_last();
        let p = (first + vals.len() - 1) as nat;
        let f = fix_from(m, first, prev);
        lemma_fix_from_bits(m, first, prev);
        let r = fix_from(m, first, vals);
        assert forall|k: usize, q: nat|
            #![trigger r.contains_key(k), bit_of(k as nat, q)]
            r.contains_key(k) && first <= q < first + vals.len() implies !bit_of(k as nat, q) by {
            if q != p {
                if !f.contains_key(k) {
                    let k2 = (k + pow2(p)) as usize;
                    assert(f.contains_key(k2));
                    lemma_bit_shift(k as nat, p, q);
                    assert(!bit_of(k2 as nat, q));
                } else {
                    assert(!bit_of(k as nat, q));
                }
            }
        }
    }
}

/// A selector that selects nothing past position zero stands for zero or one.
proof fn lemma_selector_small(s: Seq<bool>)
    requires
        forall|i: int| 1 <= i < s.len() ==> !s[i],
    ensures
        selector_value(s) < 2,
    decreases s.len(),
{
    if s.len() > 0 {
        lemma_selector_small(s.drop_last());
        if s.len() == 1 {
            lemma2_to64();
        }
    }
}

/// A monomial index below `2^n` with the bits of variables `1..n` clear is zero or one.
pub proof fn lemma_small_key(k: nat, n: nat)
    requires
        k < pow2(n),
        forall|q: nat| 1 <= q < n ==> !#[trigger] bit_of(k, q),
    ensures
        k < 2,
{
    lemma_bits_value(k, n);
    assert forall|i: int| 1 <= i < bits_of(k, n).len() implies !bits_of(k, n)[i] by {
        assert(!bit_of(k, i as nat));
    }
    lemma_selector_small(bits_of(k, n));
}

/// The sum of the polynomial (terms `m`, `n` variables) over the first `count`
/// points of `{0, 1}^(n - 1)` for variables `1..n`, variable zero left free:
/// its monomials are the constant and variable zero, and its value at `y` sums
/// the values at `y` with the later coordinates replaced by each point.
pub proof fn lemma_hypercube_value<const P: u64>(m: Map<usize, Fp<P>>, n: nat, count: nat, y: Seq<Fp<P>>)
    requires
        1 < P,
        1 <= n,
        keys_below(m, n),
        all_canonical(m),
        pow2(n) <= usize::MAX,
        y.len() == n,
    ensures
        keys_below(hypercube_terms(m, n, count), n),
        all_canonical(hypercube_terms(m, n, count)),
        forall|k: usize| #[trigger] hypercube_terms(m, n, count).contains_key(k) ==> k < 2,
        terms_value(hypercube_terms(m, n, count), n, y) == range_sum(
            |t: nat| terms_value(m, n, substituted(y, 1, cube_point::<P>((n - 1) as nat, t))),
            count,
        ),
    decreases count,
{
    let h = hypercube_terms(m, n, count);
    if count == 0 {
        assert(h =~= Map::<usize, Fp<P>>::empty());
        crate::evaluation::lemma_times_zero(Fp::<P>::spec_zero());
        assert forall|k: nat| k < pow2(n) implies #[trigger] crate::evaluation::coeffs(h)(k) == Fp::<P>::spec_zero() by {}
        crate::evaluation::lemma_value_zero(crate::evaluation::coeffs(h), n, y);
    } else {
        let prev = hypercube_terms(m, n, (count - 1) as nat);
        let cp = cube_point::<P>((n - 1) as nat, (count - 1) as nat);
        let f = fix_from(m, 1, cp);
        lemma_hypercube_value(m, n, (count - 1) as nat, y);
        lemma_fix_from_value(m, 1, cp, n, y);
        lemma_fix_from_bits(m, 1, cp);
        assert forall|k: usize| #[trigger] f.contains_key(k) implies k < 2 by {
            assert forall|q: nat| 1 <= q < n implies !#[trigger] bit_of(k as nat, q) by {}
            lemma_small_key(k as nat, n);
        }
        lemma_add_terms_value(prev, f, n, y);
        assert forall|k: usize| #[trigger] h.contains_key(k) implies (k as nat) < pow2(n) && h[k].value() < P && k < 2 by {
            Fp::<P>::lemma_ops_canonical(
                crate::multilinear::coeff_or_zero(prev, k),
                crate::multilinear::coeff_or_zero(f, k),
            );
        }
    }
}

/// The bits kept by a presence vector that can mark variable zero only.
proof fn lemma_kept_first(k: nat, s: Seq<bool>)
    requires
        forall|i: int| 1 <= i < s.len() ==> !s[i],
    ensures
        kept_bits(k, s) == if s.len() > 0 && s[0] {
            seq![bit_of(k, 0)]
        } else {
            Seq::<bool>::empty()
        },
        count_true(s) == if s.len() > 0 && s[0] {
            1nat
        } else {
            0nat
        },
    decreases s.len(),
{
    if s.len() > 0 {
        lemma_kept_first(k, s.drop_last());
        if s.len() == 1 {
            assert(s.drop_last() =~= Seq::<bool>::empty());
            assert(kept_bits(k, Seq::<bool>::empty()) =~= Seq::<bool>::empty());
            assert(Seq::<bool>::empty().push(bit_of(k, 0)) =~= seq![bit_of(k, 0)]);
        }
    }
}

/// Terms on the constant and variable zero only are kept as they are by
/// removing unused variables, and a round polynomial with those terms takes
/// at `x` the value of the one-variable polynomial.
pub proof fn lemma_small_relabel<const P: u64>(
    h: Map<usize, Fp<P>>,
    n: nat,
    x: Fp<P>,
    p: MultiLinearPolynomial<P>,
)
    requires
        1 < P,
        1 <= n,
        all_canonical(h),
        forall|k: usize| #[trigger] h.contains_key(k) ==> k < 2,
        p.num_vars() == count_true(presence_spec(h, n)),
        p.terms() == relabelled_terms(h, presence_spec(h, n)),
    ensures
        p.terms() == h,
        round_value(p, x) == terms_value(h, 1, seq![x]),
{
    let pres = presence_spec(h, n);
    lemma2_to64();
    assert(bit_of(1, 0));
    assert(!bit_of(0, 0));
    assert forall|i: int| 1 <= i < pres.len() implies !pres[i] by {
        if pres[i] {
            let k = choose|k: usize| #[trigger] h.contains_key(k) && bit_of(k as nat, i as nat);
            lemma_pow2_strictly_increases(0, i as nat);
            vstd::arithmetic::div_mod::lemma_basic_div(k as int, pow2(i as nat) as int);
            assert((k as nat) / pow2(i as nat) == 0);
        }
    }
    assert(pres[0] <==> h.contains_key(1)) by {
        if pres[0] {
            let k = choose|k: usize| #[trigger] h.contains_key(k) && bit_of(k as nat, 0);
        }
    }
    assert forall|k: usize| #[trigger] h.contains_key(k) implies compress(k as nat, pres) == k by {
        lemma_kept_first(k as nat, pres);
        let b = bit_of(k as nat, 0);
        assert(seq![b].drop_last() =~= Seq::<bool>::empty());
        assert(selector_value(Seq::<bool>::empty()) == 0);
        assert(seq![b].last() == b);
        assert(selector_value(seq![b]) == selector_value(seq![b].drop_last()) + if b {
            pow2(0)
        } else {
            0
        });
        assert(pow2(0) == 1);
        if k == 1 {
            assert(b);
        } else {
            assert(k == 0);
            assert(!b);
        }
    }
    lemma_kept_first(0, pres);
    let t = relabelled_terms(h, pres);
    assert forall|xk: usize| #[trigger] t.contains_key(xk) <==> h.contains_key(xk) by {
        if h.contains_key(xk) {
            assert(compress(xk as nat, pres) == xk);
        }
    }
    assert forall|xk: usize| #[trigger] t.contains_key(xk) implies t[xk] == h[xk] by {
        let k = choose|k: usize| #[trigger] h.contains_key(k) && compress(k as nat, pres) == xk;
        assert(compress(k as nat, pres) == k);
    }
    assert(t =~= h);
    let f = crate::evaluation::coeffs(h);
    if h.contains_key(1) {
        assert(crate::multilinear::keys_below(h, 1));
        crate::evaluation::lemma_point_value(h, 1, seq![x]);
    } else {
        Fp::<P>::lemma_from_nat(0);
        vstd::arithmetic::div_mod::lemma_small_mod(0, P as nat);
        assert forall|k: nat| 0 < k < pow2(1) implies #[trigger] f(k) == Fp::<P>::spec_zero() by {}
        crate::evaluation::lemma_value_constant(f, 1, seq![x]);
    }
}

/// Canonical terms have canonical coefficients.
pub proof fn lemma_coeffs_canonical<const P: u64>(m: Map<usize, Fp<P>>, n: nat)
    requires
        1 < P,
        all_canonical(m),
    ensures
        canonical_below(coeffs(m), n),
{
    Fp::<P>::lemma_from_nat(0);
    vstd::arithmetic::div_mod::lemma_small_mod(0, P as nat);
    assert forall|k: nat| k < pow2(n) implies (#[trigger] coeffs(m)(k)).value() < P by {}
}

/// The round polynomial the prover sends after the challenges `cs` takes at
/// `x` the sum of the polynomial over the points that start with `cs` and `x`,
/// provided substituting `cs` leaves every later variable in some monomial.
pub proof fn lemma_round_value<const P: u64>(
    m: Map<usize, Fp<P>>,
    n: nat,
    cs: Seq<Fp<P>>,
    x: Fp<P>,
    p: MultiLinearPolynomial<P>,
)
    requires
        1 < P,
        keys_below(m, n),
        all_canonical(m),
        !m.dom().is_empty(),
        pow2(n) <= usize::MAX,
        cs.len() < n,
        presence_spec(fix_from(m, 0, cs), n) == later_present(cs.len(), n),
        p.num_vars() == round_vars(m, n, cs),
        p.terms() == round_terms(m, n, cs),
    ensures
        round_value(p, x) == tail_sum(m, n, cs.push(x)),
{
    let r = cs.len();
    let fixed = fix_from(m, 0, cs);
    let nm = (n - r) as nat;
    let pres = later_present(r, n);
    let mm = relabelled_terms(fixed, pres);
    let d = (nm - 1) as nat;
    let cx = cs.push(x);
    let f = |t: nat| terms_value(m, n, cx + cube_point::<P>(d, t));
    let y0 = cs + Seq::new(nm, |i: int| Fp::<P>::spec_zero());
    lemma_fix_from_value(m, 0, cs, n, y0);
    lemma_fix_from_zero(m, cs);
    lemma_fix_all_keys(m, cs, n);
    lemma_relabel_later(fixed, r, n, y0);
    lemma_coeffs_canonical(m, n);
    if nm < n {
        lemma_pow2_strictly_increases(nm, n);
    }
    // the renumbered terms are not empty
    let k0 = fixed.dom().choose();
    assert(fixed.contains_key(k0));
    let c0 = crate::multilinear::compress(k0 as nat, pres);
    crate::evaluation::lemma_compress_later(k0 as nat, r, n);
    crate::evaluation::lemma_pow2_le(nm, n);
    assert(mm.contains_key(c0 as usize));
    // each summand, read through the renumbering and the substitution
    assert forall|t: nat| #[trigger] f(t) == terms_value(mm, nm, seq![x] + cube_point::<P>(d, t)) by {
        let z = seq![x] + cube_point::<P>(d, t);
        let y = cs + z;
        lemma_fix_from_value(m, 0, cs, n, y);
        lemma_relabel_later(fixed, r, n, y);
        assert(y.skip(r as int) =~= z);
        assert(substituted(y, 0, cs) =~= y);
        assert(cx + cube_point::<P>(d, t) =~= y);
    }
    if nm == 1 {
        assert(cube_point::<P>(0, 0) =~= Seq::<Fp<P>>::empty());
        assert(seq![x] + cube_point::<P>(0, 0) =~= seq![x]);
        lemma_point_value(mm, 1, seq![x]);
        lemma_value_canonical(coeffs(m), n, cx + cube_point::<P>(d, 0));
        Fp::<P>::lemma_identities(f(0));
        lemma2_to64();
        assert(range_sum(f, 1) == range_sum(f, 0).spec_add(f(0)));
    } else {
        let h = hypercube_terms(mm, nm, pow2(d));
        let yh = seq![x] + Seq::new(d, |i: int| Fp::<P>::spec_zero());
        crate::evaluation::lemma_pow2_le(nm, n);
        lemma_hypercube_value(mm, nm, pow2(d), yh);
        lemma_small_relabel(h, nm, x, p);
        lemma_coeffs_canonical(h, nm);
        lemma_pow2_strictly_increases(1, nm);
        assert forall|k: nat| pow2(1) <= k < pow2(nm) implies #[trigger] coeffs(h)(k) == Fp::<P>::spec_zero() by {
            lemma2_to64();
        }
        lemma_value_fewer(coeffs(h), 1, nm, yh);
        lemma_value_ext(coeffs(h), coeffs(h), 1, yh, seq![x]);
        let g = |t: nat| terms_value(mm, nm, substituted(yh, 1, cube_point::<P>(d, t)));
        assert forall|t: nat| t < pow2(d) implies #[trigger] g(t) == f(t) by {
            assert(substituted(yh, 1, cube_point::<P>(d, t)) =~= seq![x] + cube_point::<P>(d, t));
        }
        lemma_range_sum_ext(g, f, pow2(d));
    }
}

/// The challenges of the first `k` rounds are those of any later round, cut at `k`.
proof fn lemma_challenges_prefix<const P: u64>(m: Map<usize, Fp<P>>, n: nat, st: Seq<u8>, k: nat, j: nat)
    requires
        k <= j,
    ensures
        prover_challenges(m, n, st, j).len() == j,
        prover_challenges(m, n, st, k) == prover_challenges(m, n, st, j).subrange(0, k as int),
    decreases j,
{
    if j > 0 {
        lemma_challenges_prefix(m, n, st, if k < j {
            k
        } else {
            (j - 1) as nat
        }, (j - 1) as nat);
        let prev = prover_challenges(m, n, st, (j - 1) as nat);
        let cur = prover_challenges(m, n, st, j);
        assert(cur.subrange(0, j - 1) =~= prev);
        if k < j {
            assert(cur.subrange(0, k as int) =~= prev.subrange(0, k as int));
        } else {
            assert(cur.subrange(0, j as int) =~= cur);
        }
    }
}

/// Each later variable stays: substituting the first `r` of the challenges
/// `cs`, for each round `r`, leaves each of the variables `r..n` in some monomial.
pub open spec fn later_variables_kept<const P: u64>(m: Map<usize, Fp<P>>, n: nat, cs: Seq<Fp<P>>) -> bool {
    forall|r: int, i: int|
        0 <= r <= i < n ==> #[trigger] presence_spec(fix_from(m, 0, cs.subrange(0, r)), n)[i]
}

/// A multiple of `2^r` has its bits below `r` clear.
proof fn lemma_low_bit_clear(k: nat, r: nat, i: nat)
    requires
        k % pow2(r) == 0,
        i < r,
    ensures
        !bit_of(k, i),
{
    let e = (r - i) as nat;
    lemma_pow2_adds(i, e);
    lemma_pow2_pos(i);
    lemma_pow2_pos(r);
    lemma_pow2_unfold(e);
    lemma_pow2_pos((e - 1) as nat);
    let q = k / pow2(r);
    vstd::arithmetic::div_mod::lemma_fundamental_div_mod(k as int, pow2(r) as int);
    assert(k == pow2(r) * q);
    let a = pow2(i);
    let b = pow2(e);
    let c = pow2((e - 1) as nat);
    assert(pow2(r) * q == a * (b * q)) by (nonlinear_arith)
        requires
            pow2(r) == a * b,
    ;
    vstd::arithmetic::div_mod::lemma_div_multiples_vanish((b * q) as int, a as int);
    assert(b * q == (c * q) * 2) by (nonlinear_arith)
        requires
            b == 2 * c,
    ;
    vstd::arithmetic::div_mod::lemma_mod_multiples_basic((c * q) as int, 2);
}

/// Under `later_variables_kept`, the presence vector in round `r` is exactly
/// the later variables.
proof fn lemma_presence_round<const P: u64>(m: Map<usize, Fp<P>>, n: nat, cs: Seq<Fp<P>>, r: nat)
    requires
        keys_below(m, n),
        !m.dom().is_empty(),
        r < n,
        r <= cs.len(),
        later_variables_kept(m, n, cs),
    ensures
        presence_spec(fix_from(m, 0, cs.subrange(0, r as int)), n) == later_present(r, n),
{
    let pre = cs.subrange(0, r as int);
    let fixed = fix_from(m, 0, pre);
    lemma_fix_from_zero(m, pre);
    lemma_fix_all_keys(m, pre, n);
    let pres = presence_spec(fixed, n);
    assert forall|i: int| 0 <= i < n implies #[trigger] pres[i] == later_present(r, n)[i] by {
        if i < r {
            if pres[i] {
                let k = choose|k: usize| #[trigger] fixed.contains_key(k) && bit_of(k as nat, i as nat);
                lemma_low_bit_clear(k as nat, r, i as nat);
            }
        } else {
            assert(presence_spec(fix_from(m, 0, cs.subrange(0, r as int)), n)[i]);
        }
    }
    assert(pres =~= later_present(r, n));
}

/// Along an honest proof, the verifier's rounds from round `i` on accept the
/// claim `tail_sum` of round `i`, draw the prover's challenges, and end with
/// the polynomial's value at all of them.
proof fn lemma_honest_verify<const P: u64>(
    m: Map<usize, Fp<P>>,
    n: nat,
    st: Seq<u8>,
    polys: Seq<MultiLinearPolynomial<P>>,
    i: nat,
)
    requires
        1 < P,
        keys_below(m, n),
        all_canonical(m),
        !m.dom().is_empty(),
        pow2(n) <= usize::MAX,
        i <= n,
        polys.len() == n,
        forall|j: int|
            0 <= j < n ==> (#[trigger] polys[j]).num_vars() == round_vars(
                m,
                n,
                prover_challenges(m, n, st, n).subrange(0, j),
            ) && polys[j].terms() == round_terms(m, n, prover_challenges(m, n, st, n).subrange(0, j)),
        later_variables_kept(m, n, prover_challenges(m, n, st, n)),
    ensures
        verify_rounds(
            prover_state(m, n, st, i),
            tail_sum(m, n, prover_challenges(m, n, st, n).subrange(0, i as int)),
            polys.subrange(i as int, n as int),
        ) == Some((tail_sum(m, n, prover_challenges(m, n, st, n)), prover_challenges(m, n, st, n).subrange(i as int, n as int))),
    decreases n - i,
{
    let cs = prover_challenges(m, n, st, n);
    lemma_challenges_prefix(m, n, st, n, n);
    if i == n {
        assert(cs.subrange(0, n as int) =~= cs);
        assert(polys.subrange(n as int, n as int) =~= Seq::<MultiLinearPolynomial<P>>::empty());
        assert(cs.subrange(n as int, n as int) =~= Seq::<Fp<P>>::empty());
    } else {
        let pre = cs.subrange(0, i as int);
        let rest = polys.subrange(i as int, n as int);
        let p = rest[0];
        assert(p == polys[i as int]);
        lemma_presence_round(m, n, cs, i);
        lemma_round_value(m, n, pre, Fp::<P>::spec_zero(), p);
        lemma_round_value(m, n, pre, Fp::<P>::spec_one(), p);
        lemma_tail_sum_split(m, n, pre);
        // the verifier's transcript follows the prover's
        lemma_challenges_prefix(m, n, st, i, n);
        lemma_challenges_prefix(m, n, st, i + 1, n);
        let h = crate::transcript::keccak256(prover_state(m, n, st, i) + p.encoding());
        assert(h == prover_state(m, n, st, i + 1));
        let c = crate::transcript::challenge_element::<P>(h);
        assert(prover_challenges(m, n, st, i + 1) == prover_challenges(m, n, st, i).push(c));
        assert(cs.subrange(0, (i + 1) as int) =~= pre.push(c));
        lemma_round_value(m, n, pre, c, p);
        lemma_honest_verify(m, n, st, polys, i + 1);
        assert(rest.drop_first() =~= polys.subrange((i + 1) as int, n as int));
        assert(seq![c] + cs.subrange((i + 1) as int, n as int) =~= cs.subrange(i as int, n as int));
    }
}

/// The sum over the hypercube, as the points' values that `evaluate` computes.
proof fn lemma_cube_sum<const P: u64>(m: Map<usize, Fp<P>>, n: nat, count: nat)
    requires
        1 < P,
        keys_below(m, n),
        all_canonical(m),
        pow2(n) <= usize::MAX,
        n == 0 || !m.dom().is_empty(),
    ensures
        cube_sum(m, n, count) == range_sum(
            |t: nat| terms_value(m, n, Seq::<Fp<P>>::empty() + cube_point::<P>(n, t)),
            count,
        ),
    decreases count,
{
    if count > 0 {
        lemma_cube_sum(m, n, (count - 1) as nat);
        let t = (count - 1) as nat;
        assert(Seq::<Fp<P>>::empty() + cube_point::<P>(n, t) =~= cube_point::<P>(n, t));
        lemma_point_value(m, n, cube_point::<P>(n, t));
    }
}

/// Along an honest proof from transcript state `st`, the verifier's rounds
/// reject a wrong claimed sum and, for the true sum, end with the polynomial's
/// value at the prover's challenges, drawing those challenges.
pub proof fn lemma_honest_rounds_verify<const P: u64>(
    m: Map<usize, Fp<P>>,
    n: nat,
    st: Seq<u8>,
    s: Fp<P>,
    polys: Seq<MultiLinearPolynomial<P>>,
)
    requires
        1 < P,
        keys_below(m, n),
        all_canonical(m),
        0 < n < usize::BITS,
        !m.dom().is_empty(),
        honest_rounds_from(m, n, st, polys),
        later_variables_kept(m, n, prover_challenges(m, n, st, n)),
    ensures
        verify_rounds(st, s, polys) == if s == cube_sum(m, n, pow2(n)) {
            Some((point_value(m, n, prover_challenges(m, n, st, n)), prover_challenges(m, n, st, n)))
        } else {
            None
        },
{
    let cs = prover_challenges(m, n, st, n);
    crate::evaluation::lemma_pow2_below_bits(n);
    lemma_cube_sum(m, n, pow2(n));
    assert(Seq::<Fp<P>>::empty() =~= cs.subrange(0, 0));
    lemma_challenges_prefix(m, n, st, n, n);
    assert(polys.subrange(0, n as int) =~= polys);
    assert(cs.subrange(0, n as int) =~= cs);
    if s == tail_sum(m, n, Seq::<Fp<P>>::empty()) {
        lemma_honest_verify(m, n, st, polys, 0);
        lemma_point_value(m, n, cs);
        assert(cube_point::<P>(0, 0) =~= Seq::<Fp<P>>::empty());
        assert(cs + cube_point::<P>(0, 0) =~= cs);
        lemma_coeffs_canonical(m, n);
        crate::evaluation::lemma_value_canonical(coeffs(m), n, cs);
        Fp::<P>::lemma_identities(terms_value(m, n, cs));
        lemma2_to64();
        let f1 = |t: nat| terms_value(m, n, cs + cube_point::<P>(0, t));
        assert(tail_sum(m, n, cs) == range_sum(f1, 1));
        assert(range_sum(f1, 0) == Fp::<P>::spec_zero());
        assert(range_sum(f1, 1) == Fp::<P>::spec_zero().spec_add(f1(0)));
    } else {
        let p = polys[0];
        lemma_presence_round(m, n, cs, 0);
        lemma_round_value(m, n, Seq::<Fp<P>>::empty(), Fp::<P>::spec_zero(), p);
        lemma_round_value(m, n, Seq::<Fp<P>>::empty(), Fp::<P>::spec_one(), p);
        lemma_tail_sum_split(m, n, Seq::<Fp<P>>::empty());
    }
}

/// A partial sumcheck proof made by `prove_partial` passes `verify_partial`'s
/// rounds exactly when its claimed sum is the sum of the polynomial over the
/// boolean hypercube, and then what is left to check is the polynomial's value
/// at the prover's challenges; provided that substituting the prover's
/// challenges never makes a later variable drop out of every monomial.
pub proof fn lemma_partial_sumcheck_complete<const P: u64>(
    poly: MultiLinearPolynomial<P>,
    sum: Fp<P>,
    rounds: Seq<MultiLinearPolynomial<P>>,
)
    requires
        1 < P,
        poly.wf(),
        0 < poly.num_vars() < usize::BITS,
        !poly.terms().dom().is_empty(),
        honest_rounds_from(poly.terms(), poly.num_vars(), be_encoding(sum.value(), 8), rounds),
        later_variables_kept(
            poly.terms(),
            poly.num_vars(),
            prover_challenges(poly.terms(), poly.num_vars(), be_encoding(sum.value(), 8), poly.num_vars()),
        ),
    ensures
        verify_rounds(be_encoding(sum.value(), 8), sum, rounds) == if sum == cube_sum(
            poly.terms(),
            poly.num_vars(),
            pow2(poly.num_vars()),
        ) {
            Some(
                (
                    point_value(
                        poly.terms(),
                        poly.num_vars(),
                        prover_challenges(poly.terms(), poly.num_vars(), be_encoding(sum.value(), 8), poly.num_vars()),
                    ),
                    prover_challenges(poly.terms(), poly.num_vars(), be_encoding(sum.value(), 8), poly.num_vars()),
                ),
            )
        } else {
            None
        },
{
    poly.lemma_wf();
    lemma_honest_rounds_verify(poly.terms(), poly.num_vars(), be_encoding(sum.value(), 8), sum, rounds);
}

/// A sumcheck proof made by `prove` for a polynomial and a claimed sum is
/// accepted by `verify` exactly when the claimed sum is the sum of the
/// polynomial over the boolean hypercube, provided that substituting the
/// prover's challenges never makes a later variable drop out of every monomial.
pub proof fn lemma_sumcheck_complete<const P: u64>(proof: SumcheckProof<P>)
    requires
        1 < P,
        proof.poly_spec().wf(),
        proof.poly_spec().num_vars() < usize::BITS,
        proof.poly_spec().num_vars() == 0 || !proof.poly_spec().terms().dom().is_empty(),
        honest_rounds(proof.poly_spec(), proof.sum_spec(), proof.rounds()),
        later_variables_kept(
            proof.poly_spec().terms(),
            proof.poly_spec().num_vars(),
            prover_challenges(
                proof.poly_spec().terms(),
                proof.poly_spec().num_vars(),
                proof.poly_spec().encoding() + be_encoding(proof.sum_spec().value(), 8),
                proof.poly_spec().num_vars(),
            ),
        ),
    ensures
        sumcheck_accepts(proof) <==> proof.sum_spec() == cube_sum(
            proof.poly_spec().terms(),
            proof.poly_spec().num_vars(),
            pow2(proof.poly_spec().num_vars()),
        ),
{
    let poly = proof.poly_spec();
    let m = poly.terms();
    let n = poly.num_vars();
    let s = proof.sum_spec();
    let st = poly.encoding() + be_encoding(s.value(), 8);
    let cs = prover_challenges(m, n, st, n);
    let polys = proof.rounds();
    poly.lemma_wf();
    crate::evaluation::lemma_pow2_below_bits(n);
    lemma_cube_sum(m, n, pow2(n));
    assert(Seq::<Fp<P>>::empty() =~= cs.subrange(0, 0));
    if n == 0 {
        lemma2_to64();
        assert(cube_point::<P>(0, 0) =~= Seq::<Fp<P>>::empty());
        assert(Seq::<Fp<P>>::empty() + cube_point::<P>(0, 0) =~= Seq::<Fp<P>>::empty());
        lemma_coeffs_canonical(m, 0);
        crate::evaluation::lemma_value_canonical(coeffs(m), 0, Seq::<Fp<P>>::empty());
        Fp::<P>::lemma_identities(terms_value(m, 0, Seq::<Fp<P>>::empty()));
        assert(polys =~= Seq::<MultiLinearPolynomial<P>>::empty());
        let f0 = |t: nat| terms_value(m, n, Seq::<Fp<P>>::empty() + cube_point::<P>(n, t));
        assert(range_sum(f0, 0) == Fp::<P>::spec_zero());
        assert(range_sum(f0, 1) == Fp::<P>::spec_zero().spec_add(f0(0)));
        assert(f0(0) == terms_value(m, 0, Seq::<Fp<P>>::empty()));
    } else {
        lemma_honest_rounds_verify(m, n, st, s, polys);
        lemma_challenges_prefix(m, n, st, n, n);
    }
}

} // verus!
