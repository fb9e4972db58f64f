//! Relabelling removes the variables that occur in no monomial and renumbers
//! the others in order; the relabelled polynomial takes, at the coordinates of
//! the kept variables, the value the polynomial took at the whole point.
use crate::bits::{bit_of, lemma_selector_value_lt, selector_value};
use crate::evaluation::{
    canonical_below, coeffs, lemma_bit_shift, lemma_bit_top, lemma_point_value, lemma_pow2_le, lemma_value_ext,
    lemma_value_fewer, poly_value, shifted, terms_value,
};
use crate::field::Fp;
use crate::multilinear::{
    all_canonical, compress, count_true, kept_bits, keys_below, lemma_bit_of_mod, lemma_count_true_le,
    lemma_kept_bits_len, presence_spec, relabelled_terms, MultiLinearPolynomial,
};
use crate::sumcheck::point_value;
use vstd::arithmetic::div_mod::*;
use vstd::arithmetic::power2::*;
use vstd::prelude::*;

verus! {

/// The coordinates of `y` at the positions `pres` marks, in order.
pub open spec fn kept_point<const P: u64>(y: Seq<Fp<P>>, pres: Seq<bool>) -> Seq<Fp<P>>
    decreases pres.len(),
{
    if pres.len() == 0 {
        Seq::empty()
    } else if pres.last() {
        kept_point(y, pres.drop_last()).push(y[pres.len() - 1])
    } else {
        kept_point(y, pres.drop_last())
    }
}

/// The monomial whose bits at the positions `pres` marks are, in order, the
/// bits of `x`, all its other bits clear (the inverse of `compress`).
pub open spec fn expand(x: nat, pres: Seq<bool>) -> nat
    decreases pres.len(),
{
    if pres.len() == 0 {
        0
    } else {
        let c = count_true(pres.drop_last());
        if pres.last() {
            expand(x % pow2(c), pres.drop_last()) + if bit_of(x, c) {
                pow2((pres.len() - 1) as nat)
            } else {
                0
            }
        } else {
            expand(x, pres.drop_last())
        }
    }
}

/// Monomial `k` holds only variables that `pres` marks.
pub open spec fn admissible(k: nat, pres: Seq<bool>) -> bool {
    forall|i: nat| i < pres.len() && #[trigger] bit_of(k, i) ==> pres[i as int]
}

/// The kept coordinates, one per marked position.
proof fn lemma_kept_point_len<const P: u64>(y: Seq<Fp<P>>, pres: Seq<bool>)
    ensures
        kept_point(y, pres).len() == count_true(pres),
    decreases pres.len(),
{
    if pres.len() > 0 {
        lemma_kept_point_len(y, pres.drop_last());
    }
}

/// The kept bits depend on the bits below the presence vector's length only.
proof fn lemma_kept_bits_low(k1: nat, k2: nat, pres: Seq<bool>)
    requires
        forall|i: nat| i < pres.len() ==> #[trigger] bit_of(k1, i) == bit_of(k2, i),
    ensures
        kept_bits(k1, pres) == kept_bits(k2, pres),
    decreases pres.len(),
{
    if pres.len() > 0 {
        lemma_kept_bits_low(k1, k2, pres.drop_last());
        assert(bit_of(k1, (pres.len() - 1) as nat) == bit_of(k2, (pres.len() - 1) as nat));
    }
}

/// A number below `2^(c + 1)` is its remainder below `2^c` plus its bit `c` times `2^c`.
proof fn lemma_top_split(x: nat, c: nat)
    requires
        x < pow2(c + 1),
    ensures
        x == x % pow2(c) + if bit_of(x, c) {
            pow2(c)
        } else {
            0
        },
        x % pow2(c) < pow2(c),
{
    lemma_pow2_pos(c);
    lemma_pow2_unfold(c + 1);
    lemma_fundamental_div_mod(x as int, pow2(c) as int);
    lemma_mod_bound(x as int, pow2(c) as int);
    let q = x / pow2(c);
    assert(q < 2) by {
        if q >= 2 {
            vstd::arithmetic::mul::lemma_mul_inequality(2, q as int, pow2(c) as int);
            vstd::arithmetic::mul::lemma_mul_is_commutative(pow2(c) as int, q as int);
        }
    }
    if q == 1 {
        vstd::arithmetic::mul::lemma_mul_basics(pow2(c) as int);
    } else {
        vstd::arithmetic::mul::lemma_mul_basics(pow2(c) as int);
    }
}

/// The compressed index of `k` once its top variable is split off.
proof fn lemma_compress_top(k: nat, pres: Seq<bool>)
    requires
        pres.len() > 0,
    ensures
        compress(k, pres) == compress(k % pow2((pres.len() - 1) as nat), pres.drop_last()) + if pres.last() && bit_of(
            k,
            (pres.len() - 1) as nat,
        ) {
            pow2(count_true(pres.drop_last()))
        } else {
            0
        },
        compress(k % pow2((pres.len() - 1) as nat), pres.drop_last()) < pow2(count_true(pres.drop_last())),
{
    let h = (pres.len() - 1) as nat;
    let pre = pres.drop_last();
    let low = k % pow2(h);
    assert forall|i: nat| i < pre.len() implies #[trigger] bit_of(k, i) == bit_of(low, i) by {
        lemma_bit_of_mod(k, h, i);
    }
    lemma_kept_bits_low(k, low, pre);
    lemma_kept_bits_len(k, pre);
    lemma_selector_value_lt(kept_bits(low, pre));
    lemma_kept_bits_len(low, pre);
    if pres.last() {
        let s = kept_bits(k, pre);
        let b = bit_of(k, h);
        assert(s.push(b).drop_last() =~= s);
        assert(selector_value(s.push(b)) == selector_value(s) + if b {
            pow2(s.len())
        } else {
            0
        });
    }
}

/// An expanded index lies below `2^n`, holds only marked variables, and
/// compresses back to the index.
pub proof fn lemma_expand(x: nat, pres: Seq<bool>)
    requires
        x < pow2(count_true(pres)),
    ensures
        expand(x, pres) < pow2(pres.len()),
        admissible(expand(x, pres), pres),
        compress(expand(x, pres), pres) == x,
    decreases pres.len(),
{
    lemma2_to64();
    if pres.len() == 0 {
        assert(x == 0);
        assert(kept_bits(0, pres) =~= Seq::<bool>::empty());
    } else {
        let n = pres.len();
        let h = (n - 1) as nat;
        let pre = pres.drop_last();
        let c = count_true(pre);
        lemma_pow2_unfold(n);
        lemma_pow2_pos(h);
        if pres.last() {
            lemma_top_split(x, c);
            let xl = x % pow2(c);
            let b = bit_of(x, c);
            lemma_expand(xl, pre);
            let el = expand(xl, pre);
            let e = expand(x, pres);
            lemma_bit_top(el, h);
            // bits below h are those of el
            assert forall|i: nat| i < pre.len() implies #[trigger] bit_of(e, i) == bit_of(el, i) by {
                if b {
                    lemma_bit_shift(el, h, i);
                }
            }
            assert(bit_of(e, h) == b);
            assert(admissible(e, pres)) by {
                assert forall|i: nat| i < pres.len() && #[trigger] bit_of(e, i) implies pres[i as int] by {
                    if i < h {
                        assert(bit_of(el, i));
                        assert(pre[i as int] == pres[i as int]);
                    }
                }
            }
            lemma_compress_top(e, pres);
            assert forall|i: nat| i < pre.len() implies #[trigger] bit_of(e % pow2(h), i) == bit_of(el, i) by {
                lemma_bit_of_mod(e, h, i);
            }
            lemma_kept_bits_low(e % pow2(h), el, pre);
        } else {
            lemma_expand(x, pre);
            let e = expand(x, pres);
            lemma_bit_top(e, h);
            assert(admissible(e, pres)) by {
                assert forall|i: nat| i < pres.len() && #[trigger] bit_of(e, i) implies pres[i as int] by {
                    assert(pre[i as int] == pres[i as int]);
                }
            }
            lemma_compress_top(e, pres);
            lemma_small_mod(e, pow2(h));
        }
    }
}

/// An admissible index below `2^n` is the expansion of its compression.
pub proof fn lemma_expand_compress(k: nat, pres: Seq<bool>)
    requires
        k < pow2(pres.len()),
        admissible(k, pres),
    ensures
        compress(k, pres) < pow2(count_true(pres)),
        expand(compress(k, pres), pres) == k,
    decreases pres.len(),
{
    lemma2_to64();
    lemma_kept_bits_len(k, pres);
    lemma_selector_value_lt(kept_bits(k, pres));
    if pres.len() == 0 {
        assert(k == 0);
    } else {
        let n = pres.len();
        let h = (n - 1) as nat;
        let pre = pres.drop_last();
        let c = count_true(pre);
        let kl = k % pow2(h);
        lemma_pow2_unfold(n);
        lemma_top_split(k, h);
        lemma_compress_top(k, pres);
        assert(admissible(kl, pre)) by {
            assert forall|i: nat| i < pre.len() && #[trigger] bit_of(kl, i) implies pre[i as int] by {
                lemma_bit_of_mod(k, h, i);
                assert(bit_of(k, i));
                assert(pres[i as int]);
            }
        }
        lemma_expand_compress(kl, pre);
        let x = compress(k, pres);
        let xl = compress(kl, pre);
        if pres.last() {
            let b = bit_of(k, h);
            lemma_pow2_pos(c);
            if b {
                lemma_mod_add_multiples_vanish(xl as int, pow2(c) as int);
                lemma_small_mod(xl, pow2(c));
                lemma_bit_top(xl, c);
            } else {
                lemma_small_mod(xl, pow2(c));
                lemma_bit_top(xl, c);
            }
        } else {
            assert(!bit_of(k, h));
            lemma_small_mod(k, pow2(h));
        }
    }
}

/// The value of the polynomial with coefficients `f` (only admissible
/// monomials) is the value of its renumbered coefficients `g` at the kept coordinates.
pub proof fn lemma_value_relabel<const P: u64>(
    f: spec_fn(nat) -> Fp<P>,
    g: spec_fn(nat) -> Fp<P>,
    pres: Seq<bool>,
    y: Seq<Fp<P>>,
)
    requires
        1 < P,
        pres.len() <= y.len(),
        canonical_below(f, pres.len()),
        forall|k: nat| k < pow2(pres.len()) && !admissible(k, pres) ==> #[trigger] f(k) == Fp::<P>::spec_zero(),
        forall|x: nat| x < pow2(count_true(pres)) ==> #[trigger] g(x) == f(expand(x, pres)),
    ensures
        poly_value(f, pres.len(), y) == poly_value(g, count_true(pres), kept_point(y, pres)),
    decreases pres.len(),
{
    lemma2_to64();
    if pres.len() > 0 {
        let n = pres.len();
        let h = (n - 1) as nat;
        let pre = pres.drop_last();
        let c = count_true(pre);
        let z = kept_point(y, pres);
        let zl = kept_point(y, pre);
        lemma_pow2_unfold(n);
        lemma_pow2_pos(h);
        lemma_pow2_pos(c);
        lemma_kept_point_len(y, pre);
        assert forall|k: nat| k < pow2(h) implies (#[trigger] f(k)).value() < P by {}
        assert forall|k: nat| k < pow2(h) && !admissible(k, pre) implies #[trigger] f(k) == Fp::<P>::spec_zero() by {
            let i = choose|i: nat| i < pre.len() && #[trigger] bit_of(k, i) && !pre[i as int];
            assert(bit_of(k, i) && !pres[i as int]);
        }
        if pres.last() {
            lemma_pow2_unfold(c + 1);
            assert forall|x: nat| x < pow2(c) implies #[trigger] g(x) == f(expand(x, pre)) by {
                lemma_small_mod(x, pow2(c));
                lemma_bit_top(x, c);
            }
            lemma_value_relabel(f, g, pre, y);
            let sf = shifted(f, pow2(h));
            let sg = shifted(g, pow2(c));
            assert forall|k: nat| k < pow2(h) implies (#[trigger] sf(k)).value() < P by {}
            assert forall|k: nat| k < pow2(h) && !admissible(k, pre) implies #[trigger] sf(k) == Fp::<P>::spec_zero() by {
                let i = choose|i: nat| i < pre.len() && #[trigger] bit_of(k, i) && !pre[i as int];
                lemma_bit_shift(k, h, i);
                assert(bit_of(k + pow2(h), i) && !pres[i as int]);
            }
            assert forall|x: nat| x < pow2(c) implies #[trigger] sg(x) == sf(expand(x, pre)) by {
                lemma_mod_add_multiples_vanish(x as int, pow2(c) as int);
                lemma_small_mod(x, pow2(c));
                lemma_bit_top(x, c);
            }
            lemma_value_relabel(sf, sg, pre, y);
            assert(z =~= zl.push(y[h as int]));
            lemma_value_ext(g, g, c, zl, z);
            lemma_value_ext(sg, sg, c, zl, z);
        } else {
            assert forall|k: nat| pow2(h) <= k < pow2(n) implies #[trigger] f(k) == Fp::<P>::spec_zero() by {
                lemma_top_split(k, h);
                assert(bit_of(k, h));
                assert(!admissible(k, pres));
            }
            lemma_value_fewer(f, h, n, y);
            assert forall|x: nat| x < pow2(c) implies #[trigger] g(x) == f(expand(x, pre)) by {}
            lemma_value_relabel(f, g, pre, y);
        }
    }
}

/// The renumbered terms of a polynomial: coefficient `x` is the coefficient
/// of the monomial `x` expands to.
proof fn lemma_relabelled_coeffs<const P: u64>(m: Map<usize, Fp<P>>, n: nat)
    requires
        1 < P,
        keys_below(m, n),
        all_canonical(m),
        pow2(n) <= usize::MAX,
    ensures
        forall|x: nat|
            x < pow2(count_true(presence_spec(m, n))) ==> #[trigger] coeffs(
                relabelled_terms(m, presence_spec(m, n)),
            )(x) == coeffs(m)(expand(x, presence_spec(m, n))),
        forall|k: usize| #[trigger] m.contains_key(k) ==> admissible(k as nat, presence_spec(m, n)),
        keys_below(relabelled_terms(m, presence_spec(m, n)), count_true(presence_spec(m, n))),
        all_canonical(relabelled_terms(m, presence_spec(m, n))),
{
    let pres = presence_spec(m, n);
    let r = relabelled_terms(m, pres);
    let c = count_true(pres);
    lemma_count_true_le(pres);
    lemma_pow2_le(c, n);
    assert forall|k: usize| #[trigger] m.contains_key(k) implies admissible(k as nat, pres) by {
        assert forall|i: nat| i < pres.len() && #[trigger] bit_of(k as nat, i) implies pres[i as int] by {
            assert(m.contains_key(k) && bit_of(k as nat, i));
        }
    }
    assert forall|xk: usize| #[trigger] r.contains_key(xk) implies (xk as nat) < pow2(c) && r[xk].value() < P by {
        let k = choose|k: usize| #[trigger] m.contains_key(k) && compress(k as nat, pres) == xk;
        lemma_expand_compress(k as nat, pres);
    }
    assert forall|x: nat| x < pow2(c) implies #[trigger] coeffs(r)(x) == coeffs(m)(expand(x, pres)) by {
        lemma_expand(x, pres);
        let e = expand(x, pres);
        let xu = x as usize;
        if m.contains_key(e as usize) {
            assert(r.contains_key(xu));
        }
        if r.contains_key(xu) {
            let k = choose|k: usize| #[trigger] m.contains_key(k) && compress(k as nat, pres) == xu;
            lemma_expand_compress(k as nat, pres);
            assert(k == e);
        }
    }
}

/// Relabelling keeps the values of a model: the relabelled terms at the
/// coordinates of the variables that occur take the value the terms take at
/// the whole point.
pub proof fn lemma_relabel_value<const P: u64>(m: Map<usize, Fp<P>>, n: nat, y: Seq<Fp<P>>)
    requires
        1 < P,
        keys_below(m, n),
        all_canonical(m),
        n < usize::BITS,
        y.len() == n,
    ensures
        keys_below(relabelled_terms(m, presence_spec(m, n)), count_true(presence_spec(m, n))),
        all_canonical(relabelled_terms(m, presence_spec(m, n))),
        terms_value(
            relabelled_terms(m, presence_spec(m, n)),
            count_true(presence_spec(m, n)),
            kept_point(y, presence_spec(m, n)),
        ) == terms_value(m, n, y),
{
    let pres = presence_spec(m, n);
    let r = relabelled_terms(m, pres);
    let c = count_true(pres);
    crate::evaluation::lemma_pow2_below_bits(n);
    lemma_count_true_le(pres);
    lemma_pow2_le(c, n);
    lemma_relabelled_coeffs(m, n);
    crate::completeness::lemma_coeffs_canonical(m, n);
    assert forall|k: nat| k < pow2(n) && !admissible(k, pres) implies #[trigger] coeffs(m)(k) == Fp::<P>::spec_zero() by {}
    lemma_value_relabel(coeffs(m), coeffs(r), pres, y);
}

/// Keeping coordinates of a point whose coordinates are all `x` leaves a
/// point whose coordinates are all `x`.
pub proof fn lemma_kept_constant<const P: u64>(x: Fp<P>, n: nat, pres: Seq<bool>)
    requires
        pres.len() == n,
    ensures
        kept_point(Seq::new(n, |j: int| x), pres) == Seq::new(count_true(pres), |j: int| x),
    decreases pres.len(),
{
    if pres.len() > 0 {
        let h = (n - 1) as nat;
        lemma_kept_constant(x, h, pres.drop_last());
        lemma_kept_point_len(Seq::new(n, |j: int| x), pres.drop_last());
        lemma_kept_prefix(Seq::new(n, |j: int| x), Seq::new(h, |j: int| x), pres.drop_last());
        assert(kept_point(Seq::new(n, |j: int| x), pres) =~= Seq::new(count_true(pres), |j: int| x));
    }
}

/// Kept coordinates depend on the coordinates below the presence vector's length only.
proof fn lemma_kept_prefix<const P: u64>(y: Seq<Fp<P>>, z: Seq<Fp<P>>, pres: Seq<bool>)
    requires
        pres.len() <= y.len(),
        pres.len() <= z.len(),
        forall|i: int| 0 <= i < pres.len() ==> y[i] == z[i],
    ensures
        kept_point(y, pres) == kept_point(z, pres),
    decreases pres.len(),
{
    if pres.len() > 0 {
        lemma_kept_prefix(y, z, pres.drop_last());
    }
}

/// Relabelling keeps the values: the relabelled polynomial at the coordinates
/// of the variables that occur takes the value the polynomial takes at the
/// whole point.
pub proof fn lemma_relabel_evaluates<const P: u64>(p: MultiLinearPolynomial<P>, y: Seq<Fp<P>>)
    requires
        1 < P,
        p.wf(),
        0 < p.num_vars() < usize::BITS,
        !p.terms().dom().is_empty(),
        y.len() == p.num_vars(),
    ensures
        point_value(
            relabelled_terms(p.terms(), presence_spec(p.terms(), p.num_vars())),
            count_true(presence_spec(p.terms(), p.num_vars())),
            kept_point(y, presence_spec(p.terms(), p.num_vars())),
        ) == point_value(p.terms(), p.num_vars(), y),
{
    let m = p.terms();
    let n = p.num_vars();
    let pres = presence_spec(m, n);
    let r = relabelled_terms(m, pres);
    let c = count_true(pres);
    p.lemma_wf();
    crate::evaluation::lemma_pow2_below_bits(n);
    lemma_count_true_le(pres);
    lemma_pow2_le(c, n);
    lemma_relabel_value(m, n, y);
    lemma_relabelled_coeffs(m, n);
    lemma_kept_point_len(y, pres);
    lemma_point_value(m, n, y);
    let k0 = m.dom().choose();
    assert(m.contains_key(k0));
    assert(r.contains_key(compress(k0 as nat, pres) as usize)) by {
        lemma_expand_compress(k0 as nat, pres);
    }
    lemma_point_value(r, c, kept_point(y, pres));
}

} // verus!
