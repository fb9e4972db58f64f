//! What partial evaluation does to the values of a gate-evaluation extension:
//! each assignment reaches the wiring polynomials after the output label, the
//! `b` polynomial when it selects one of `b`'s variables, the `c` polynomial
//! otherwise, and the extension's value is its value at the point with the
//! assigned values written in.
use crate::evaluation::{coeffs, lemma_point_value, terms_value};
use crate::field::Fp;
use crate::gate_eval_extension::{
    b_share, c_share, fixed_at, line, mle_evaluates, mle_value, model_wf, padded, partial_model, r_selectors,
    relabel_model, selects_before, GateEvalExtension,
};
use crate::bits::single_selector;
use crate::multilinear::{lemma_single_selector_position, presence_spec};
use crate::multilinear_values::lemma_line_value;
use crate::relabelling::{lemma_kept_constant, lemma_relabel_value};
use crate::univariate::{poly_add, poly_mul, horner, lemma_horner_add, lemma_horner_mul, lemma_poly_add_canonical, lemma_poly_mul_canonical, canonical_coeffs};
use crate::multilinear::{count_true, lemma_single_selector, selectors_valid, single_position, substitute, valid_selector};
use crate::multilinear_values::{assigned_point, lemma_substitute_value};
use vstd::prelude::*;

verus! {

/// The selected position of a valid selector, and of that selector shifted,
/// cut, or with its first positions dropped.
proof fn lemma_position_moves(sel: Seq<bool>, n: nat, k: nat)
    requires
        valid_selector(sel, n),
    ensures
        single_position(sel) < n,
        sel[single_position(sel) as int],
        single_position(Seq::new(k, |j: int| false) + sel) == k + single_position(sel),
        k <= n ==> (selects_before(sel, k) <==> single_position(sel) < k),
        single_position(sel) < k <= n ==> single_position(sel.subrange(0, k as int)) == single_position(sel),
        k <= single_position(sel) ==> single_position(sel.subrange(k as int, sel.len() as int)) == single_position(
            sel,
        ) - k,
{
    lemma_single_selector(sel);
    let p = single_position(sel);
    let pad = Seq::new(k, |j: int| false) + sel;
    assert(pad[(k + p) as int]);
    let q = single_position(pad);
    assert(q < pad.len() && pad[q as int]);
    if q < k {
        assert(!pad[q as int]);
    }
    assert(sel[q - k] == pad[q as int]);
    if selects_before(sel, k) && k <= n {
        let j = choose|j: int| 0 <= j < k && sel[j];
        if j != p {
            assert(!sel[j]);
        }
    }
    if p < k {
        assert(sel[p as int]);
    }
    if p < k <= n {
        let cut = sel.subrange(0, k as int);
        assert(cut[p as int]);
        let q2 = single_position(cut);
        assert(cut[q2 as int] == sel[q2 as int]);
    }
    if k <= p {
        let rest = sel.subrange(k as int, sel.len() as int);
        assert(rest[(p - k) as int]);
        let q3 = single_position(rest);
        assert(rest[q3 as int] == sel[(q3 + k) as int]);
    }
}

/// Writing padded assignments into `r ++ y` writes the assignments into `y`.
proof fn lemma_padded_point<const P: u64>(r: Seq<Fp<P>>, y: Seq<Fp<P>>, s: Seq<(Seq<bool>, Fp<P>)>)
    requires
        selectors_valid(s, y.len()),
    ensures
        assigned_point(r + y, padded(s, r.len())) == r + assigned_point(y, s),
    decreases s.len(),
{
    if s.len() > 0 {
        let last = s.last();
        let prev = s.drop_last();
        let pos = single_position(last.0);
        assert(valid_selector(s[s.len() - 1].0, y.len()));
        lemma_position_moves(last.0, y.len(), r.len());
        assert(padded(s, r.len()).drop_last() =~= padded(prev, r.len()));
        assert(padded(s, r.len()).last() == (Seq::new(r.len(), |j: int| false) + last.0, last.1));
        assert(selectors_valid(prev, y.len())) by {
            assert forall|i: int| 0 <= i < prev.len() implies valid_selector(#[trigger] prev[i].0, y.len()) by {
                assert(prev[i] == s[i]);
            }
        }
        let y2 = y.update(pos as int, last.1);
        assert((r + y).update((r.len() + pos) as int, last.1) =~= r + y2);
        lemma_padded_point(r, y2, prev);
    }
}

/// The assignments aimed at `b` write, into the first `k` coordinates, what
/// all the assignments write there.
proof fn lemma_b_share_point<const P: u64>(y: Seq<Fp<P>>, s: Seq<(Seq<bool>, Fp<P>)>, k: nat)
    requires
        k <= y.len(),
        selectors_valid(s, y.len()),
    ensures
        assigned_point(y.subrange(0, k as int), b_share(s, k)) == assigned_point(y, s).subrange(0, k as int),
    decreases s.len(),
{
    if s.len() > 0 {
        let last = s.last();
        let prev = s.drop_last();
        let pos = single_position(last.0);
        assert(valid_selector(s[s.len() - 1].0, y.len()));
        lemma_position_moves(last.0, y.len(), k);
        assert(selectors_valid(prev, y.len())) by {
            assert forall|i: int| 0 <= i < prev.len() implies valid_selector(#[trigger] prev[i].0, y.len()) by {
                assert(prev[i] == s[i]);
            }
        }
        let y2 = y.update(pos as int, last.1);
        lemma_b_share_point(y2, prev, k);
        assert(assigned_point(y, s) == assigned_point(y2, prev));
        let bs = b_share(s, k);
        if pos < k {
            let cut = last.0.subrange(0, k as int);
            assert(bs == b_share(prev, k).push((cut, last.1)));
            assert(bs.drop_last() =~= b_share(prev, k));
            assert(bs.last() == (cut, last.1));
            assert(single_position(cut) == pos);
            assert(y2.subrange(0, k as int) =~= y.subrange(0, k as int).update(pos as int, last.1));
            assert(assigned_point(y.subrange(0, k as int), bs) == assigned_point(
                y.subrange(0, k as int).update(pos as int, last.1),
                b_share(prev, k),
            ));
        } else {
            assert(bs == b_share(prev, k));
            assert(y2.subrange(0, k as int) =~= y.subrange(0, k as int));
        }
    }
}

/// The assignments aimed at `c` write, into the coordinates from `k` on, what
/// all the assignments write there.
proof fn lemma_c_share_point<const P: u64>(y: Seq<Fp<P>>, s: Seq<(Seq<bool>, Fp<P>)>, k: nat)
    requires
        k <= y.len(),
        selectors_valid(s, y.len()),
    ensures
        assigned_point(y.subrange(k as int, y.len() as int), c_share(s, k)) == assigned_point(y, s).subrange(
            k as int,
            y.len() as int,
        ),
        assigned_point(y, s).len() == y.len(),
    decreases s.len(),
{
    if s.len() > 0 {
        let last = s.last();
        let prev = s.drop_last();
        let pos = single_position(last.0);
        assert(valid_selector(s[s.len() - 1].0, y.len()));
        lemma_position_moves(last.0, y.len(), k);
        assert(selectors_valid(prev, y.len())) by {
            assert forall|i: int| 0 <= i < prev.len() implies valid_selector(#[trigger] prev[i].0, y.len()) by {
                assert(prev[i] == s[i]);
            }
        }
        let y2 = y.update(pos as int, last.1);
        lemma_c_share_point(y2, prev, k);
        assert(assigned_point(y, s) == assigned_point(y2, prev));
        let cs = c_share(s, k);
        let tail = y.subrange(k as int, y.len() as int);
        if pos < k {
            assert(cs == c_share(prev, k));
            assert(y2.subrange(k as int, y.len() as int) =~= tail);
        } else {
            let rest = last.0.subrange(k as int, last.0.len() as int);
            assert(cs == c_share(prev, k).push((rest, last.1)));
            assert(cs.drop_last() =~= c_share(prev, k));
            assert(cs.last() == (rest, last.1));
            assert(single_position(rest) == pos - k);
            assert(y2.subrange(k as int, y.len() as int) =~= tail.update(pos - k, last.1));
            assert(assigned_point(tail, cs) == assigned_point(tail.update(pos - k, last.1), c_share(prev, k)));
        }
    }
}

/// What `evaluate` gives for a polynomial model is its value.
proof fn lemma_mle_value<const P: u64>(p: (nat, Map<usize, Fp<P>>), xs: Seq<Fp<P>>)
    requires
        1 < P,
        model_wf(p),
        mle_evaluates(p, xs),
    ensures
        mle_value(p, xs) == terms_value(p.1, p.0, xs),
{
    if p.0 > 0 {
        crate::evaluation::lemma_pow2_below_bits(p.0);
        lemma_point_value(p.1, p.0, xs);
    }
}

/// Partially evaluating a polynomial model and evaluating at `y` is
/// evaluating it at `y` with the assigned values written in.
proof fn lemma_partial_model_value<const P: u64>(
    p: (nat, Map<usize, Fp<P>>),
    s: Seq<(Seq<bool>, Fp<P>)>,
    y: Seq<Fp<P>>,
)
    requires
        1 < P,
        model_wf(p),
        selectors_valid(s, p.0),
        mle_evaluates(p, y),
    ensures
        model_wf(partial_model(p, s)),
        mle_evaluates(partial_model(p, s), y),
        mle_value(partial_model(p, s), y) == mle_value(p, assigned_point(y, s)),
{
    if s.len() == 0 {
        assert(substitute(p.1, s) == p.1);
        assert(assigned_point(y, s) == y);
    } else {
        assert(valid_selector(s[0].0, p.0));
        if p.0 == 0 {
            assert(s[0].0 =~= Seq::<bool>::empty());
            assert(count_true(s[0].0) == 0);
        }
        crate::evaluation::lemma_pow2_below_bits(p.0);
        lemma_substitute_value(p.1, s, p.0, y);
        lemma_mle_value(partial_model(p, s), y);
        lemma_mle_value(p, assigned_point(y, s));
    }
}

/// The parts of a partially evaluated extension take, at `xs`, the values the
/// extension's parts take at the point with the assigned values written in.
proof fn lemma_part_value<const P: u64>(
    e: GateEvalExtension<P>,
    s: Seq<(Seq<bool>, Fp<P>)>,
    g: GateEvalExtension<P>,
    xs: Seq<Fp<P>>,
    i: int,
)
    requires
        1 < P,
        e.wf(),
        0 <= i < e.parts(),
        e.part_accepts(i, s),
        e.partial_result(s, g),
        selectors_valid(s, e.vars()),
        xs.len() == e.vars(),
        e.wbs()[i].0 == e.b_count(),
        e.wcs()[i].0 == e.c_count(),
        e.evaluation_defined(xs),
    ensures
        g.part_value(i, xs) == e.part_value(i, assigned_point(xs, s)),
{
    let r = e.point();
    let b = e.b_count();
    let ax = assigned_point(xs, s);
    assert(model_wf(e.adds()[i]));
    assert(g.part(i) == e.part_after(i, s));
    lemma_c_share_point(xs, s, b);
    lemma_b_share_point(xs, s, b);
    lemma_padded_point(r, xs, s);
    let mid = e.wbs()[i].0 as int;
    assert(mle_evaluates(e.wbs()[i], xs.subrange(0, mid)));
    lemma_partial_model_value(e.adds()[i], padded(s, r.len()), r + xs);
    lemma_partial_model_value(e.muls()[i], padded(s, r.len()), r + xs);
    lemma_partial_model_value(e.wbs()[i], b_share(s, b), xs.subrange(0, mid));
    lemma_partial_model_value(e.wcs()[i], c_share(s, b), xs.subrange(mid, xs.len() as int));
    assert(g.wbs()[i].0 == mid);
}

/// Evaluating a partially evaluated extension is evaluating the extension at
/// the point with the assigned values written in (of two assignments to one
/// variable the earlier counts).
pub proof fn lemma_partial_evaluate_value<const P: u64>(
    e: GateEvalExtension<P>,
    s: Seq<(Seq<bool>, Fp<P>)>,
    g: GateEvalExtension<P>,
    xs: Seq<Fp<P>>,
)
    requires
        1 < P,
        e.wf(),
        e.partial_succeeds(s),
        e.partial_result(s, g),
        selectors_valid(s, e.vars()),
        xs.len() == e.vars(),
        forall|i: int| 0 <= i < e.parts() ==> (#[trigger] e.wbs()[i]).0 == e.b_count() && e.wcs()[i].0 == e.c_count(),
        e.evaluation_defined(xs),
    ensures
        g.value_at(xs) == e.value_at(assigned_point(xs, s)),
{
    lemma_value_upto(e, s, g, xs, e.parts());
}

/// The sums of the first `k` parts agree.
proof fn lemma_value_upto<const P: u64>(
    e: GateEvalExtension<P>,
    s: Seq<(Seq<bool>, Fp<P>)>,
    g: GateEvalExtension<P>,
    xs: Seq<Fp<P>>,
    k: nat,
)
    requires
        1 < P,
        e.wf(),
        k <= e.parts(),
        e.partial_succeeds(s),
        e.partial_result(s, g),
        selectors_valid(s, e.vars()),
        xs.len() == e.vars(),
        forall|i: int| 0 <= i < e.parts() ==> (#[trigger] e.wbs()[i]).0 == e.b_count() && e.wcs()[i].0 == e.c_count(),
        e.evaluation_defined(xs),
    ensures
        g.value_upto(xs, k) == e.value_upto(assigned_point(xs, s), k),
    decreases k,
{
    if k > 0 {
        lemma_value_upto(e, s, g, xs, (k - 1) as nat);
        let i = k - 1;
        assert(e.part_accepts(i, s));
        assert(e.wbs()[i].0 == e.b_count() && e.wcs()[i].0 == e.c_count());
        lemma_part_value(e, s, g, xs, i);
    }
}

/// Writing the first `k` output-label values into a point overwrites its first `k` coordinates.
proof fn lemma_assigned_prefix<const P: u64>(r: Seq<Fp<P>>, y: Seq<Fp<P>>, k: nat)
    requires
        k <= r.len(),
        y.len() == r.len() + 1,
    ensures
        assigned_point(y, r_selectors(r).take(k as int)) == Seq::new(
            y.len(),
            |j: int|
                if j < k {
                    r[j]
                } else {
                    y[j]
                },
        ),
    decreases k,
{
    let n = (r.len() + 1) as nat;
    let s = r_selectors(r).take(k as int);
    if k == 0 {
        assert(s.len() == 0);
        assert(assigned_point(y, s) =~= Seq::new(y.len(), |j: int| if j < k { r[j] } else { y[j] }));
    } else {
        let h = (k - 1) as nat;
        assert(s.drop_last() =~= r_selectors(r).take(h as int));
        assert(s.last() == (single_selector(n, h), r[h as int]));
        lemma_single_selector_position(n, h);
        let y2 = y.update(h as int, r[h as int]);
        lemma_assigned_prefix(r, y2, h);
        assert(assigned_point(y, s) =~= Seq::new(y.len(), |j: int| if j < k { r[j] } else { y[j] }));
    }
}

/// Writing the output label into a point of one more coordinate leaves its last coordinate.
proof fn lemma_assigned_r<const P: u64>(r: Seq<Fp<P>>, y: Seq<Fp<P>>)
    requires
        y.len() == r.len() + 1,
    ensures
        assigned_point(y, r_selectors(r)) == r + seq![y[r.len() as int]],
{
    lemma_assigned_prefix(r, y, r.len());
    assert(r_selectors(r).take(r.len() as int) =~= r_selectors(r));
    assert(assigned_point(y, r_selectors(r)) =~= r + seq![y[r.len() as int]]);
}

/// The constant and linear coefficients of canonical terms are canonical.
proof fn lemma_line_canonical<const P: u64>(m: Map<usize, Fp<P>>)
    requires
        1 < P,
        crate::multilinear::all_canonical(m),
    ensures
        canonical_coeffs(line(m)),
{
    Fp::<P>::lemma_ops_canonical(Fp::<P>::spec_zero(), Fp::<P>::spec_zero());
    assert(line(m)[0] == crate::multilinear::coeff_or_zero(m, 0));
    assert(line(m)[1] == crate::multilinear::coeff_or_zero(m, 1));
}

/// A wiring polynomial with the output label fixed and relabelled, as a
/// line, takes at `x` the value the polynomial takes at `r ++ [x]`.
proof fn lemma_fixed_value<const P: u64>(p: (nat, Map<usize, Fp<P>>), r: Seq<Fp<P>>, x: Fp<P>)
    requires
        1 < P,
        model_wf(p),
        p.0 < usize::BITS,
        selectors_valid(r_selectors(r), p.0),
        mle_evaluates(p, r + seq![x]),
        fixed_at(p, r).0 <= 1,
        x.value() < P,
    ensures
        horner(line(fixed_at(p, r).1), x) == mle_value(p, r + seq![x]),
        canonical_coeffs(line(fixed_at(p, r).1)),
{
    let m = p.1;
    let n = p.0;
    let rs = r_selectors(r);
    if n == 0 {
        if r.len() > 0 {
            assert(valid_selector(rs[0].0, 0));
            assert(rs[0].0.len() == r.len() + 1);
        }
        assert(rs.len() == 0);
        assert(substitute(m, rs) == m);
        lemma_line_value(m, 0, x);
        assert(crate::evaluation::coeffs(m)(0) == crate::multilinear::coeff_or_zero(m, 0));
        assert(fixed_at(p, r).1 == m);
    } else {
        let y = Seq::new(n, |j: int| x);
        assert(n == r.len() + 1);
        crate::evaluation::lemma_pow2_below_bits(n);
        lemma_substitute_value(m, rs, n, y);
        lemma_assigned_r(r, y);
        assert(r + seq![y[r.len() as int]] =~= r + seq![x]);
        let sub = substitute(m, rs);
        lemma_relabel_value(sub, n, y);
        let pres = presence_spec(sub, n);
        lemma_kept_constant(x, n, pres);
        assert(relabel_model((n, sub)) == fixed_at(p, r));
        lemma_line_value(fixed_at(p, r).1, fixed_at(p, r).0, x);
        lemma_mle_value(p, r + seq![x]);
    }
    let fm = fixed_at(p, r).1;
    assert(crate::multilinear::all_canonical(fm));
    lemma_line_canonical(fm);
}

/// A polynomial in at most one variable, as a line, takes at `x` its value
/// at `xs`, which is `[x]` when it has a variable.
proof fn lemma_plain_value<const P: u64>(p: (nat, Map<usize, Fp<P>>), xs: Seq<Fp<P>>, x: Fp<P>)
    requires
        1 < P,
        model_wf(p),
        p.0 <= 1,
        mle_evaluates(p, xs),
        xs.len() == 1 ==> xs[0] == x,
        xs.len() <= 1,
        x.value() < P,
    ensures
        horner(line(p.1), x) == mle_value(p, xs),
        canonical_coeffs(line(p.1)),
{
    lemma_line_canonical(p.1);
    lemma_line_value(p.1, p.0, x);
    if p.0 == 0 {
        assert(crate::evaluation::coeffs(p.1)(0) == crate::multilinear::coeff_or_zero(p.1, 0));
    } else {
        assert(xs =~= Seq::new(1, |j: int| x));
        lemma_mle_value(p, xs);
    }
}

/// Part `i` as a univariate polynomial takes at `x` the part's value at `[x]`.
proof fn lemma_part_uni_value<const P: u64>(e: GateEvalExtension<P>, i: int, x: Fp<P>)
    requires
        1 < P,
        e.wf(),
        e.fits(),
        0 <= i < e.parts(),
        e.part_uni_ok(i),
        e.evaluation_defined(seq![x]),
        x.value() < P,
    ensures
        horner(e.part_uni(i), x) == e.part_value(i, seq![x]),
{
    let xs = seq![x];
    let r = e.point();
    assert(model_wf(e.adds()[i]));
    assert(e.adds()[i].0 < usize::BITS);
    let mid = e.wbs()[i].0 as int;
    assert(mid <= 1);
    let bx = xs.subrange(0, mid);
    let cx = xs.subrange(mid, 1);
    assert(mid == 1 ==> bx =~= seq![x]);
    assert(mid == 0 ==> cx =~= seq![x]);
    lemma_fixed_value(e.adds()[i], r, x);
    lemma_fixed_value(e.muls()[i], r, x);
    lemma_plain_value(e.wbs()[i], bx, x);
    lemma_plain_value(e.wcs()[i], cx, x);
    let a = line(fixed_at(e.adds()[i], r).1);
    let m = line(fixed_at(e.muls()[i], r).1);
    let b = line(e.wbs()[i].1);
    let c = line(e.wcs()[i].1);
    lemma_poly_add_canonical(b, c);
    lemma_poly_mul_canonical(b, c);
    lemma_poly_mul_canonical(a, poly_add(b, c));
    lemma_poly_mul_canonical(m, poly_mul(b, c));
    lemma_horner_add(b, c, x);
    lemma_horner_mul(b, c, x);
    lemma_horner_mul(a, poly_add(b, c), x);
    lemma_horner_mul(m, poly_mul(b, c), x);
    lemma_horner_add(poly_mul(a, poly_add(b, c)), poly_mul(m, poly_mul(b, c)), x);
}

/// The sum of the first `k` parts as univariate polynomials takes at `x` the
/// sum of their values at `[x]`.
proof fn lemma_uni_upto_value<const P: u64>(e: GateEvalExtension<P>, k: nat, x: Fp<P>)
    requires
        1 < P,
        e.wf(),
        e.fits(),
        k <= e.parts(),
        forall|i: int| 0 <= i < e.parts() ==> #[trigger] e.part_uni_ok(i),
        e.evaluation_defined(seq![x]),
        x.value() < P,
    ensures
        horner(e.uni_upto(k), x) == e.value_upto(seq![x], k),
    decreases k,
{
    if k > 0 {
        let h = (k - 1) as nat;
        lemma_uni_upto_value(e, h, x);
        lemma_part_uni_value(e, h as int, x);
        lemma_horner_add(e.uni_upto(h), e.part_uni(h as int), x);
    }
}

/// `to_univariate` agrees with the extension's value: the sum of the parts
/// as univariate polynomials takes at `x` the extension's value at `[x]`.
pub proof fn lemma_to_univariate_value<const P: u64>(e: GateEvalExtension<P>, x: Fp<P>)
    requires
        1 < P,
        e.wf(),
        e.fits(),
        forall|i: int| 0 <= i < e.parts() ==> #[trigger] e.part_uni_ok(i),
        e.evaluation_defined(seq![x]),
        x.value() < P,
    ensures
        horner(e.uni_upto(e.parts()), x) == e.value_at(seq![x]),
{
    lemma_uni_upto_value(e, e.parts(), x);
}

/// `g` is what `add` returns for `a + b`: the other summand when one is the
/// empty sum, else the parts of `a` followed by those of `b` at their shared
/// output label.
pub open spec fn sum_result<const P: u64>(a: GateEvalExtension<P>, b: GateEvalExtension<P>, g: GateEvalExtension<P>) -> bool {
    ||| a.is_empty_sum() && g.same_as(b)
    ||| !a.is_empty_sum() && b.is_empty_sum() && g.same_as(a)
    ||| {
        &&& g.point() == a.point()
        &&& g.adds() == a.adds() + b.adds()
        &&& g.muls() == a.muls() + b.muls()
        &&& g.wbs() == a.wbs() + b.wbs()
        &&& g.wcs() == a.wcs() + b.wcs()
        &&& a.point() == b.point()
    }
}

/// The first `k` parts of `g` are those of `a`.
proof fn lemma_upto_prefix<const P: u64>(a: GateEvalExtension<P>, g: GateEvalExtension<P>, xs: Seq<Fp<P>>, k: nat)
    requires
        k <= a.parts(),
        g.point() == a.point(),
        a.muls().len() == a.parts(),
        a.wbs().len() == a.parts(),
        a.wcs().len() == a.parts(),
        g.adds().len() >= a.parts(),
        g.muls().len() >= a.parts(),
        g.wbs().len() >= a.parts(),
        g.wcs().len() >= a.parts(),
        g.adds().subrange(0, a.parts() as int) == a.adds(),
        g.muls().subrange(0, a.parts() as int) == a.muls(),
        g.wbs().subrange(0, a.parts() as int) == a.wbs(),
        g.wcs().subrange(0, a.parts() as int) == a.wcs(),
    ensures
        g.value_upto(xs, k) == a.value_upto(xs, k),
    decreases k,
{
    if k > 0 {
        lemma_upto_prefix(a, g, xs, (k - 1) as nat);
        let j = k - 1;
        assert(g.adds()[j] == g.adds().subrange(0, a.parts() as int)[j]);
        assert(g.muls()[j] == g.muls().subrange(0, a.parts() as int)[j]);
        assert(g.wbs()[j] == g.wbs().subrange(0, a.parts() as int)[j]);
        assert(g.wcs()[j] == g.wcs().subrange(0, a.parts() as int)[j]);
    }
}

/// The parts of `g` after those of `a` add up as those of `b`.
proof fn lemma_upto_suffix<const P: u64>(
    a: GateEvalExtension<P>,
    b: GateEvalExtension<P>,
    g: GateEvalExtension<P>,
    xs: Seq<Fp<P>>,
    k: nat,
)
    requires
        1 < P,
        a.wf(),
        b.wf(),
        k <= b.parts(),
        g.point() == a.point(),
        a.point() == b.point(),
        g.adds() == a.adds() + b.adds(),
        g.muls() == a.muls() + b.muls(),
        g.wbs() == a.wbs() + b.wbs(),
        g.wcs() == a.wcs() + b.wcs(),
    ensures
        g.value_upto(xs, a.parts() + k) == a.value_at(xs).spec_add(b.value_upto(xs, k)),
    decreases k,
{
    let pa = a.parts();
    if k == 0 {
        assert(g.adds().subrange(0, pa as int) =~= a.adds());
        assert(g.muls().subrange(0, pa as int) =~= a.muls());
        assert(g.wbs().subrange(0, pa as int) =~= a.wbs());
        assert(g.wcs().subrange(0, pa as int) =~= a.wcs());
        lemma_upto_prefix(a, g, xs, pa);
        let v = a.value_at(xs);
        assert(v.value() < P) by {
            if pa > 0 {
                Fp::<P>::lemma_from_nat(0);
            }
            lemma_upto_canonical(a, xs, pa);
        }
        Fp::<P>::lemma_identities(v);
    } else {
        let h = (k - 1) as nat;
        lemma_upto_suffix(a, b, g, xs, h);
        assert(g.adds()[(pa + h) as int] == b.adds()[h as int]);
        assert(g.muls()[(pa + h) as int] == b.muls()[h as int]);
        assert(g.wbs()[(pa + h) as int] == b.wbs()[h as int]);
        assert(g.wcs()[(pa + h) as int] == b.wcs()[h as int]);
        assert(g.part_value((pa + h) as int, xs) == b.part_value(h as int, xs));
        Fp::<P>::lemma_add_associative(a.value_at(xs), b.value_upto(xs, h), b.part_value(h as int, xs));
    }
}

/// A sum of parts is canonical.
proof fn lemma_upto_canonical<const P: u64>(a: GateEvalExtension<P>, xs: Seq<Fp<P>>, k: nat)
    requires
        1 < P,
    ensures
        a.value_upto(xs, k).value() < P,
{
    if k == 0 {
        Fp::<P>::lemma_from_nat(0);
    } else {
        Fp::<P>::lemma_from_nat(
            (a.value_upto(xs, (k - 1) as nat).value() + a.part_value(k - 1, xs).value()) as nat,
        );
    }
}

/// The value of a sum of extensions is the sum of their values.
pub proof fn lemma_add_value<const P: u64>(
    a: GateEvalExtension<P>,
    b: GateEvalExtension<P>,
    g: GateEvalExtension<P>,
    xs: Seq<Fp<P>>,
)
    requires
        1 < P,
        a.wf(),
        b.wf(),
        sum_result(a, b, g),
    ensures
        g.value_at(xs) == a.value_at(xs).spec_add(b.value_at(xs)),
{
    Fp::<P>::lemma_from_nat(0);
    if a.is_empty_sum() && g.same_as(b) {
        lemma_upto_canonical(b, xs, b.parts());
        Fp::<P>::lemma_identities(b.value_at(xs));
        assert(a.value_at(xs) == Fp::<P>::spec_zero());
        lemma_same_value(g, b, xs, b.parts());
    } else if !a.is_empty_sum() && b.is_empty_sum() && g.same_as(a) {
        lemma_upto_canonical(a, xs, a.parts());
        Fp::<P>::lemma_identities(a.value_at(xs));
        assert(b.value_at(xs) == Fp::<P>::spec_zero());
        lemma_same_value(g, a, xs, a.parts());
    } else {
        lemma_upto_suffix(a, b, g, xs, b.parts());
    }
}

/// Extensions with the same label and polynomials have the same values.
proof fn lemma_same_value<const P: u64>(g: GateEvalExtension<P>, a: GateEvalExtension<P>, xs: Seq<Fp<P>>, k: nat)
    requires
        g.same_as(a),
    ensures
        g.value_upto(xs, k) == a.value_upto(xs, k),
    decreases k,
{
    if k > 0 {
        lemma_same_value(g, a, xs, (k - 1) as nat);
    }
}

} // verus!
