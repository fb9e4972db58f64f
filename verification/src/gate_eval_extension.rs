//! Evaluating the gates of a circuit layer, as a polynomial in the
//! layer's two input labels.
//!
//! For a fixed output label `r`, one part is
//! `f(b, c) = add(r, b, c) * (W(b) + W(c)) + mul(r, b, c) * (W(b) * W(c))`,
//! where `add` and `mul` are the wiring polynomials of the layer and `W` the
//! values of the next layer. A value of this type is a sum of such parts that
//! share `r` and the sizes of `b` and `c`.
use crate::field::{be_encoding, to_vec, Fp};
use crate::multilinear::{
    all_canonical, coeff_or_zero, fix_all, keys_below, lemma_apply_views, selector_views, selectors_valid,
    substitute, valid_selector, MultiLinearPolynomial, count_true, presence_spec, relabelled_terms,
    sorted_dom, terms_bytes,
};
use crate::univariate::{coefficient_bytes, poly_add, poly_mul, UnivariatePolynomial};
use crate::bits::{selector_from_position, single_selector};
use vstd::prelude::*;

verus! {

/// A polynomial as the library's contracts see it: its variable count and its terms.
pub open spec fn poly_model<const P: u64>(p: MultiLinearPolynomial<P>) -> (nat, Map<usize, Fp<P>>) {
    (p.num_vars(), p.terms())
}

/// The models of a list of polynomials.
pub open spec fn models<const P: u64>(s: Seq<MultiLinearPolynomial<P>>) -> Seq<(nat, Map<usize, Fp<P>>)> {
    s.map_values(|p: MultiLinearPolynomial<P>| poly_model(p))
}

/// The model of a well-formed polynomial: keys below `2^n`, canonical
/// coefficients, and a variable count that fits in 32 bits.
pub open spec fn model_wf<const P: u64>(p: (nat, Map<usize, Fp<P>>)) -> bool {
    keys_below(p.1, p.0) && all_canonical(p.1) && p.0 <= u32::MAX
}

/// The value of a polynomial at `xs` as `evaluate` gives it: the constant of a
/// polynomial without variables, else the constant left after substituting `xs`.
pub open spec fn mle_value<const P: u64>(p: (nat, Map<usize, Fp<P>>), xs: Seq<Fp<P>>) -> Fp<P> {
    if p.0 == 0 {
        coeff_or_zero(p.1, 0)
    } else {
        fix_all(p.1, xs)[0]
    }
}

/// `evaluate` returns a value for the polynomial at `xs`.
pub open spec fn mle_evaluates<const P: u64>(p: (nat, Map<usize, Fp<P>>), xs: Seq<Fp<P>>) -> bool {
    p.0 == 0 || (xs.len() == p.0 && p.0 < usize::BITS && !p.1.dom().is_empty())
}

/// Each selector preceded by `k` unselected positions (those of the output label).
pub open spec fn padded<const P: u64>(s: Seq<(Seq<bool>, Fp<P>)>, k: nat) -> Seq<(Seq<bool>, Fp<P>)> {
    s.map_values(|x: (Seq<bool>, Fp<P>)| (Seq::new(k, |j: int| false) + x.0, x.1))
}

/// `sel` selects one of its first `k` positions.
pub open spec fn selects_before(sel: Seq<bool>, k: nat) -> bool {
    exists|j: int| 0 <= j < k && sel[j]
}

/// The assignments aimed at `b`: those that select one of the first `k`
/// positions, cut to those positions, in order.
pub open spec fn b_share<const P: u64>(s: Seq<(Seq<bool>, Fp<P>)>, k: nat) -> Seq<(Seq<bool>, Fp<P>)>
    decreases s.len(),
{
    if s.len() == 0 {
        Seq::empty()
    } else if selects_before(s.last().0, k) {
        b_share(s.drop_last(), k).push((s.last().0.subrange(0, k as int), s.last().1))
    } else {
        b_share(s.drop_last(), k)
    }
}

/// The assignments aimed at `c`: the others, without their first `k`
/// positions, in order.
pub open spec fn c_share<const P: u64>(s: Seq<(Seq<bool>, Fp<P>)>, k: nat) -> Seq<(Seq<bool>, Fp<P>)>
    decreases s.len(),
{
    if s.len() == 0 {
        Seq::empty()
    } else if selects_before(s.last().0, k) {
        c_share(s.drop_last(), k)
    } else {
        c_share(s.drop_last(), k).push((s.last().0.subrange(k as int, s.last().0.len() as int), s.last().1))
    }
}

/// The polynomial after `partial_evaluate` with `s`: same variable count, values substituted.
pub open spec fn partial_model<const P: u64>(p: (nat, Map<usize, Fp<P>>), s: Seq<(Seq<bool>, Fp<P>)>) -> (
    nat,
    Map<usize, Fp<P>>,
) {
    (p.0, substitute(p.1, s))
}

/// The polynomial after `relabel`: unchanged without variables, else the
/// variables no term holds are removed and the others renumbered in order.
pub open spec fn relabel_model<const P: u64>(p: (nat, Map<usize, Fp<P>>)) -> (nat, Map<usize, Fp<P>>) {
    if p.0 == 0 {
        p
    } else {
        (count_true(presence_spec(p.1, p.0)), relabelled_terms(p.1, presence_spec(p.1, p.0)))
    }
}

/// The bytes `to_bytes` gives for a polynomial.
pub open spec fn model_encoding<const P: u64>(p: (nat, Map<usize, Fp<P>>)) -> Seq<u8> {
    be_encoding(p.0, 4) + terms_bytes(p.1, sorted_dom(p.1))
}

/// The encodings of a list of polynomials, one after the other.
pub open spec fn encodings<const P: u64>(s: Seq<(nat, Map<usize, Fp<P>>)>) -> Seq<u8>
    decreases s.len(),
{
    if s.len() == 0 {
        Seq::empty()
    } else {
        encodings(s.drop_last()) + model_encoding(s.last())
    }
}

/// Selectors fixing the first `r.len()` of `r.len() + 1` variables to the values of `r`.
pub open spec fn r_selectors<const P: u64>(r: Seq<Fp<P>>) -> Seq<(Seq<bool>, Fp<P>)> {
    Seq::new(r.len(), |i: int| (single_selector((r.len() + 1) as nat, i as nat), r[i]))
}

/// A wiring polynomial with the output label fixed to `r`, then relabelled.
pub open spec fn fixed_at<const P: u64>(p: (nat, Map<usize, Fp<P>>), r: Seq<Fp<P>>) -> (
    nat,
    Map<usize, Fp<P>>,
) {
    relabel_model(partial_model(p, r_selectors(r)))
}

/// The constant and linear coefficients of a polynomial in at most one variable.
pub open spec fn line<const P: u64>(m: Map<usize, Fp<P>>) -> Seq<Fp<P>> {
    seq![coeff_or_zero(m, 0), coeff_or_zero(m, 1)]
}

/// The larger of two counts.
pub open spec fn larger(a: nat, b: nat) -> nat {
    if a >= b {
        a
    } else {
        b
    }
}

/// `new` accepts an output label of `r_len` values, wiring polynomials in
/// `a` and `m` variables and a next-layer polynomial in `w` variables: the
/// wiring polynomials come from one layer (equal sizes, or one of them has
/// no variables) and have `r_len + 2 w` variables.
pub open spec fn new_accepts(r_len: nat, a: nat, m: nat, w: nat) -> bool {
    &&& (a == m || a == 0 || m == 0)
    &&& larger(a, m) >= 2 * w
    &&& r_len == larger(a, m) - 2 * w
}

/// A sum of gate-evaluation parts that share the output label `r`.
#[derive(Clone, Debug, PartialEq)]
pub struct GateEvalExtension<const P: u64> {
    r: Vec<Fp<P>>,
    add_mle: Vec<MultiLinearPolynomial<P>>,
    mul_mle: Vec<MultiLinearPolynomial<P>>,
    w_b_mle: Vec<MultiLinearPolynomial<P>>,
    w_c_mle: Vec<MultiLinearPolynomial<P>>,
}

impl<const P: u64> GateEvalExtension<P> {
    /// The output label.
    pub closed spec fn point(self) -> Seq<Fp<P>> {
        self.r@
    }

    /// The addition wiring polynomial of each part.
    pub closed spec fn adds(self) -> Seq<(nat, Map<usize, Fp<P>>)> {
        models(self.add_mle@)
    }

    /// The multiplication wiring polynomial of each part.
    pub closed spec fn muls(self) -> Seq<(nat, Map<usize, Fp<P>>)> {
        models(self.mul_mle@)
    }

    /// The polynomial each part evaluates at `b`.
    pub closed spec fn wbs(self) -> Seq<(nat, Map<usize, Fp<P>>)> {
        models(self.w_b_mle@)
    }

    /// The polynomial each part evaluates at `c`.
    pub closed spec fn wcs(self) -> Seq<(nat, Map<usize, Fp<P>>)> {
        models(self.w_c_mle@)
    }

    /// The number of parts.
    pub open spec fn parts(self) -> nat {
        self.adds().len()
    }

    /// Every part has its four polynomials, each well formed, and the output
    /// label is no longer than a variable count.
    pub open spec fn wf(self) -> bool {
        &&& 0 < P
        &&& self.point().len() <= u32::MAX
        &&& self.muls().len() == self.parts()
        &&& self.wbs().len() == self.parts()
        &&& self.wcs().len() == self.parts()
        &&& forall|i: int|
            0 <= i < self.parts() ==> model_wf(#[trigger] self.adds()[i]) && model_wf(self.muls()[i])
                && model_wf(self.wbs()[i]) && model_wf(self.wcs()[i])
    }

    /// The number of variables of `b`: those of the first part's `b` polynomial.
    pub open spec fn b_count(self) -> nat {
        if self.wbs().len() == 0 {
            0
        } else {
            self.wbs()[0].0
        }
    }

    /// The number of variables of `c`: those of the first part's `c` polynomial.
    pub open spec fn c_count(self) -> nat {
        if self.wcs().len() == 0 {
            0
        } else {
            self.wcs()[0].0
        }
    }

    /// The number of variables, `|b| + |c|`.
    pub open spec fn vars(self) -> nat {
        self.b_count() + self.c_count()
    }

    /// The value without parts: nothing at all.
    pub open spec fn is_empty_sum(self) -> bool {
        &&& self.point().len() == 0
        &&& self.adds().len() == 0
        &&& self.muls().len() == 0
        &&& self.wbs().len() == 0
        &&& self.wcs().len() == 0
    }

    /// The value of part `i` at `xs = b ++ c`, where `b` has as many values as
    /// the part's `b` polynomial has variables:
    /// `add(r, b, c) * (W(b) + W(c)) + mul(r, b, c) * (W(b) * W(c))`.
    pub open spec fn part_value(self, i: int, xs: Seq<Fp<P>>) -> Fp<P> {
        let mid = self.wbs()[i].0 as int;
        let rbc = self.point() + xs;
        let b = mle_value(self.wbs()[i], xs.subrange(0, mid));
        let c = mle_value(self.wcs()[i], xs.subrange(mid, xs.len() as int));
        mle_value(self.adds()[i], rbc).spec_mul(b.spec_add(c)).spec_add(
            mle_value(self.muls()[i], rbc).spec_mul(b.spec_mul(c)),
        )
    }

    /// The sum of the values of the first `k` parts at `xs`, added in order.
    pub open spec fn value_upto(self, xs: Seq<Fp<P>>, k: nat) -> Fp<P>
        decreases k,
    {
        if k == 0 {
            Fp::<P>::spec_zero()
        } else {
            self.value_upto(xs, (k - 1) as nat).spec_add(self.part_value(k - 1, xs))
        }
    }

    /// The value at `xs`: the sum over all parts.
    pub open spec fn value_at(self, xs: Seq<Fp<P>>) -> Fp<P> {
        self.value_upto(xs, self.parts())
    }

    /// Each polynomial of each part can be evaluated at its share of `xs`.
    pub open spec fn evaluation_defined(self, xs: Seq<Fp<P>>) -> bool {
        forall|i: int|
            0 <= i < self.parts() ==> {
                let mid = (#[trigger] self.wbs()[i]).0 as int;
                &&& mid <= xs.len()
                &&& mle_evaluates(self.wbs()[i], xs.subrange(0, mid))
                &&& mle_evaluates(self.wcs()[i], xs.subrange(mid, xs.len() as int))
                &&& mle_evaluates(self.adds()[i], self.point() + xs)
                &&& mle_evaluates(self.muls()[i], self.point() + xs)
            }
    }

    /// Every polynomial of every part has fewer variables than a `usize` has bits.
    pub open spec fn fits(self) -> bool {
        forall|i: int|
            0 <= i < self.parts() ==> (#[trigger] self.adds()[i]).0 < usize::BITS && self.muls()[i].0
                < usize::BITS && self.wbs()[i].0 < usize::BITS && self.wcs()[i].0 < usize::BITS
    }

    /// Every polynomial of every part takes its values from a point of
    /// `vars()` values: `b`'s polynomial from its first values, `c`'s from
    /// the rest, the wiring polynomials from the output label followed by it.
    pub open spec fn points_fit(self) -> bool {
        forall|i: int|
            0 <= i < self.parts() ==> {
                &&& (#[trigger] self.wbs()[i]).0 <= self.vars()
                &&& (self.wcs()[i].0 == 0 || self.wcs()[i].0 <= self.vars() - self.wbs()[i].0)
                &&& (self.adds()[i].0 == 0 || self.adds()[i].0 <= self.point().len() + self.vars())
                &&& (self.muls()[i].0 == 0 || self.muls()[i].0 <= self.point().len() + self.vars())
            }
    }

    /// Part `i` accepts the assignments `s` of `partial_evaluate`: each wiring
    /// polynomial takes the padded selectors, the `b` polynomial its share and
    /// the `c` polynomial its share.
    pub open spec fn part_accepts(self, i: int, s: Seq<(Seq<bool>, Fp<P>)>) -> bool {
        &&& selectors_valid(padded(s, self.point().len()), self.adds()[i].0)
        &&& selectors_valid(padded(s, self.point().len()), self.muls()[i].0)
        &&& selectors_valid(b_share(s, self.b_count()), self.wbs()[i].0)
        &&& selectors_valid(c_share(s, self.b_count()), self.wcs()[i].0)
    }

    /// `partial_evaluate` with `s` succeeds: every part accepts `s`.
    pub open spec fn partial_succeeds(self, s: Seq<(Seq<bool>, Fp<P>)>) -> bool {
        forall|i: int| 0 <= i < self.parts() ==> #[trigger] self.part_accepts(i, s)
    }

    /// The polynomials of part `i` after `partial_evaluate` with `s`.
    pub open spec fn part_after(self, i: int, s: Seq<(Seq<bool>, Fp<P>)>) -> (
        (nat, Map<usize, Fp<P>>),
        (nat, Map<usize, Fp<P>>),
        (nat, Map<usize, Fp<P>>),
        (nat, Map<usize, Fp<P>>),
    ) {
        (
            partial_model(self.adds()[i], padded(s, self.point().len())),
            partial_model(self.muls()[i], padded(s, self.point().len())),
            partial_model(self.wbs()[i], b_share(s, self.b_count())),
            partial_model(self.wcs()[i], c_share(s, self.b_count())),
        )
    }

    /// The four polynomials of part `i`.
    pub open spec fn part(self, i: int) -> (
        (nat, Map<usize, Fp<P>>),
        (nat, Map<usize, Fp<P>>),
        (nat, Map<usize, Fp<P>>),
        (nat, Map<usize, Fp<P>>),
    ) {
        (self.adds()[i], self.muls()[i], self.wbs()[i], self.wcs()[i])
    }

    /// `g` is the result of a successful `partial_evaluate` of `self` with `s`.
    pub open spec fn partial_result(self, s: Seq<(Seq<bool>, Fp<P>)>, g: Self) -> bool {
        &&& g.point() == self.point()
        &&& g.parts() == self.parts()
        &&& g.muls().len() == self.parts()
        &&& g.wbs().len() == self.parts()
        &&& g.wcs().len() == self.parts()
        &&& forall|i: int| 0 <= i < self.parts() ==> #[trigger] g.part(i) == self.part_after(i, s)
    }

    /// `other` has the same output label and polynomials as `self`.
    pub open spec fn same_as(self, other: Self) -> bool {
        &&& self.point() == other.point()
        &&& self.adds() == other.adds()
        &&& self.muls() == other.muls()
        &&& self.wbs() == other.wbs()
        &&& self.wcs() == other.wcs()
    }

    /// Part `i` becomes a univariate polynomial: the wiring polynomials take
    /// the output label and are left with at most one variable, and so are `b`'s and `c`'s.
    pub open spec fn part_uni_ok(self, i: int) -> bool {
        &&& selectors_valid(r_selectors(self.point()), self.adds()[i].0)
        &&& selectors_valid(r_selectors(self.point()), self.muls()[i].0)
        &&& fixed_at(self.adds()[i], self.point()).0 <= 1
        &&& fixed_at(self.muls()[i], self.point()).0 <= 1
        &&& self.wbs()[i].0 <= 1
        &&& self.wcs()[i].0 <= 1
    }

    /// The coefficients of part `i` as a univariate polynomial:
    /// `add * (W_b + W_c) + mul * (W_b * W_c)`.
    pub open spec fn part_uni(self, i: int) -> Seq<Fp<P>> {
        let a = line(fixed_at(self.adds()[i], self.point()).1);
        let m = line(fixed_at(self.muls()[i], self.point()).1);
        let b = line(self.wbs()[i].1);
        let c = line(self.wcs()[i].1);
        poly_add(poly_mul(a, poly_add(b, c)), poly_mul(m, poly_mul(b, c)))
    }

    /// The sum of the first `k` parts as univariate polynomials, added in order.
    pub open spec fn uni_upto(self, k: nat) -> Seq<Fp<P>>
        decreases k,
    {
        if k == 0 {
            Seq::empty()
        } else {
            poly_add(self.uni_upto((k - 1) as nat), self.part_uni(k - 1))
        }
    }

    /// Build the single part for output label `r` of a layer with wiring
    /// polynomials `add_mle` and `mul_mle` over the next layer's `w_mle`.
    /// Fails unless the sizes fit (see `new_accepts`).
    pub fn new(
        r: Vec<Fp<P>>,
        add_mle: MultiLinearPolynomial<P>,
        mul_mle: MultiLinearPolynomial<P>,
        w_mle: MultiLinearPolynomial<P>,
    ) -> (res: Result<Self, &'static str>)
        requires
            0 < P,
            add_mle.wf(),
            mul_mle.wf(),
            w_mle.wf(),
        ensures
            res is Ok <==> new_accepts(
                r@.len(),
                add_mle.num_vars(),
                mul_mle.num_vars(),
                w_mle.num_vars(),
            ),
            res matches Ok(g) ==> g.wf() && g.point() == r@ && g.adds() == seq![poly_model(add_mle)]
                && g.muls() == seq![poly_model(mul_mle)] && g.wbs() == seq![poly_model(w_mle)]
                && g.wcs() == seq![poly_model(w_mle)],
    {
        proof {
            add_mle.lemma_wf_iff();
            mul_mle.lemma_wf_iff();
            w_mle.lemma_wf_iff();
        }
        let a: u64 = add_mle.n_vars() as u64;
        let m: u64 = mul_mle.n_vars() as u64;
        let w: u64 = w_mle.n_vars() as u64;
        if a != m {
            if a != 0 && m != 0 {
                return Err("add_mle and mul_mle must come from the same layer");
            }
        }
        let selector_var_count: u64 = if a >= m {
            a
        } else {
            m
        };
        if selector_var_count < 2 * w {
            return Err("selector mle is less than 2 * w_mle, invalid mle's");
        }
        if r.len() as u64 != selector_var_count - 2 * w {
            return Err("invalid r input length");
        }
        let w_copy = w_mle.duplicate();
        let mut add_v: Vec<MultiLinearPolynomial<P>> = Vec::new();
        add_v.push(add_mle);
        let mut mul_v: Vec<MultiLinearPolynomial<P>> = Vec::new();
        mul_v.push(mul_mle);
        let mut b_v: Vec<MultiLinearPolynomial<P>> = Vec::new();
        b_v.push(w_copy);
        let mut c_v: Vec<MultiLinearPolynomial<P>> = Vec::new();
        c_v.push(w_mle);
        let g = GateEvalExtension { r, add_mle: add_v, mul_mle: mul_v, w_b_mle: b_v, w_c_mle: c_v };
        proof {
            add_mle.lemma_wf_iff();
            mul_mle.lemma_wf_iff();
            w_mle.lemma_wf_iff();
            assert(g.adds() =~= seq![poly_model(add_mle)]);
            assert(g.muls() =~= seq![poly_model(mul_mle)]);
            assert(g.wbs() =~= seq![poly_model(w_mle)]);
            assert(g.wcs() =~= seq![poly_model(w_mle)]);
        }
        Ok(g)
    }

    /// Whether this is the sum without parts.
    pub fn is_additive_identity(&self) -> (res: bool)
        ensures
            res == self.is_empty_sum(),
    {
        self.r.len() == 0 && self.add_mle.len() == 0 && self.mul_mle.len() == 0
            && self.w_b_mle.len() == 0 && self.w_c_mle.len() == 0
    }

    /// The number of parts.
    pub fn count(&self) -> (res: usize)
        ensures
            res == self.parts(),
    {
        self.add_mle.len()
    }

    /// The number of variables of `b`.
    pub fn b_vars(&self) -> (res: usize)
        ensures
            res == self.b_count(),
    {
        if self.w_b_mle.len() == 0 {
            0
        } else {
            self.w_b_mle[0].n_vars()
        }
    }

    /// The number of variables of `c`.
    pub fn c_vars(&self) -> (res: usize)
        ensures
            res == self.c_count(),
    {
        if self.w_c_mle.len() == 0 {
            0
        } else {
            self.w_c_mle[0].n_vars()
        }
    }

    /// The number of variables, `|b| + |c|`.
    pub fn n_vars(&self) -> (res: usize)
        requires
            self.vars() <= usize::MAX,
        ensures
            res == self.vars(),
    {
        self.b_vars() + self.c_vars()
    }

    /// The value at `assignments = b ++ c`, summed over the parts. Fails when
    /// there is not one value per variable.
    pub fn evaluate_slice(&self, assignments: &[Fp<P>]) -> (res: Result<Fp<P>, &'static str>)
        requires
            self.wf(),
            self.vars() <= usize::MAX,
            assignments@.len() == self.vars() ==> self.evaluation_defined(assignments@),
        ensures
            res is Ok <==> assignments@.len() == self.vars(),
            res matches Ok(v) ==> v == self.value_at(assignments@),
    {
        if assignments.len() != self.n_vars() {
            return Err("invalid assignment length, should be twice the size of w_mle.n_vars()");
        }
        let mut evaluation_result = Fp::zero();
        let mut rbc = to_vec(self.r.as_slice());
        let mut tail = to_vec(assignments);
        rbc.append(&mut tail);
        let n = self.add_mle.len();
        let mut i: usize = 0;
        while i < n
            invariant
                self.wf(),
                i <= n,
                n == self.parts(),
                assignments@.len() == self.vars(),
                self.evaluation_defined(assignments@),
                rbc@ == self.point() + assignments@,
                evaluation_result == self.value_upto(assignments@, i as nat),
            decreases n - i,
        {
            proof {
                assert(model_wf(self.adds()[i as int]));
                self.add_mle@[i as int].lemma_wf_iff();
                self.mul_mle@[i as int].lemma_wf_iff();
                self.w_b_mle@[i as int].lemma_wf_iff();
                self.w_c_mle@[i as int].lemma_wf_iff();
                assert(self.wbs()[i as int] == poly_model(self.w_b_mle@[i as int]));
            }
            let mid = self.w_b_mle[i].n_vars();
            let bs = segment(assignments, 0, mid);
            let cs = segment(assignments, mid, assignments.len());
            let b_val = self.w_b_mle[i].evaluate(bs.as_slice()).unwrap();
            let c_val = self.w_c_mle[i].evaluate(cs.as_slice()).unwrap();
            let add_val = self.add_mle[i].evaluate(rbc.as_slice()).unwrap();
            let mul_val = self.mul_mle[i].evaluate(rbc.as_slice()).unwrap();
            let add_result = add_val.mul(&b_val.add(&c_val));
            let mul_result = mul_val.mul(&b_val.mul(&c_val));
            evaluation_result = evaluation_result.add(&add_result.add(&mul_result));
            i = i + 1;
        }
        Ok(evaluation_result)
    }

    /// Fix some variables of `b ++ c` in every part. Each assignment pairs a
    /// selector over `b ++ c` with a value: the wiring polynomials take it
    /// behind the output label's positions; it goes to the `b` polynomials
    /// when it selects a position of `b` (cut to those positions), else to
    /// the `c` polynomials (without them). Fails when some polynomial refuses
    /// its selectors. Variable counts stay.
    pub fn partial_evaluate(&self, assignments: &[(Vec<bool>, Fp<P>)]) -> (res: Result<Self, &'static str>)
        requires
            self.wf(),
            self.fits(),
            forall|j: int| 0 <= j < assignments@.len() ==> (#[trigger] assignments@[j]).0@.len() >= self.b_count(),
        ensures
            res is Ok <==> self.partial_succeeds(selector_views(assignments@)),
            res matches Ok(g) ==> g.wf() && self.partial_result(selector_views(assignments@), g),
    {
        let ghost views = selector_views(assignments@);
        proof {
            lemma_apply_views(Map::<usize, Fp<P>>::empty(), assignments@);
        }
        let rbc_partial = pad_assignments(assignments, self.r.len());
        let b_boundary = self.b_vars();
        let (b_partial, c_partial) = split_assignments(assignments, b_boundary);
        proof {
            lemma_apply_views(Map::<usize, Fp<P>>::empty(), rbc_partial@);
            lemma_apply_views(Map::<usize, Fp<P>>::empty(), b_partial@);
            lemma_apply_views(Map::<usize, Fp<P>>::empty(), c_partial@);
        }
        let n = self.add_mle.len();
        let mut new_add: Vec<MultiLinearPolynomial<P>> = Vec::new();
        let mut new_mul: Vec<MultiLinearPolynomial<P>> = Vec::new();
        let mut new_b: Vec<MultiLinearPolynomial<P>> = Vec::new();
        let mut new_c: Vec<MultiLinearPolynomial<P>> = Vec::new();
        let mut i: usize = 0;
        while i < n
            invariant
                self.wf(),
                self.fits(),
                i <= n,
                n == self.parts(),
                views == selector_views(assignments@),
                selector_views(rbc_partial@) == padded(views, self.point().len()),
                selector_views(b_partial@) == b_share(views, self.b_count()),
                selector_views(c_partial@) == c_share(views, self.b_count()),
                new_add@.len() == i,
                new_mul@.len() == i,
                new_b@.len() == i,
                new_c@.len() == i,
                forall|t: int| 0 <= t < i ==> #[trigger] self.part_accepts(t, views),
                forall|t: int|
                    0 <= t < i ==> (models(new_add@)[t], models(new_mul@)[t], models(new_b@)[t], models(
                        new_c@,
                    )[t]) == #[trigger] self.part_after(t, views),
                forall|t: int|
                    0 <= t < i ==> model_wf(#[trigger] models(new_add@)[t]) && model_wf(models(new_mul@)[t])
                        && model_wf(models(new_b@)[t]) && model_wf(models(new_c@)[t]),
            decreases n - i,
        {
            let (a, m, b, c) = match self.partial_part(
                i,
                rbc_partial.as_slice(),
                b_partial.as_slice(),
                c_partial.as_slice(),
                Ghost(views),
            ) {
                Ok(q) => q,
                Err(e) => {
                    return Err(e);
                },
            };
            let ghost (oa, om, ob, oc) = (new_add@, new_mul@, new_b@, new_c@);
            new_add.push(a);
            new_mul.push(m);
            new_b.push(b);
            new_c.push(c);
            proof {
                assert forall|t: int| 0 <= t < i + 1 implies (models(new_add@)[t], models(new_mul@)[t],
                    models(new_b@)[t], models(new_c@)[t]) == #[trigger] self.part_after(t, views)
                    && model_wf(models(new_add@)[t]) && model_wf(models(new_mul@)[t]) && model_wf(
                    models(new_b@)[t],
                ) && model_wf(models(new_c@)[t]) by {
                    if t < i {
                        assert(new_add@[t] == oa[t]);
                        assert(new_mul@[t] == om[t]);
                        assert(new_b@[t] == ob[t]);
                        assert(new_c@[t] == oc[t]);
                        assert(model_wf(models(oa)[t]));
                    } else {
                        assert(new_add@[t] == a);
                        assert(new_mul@[t] == m);
                        assert(new_b@[t] == b);
                        assert(new_c@[t] == c);
                    }
                }
                assert forall|t: int| 0 <= t < i + 1 implies model_wf(#[trigger] models(new_add@)[t])
                    && model_wf(models(new_mul@)[t]) && model_wf(models(new_b@)[t]) && model_wf(
                    models(new_c@)[t],
                ) by {
                    assert(self.part_after(t, views) == self.part_after(t, views));
                }
            }
            i = i + 1;
        }
        let g = GateEvalExtension {
            r: to_vec(self.r.as_slice()),
            add_mle: new_add,
            mul_mle: new_mul,
            w_b_mle: new_b,
            w_c_mle: new_c,
        };
        proof {
            assert forall|t: int| 0 <= t < self.parts() implies #[trigger] g.part(t) == self.part_after(t, views)
                && model_wf(g.adds()[t]) && model_wf(g.muls()[t]) && model_wf(g.wbs()[t]) && model_wf(g.wcs()[t]) by {
                assert(self.part_after(t, views) == (models(new_add@)[t], models(new_mul@)[t], models(new_b@)[t], models(new_c@)[t]));
                assert(model_wf(models(new_add@)[t]));
            }
        }
        Ok(g)
    }

    /// Partially evaluate the four polynomials of part `i` with their shares of the assignments.
    fn partial_part(
        &self,
        i: usize,
        rbc: &[(Vec<bool>, Fp<P>)],
        bp: &[(Vec<bool>, Fp<P>)],
        cp: &[(Vec<bool>, Fp<P>)],
        Ghost(views): Ghost<Seq<(Seq<bool>, Fp<P>)>>,
    ) -> (res: Result<
        (MultiLinearPolynomial<P>, MultiLinearPolynomial<P>, MultiLinearPolynomial<P>, MultiLinearPolynomial<P>),
        &'static str,
    >)
        requires
            self.wf(),
            self.fits(),
            i < self.parts(),
            selector_views(rbc@) == padded(views, self.point().len()),
            selector_views(bp@) == b_share(views, self.b_count()),
            selector_views(cp@) == c_share(views, self.b_count()),
        ensures
            res is Ok <==> self.part_accepts(i as int, views),
            res matches Ok(q) ==> (poly_model(q.0), poly_model(q.1), poly_model(q.2), poly_model(q.3))
                == self.part_after(i as int, views) && model_wf(poly_model(q.0)) && model_wf(
                poly_model(q.1),
            ) && model_wf(poly_model(q.2)) && model_wf(poly_model(q.3)),
    {
        proof {
            assert(model_wf(self.adds()[i as int]));
            assert(self.adds()[i as int].0 < usize::BITS);
            self.add_mle@[i as int].lemma_wf_iff();
            self.mul_mle@[i as int].lemma_wf_iff();
            self.w_b_mle@[i as int].lemma_wf_iff();
            self.w_c_mle@[i as int].lemma_wf_iff();
            lemma_views_valid(rbc@, self.adds()[i as int].0);
            lemma_views_valid(rbc@, self.muls()[i as int].0);
            lemma_views_valid(bp@, self.wbs()[i as int].0);
            lemma_views_valid(cp@, self.wcs()[i as int].0);
            lemma_apply_views(self.adds()[i as int].1, rbc@);
            lemma_apply_views(self.muls()[i as int].1, rbc@);
            lemma_apply_views(self.wbs()[i as int].1, bp@);
            lemma_apply_views(self.wcs()[i as int].1, cp@);
        }
        let a = match self.add_mle[i].partial_evaluate(rbc) {
            Ok(p) => p,
            Err(e) => {
                return Err(e);
            },
        };
        let m = match self.mul_mle[i].partial_evaluate(rbc) {
            Ok(p) => p,
            Err(e) => {
                return Err(e);
            },
        };
        let b = match self.w_b_mle[i].partial_evaluate(bp) {
            Ok(p) => p,
            Err(e) => {
                return Err(e);
            },
        };
        let c = match self.w_c_mle[i].partial_evaluate(cp) {
            Ok(p) => p,
            Err(e) => {
                return Err(e);
            },
        };
        proof {
            a.lemma_wf_iff();
            m.lemma_wf_iff();
            b.lemma_wf_iff();
            c.lemma_wf_iff();
        }
        Ok((a, m, b, c))
    }

    /// Remove from every polynomial the variables it does not use (see
    /// `relabel` on polynomials). The output label stays.
    pub fn relabel(self) -> (res: Self)
        requires
            self.wf(),
            self.fits(),
        ensures
            res.wf(),
            res.point() == self.point(),
            res.adds() == self.adds().map_values(|p: (nat, Map<usize, Fp<P>>)| relabel_model(p)),
            res.muls() == self.muls().map_values(|p: (nat, Map<usize, Fp<P>>)| relabel_model(p)),
            res.wbs() == self.wbs().map_values(|p: (nat, Map<usize, Fp<P>>)| relabel_model(p)),
            res.wcs() == self.wcs().map_values(|p: (nat, Map<usize, Fp<P>>)| relabel_model(p)),
    {
        proof {
            assert forall|t: int| 0 <= t < self.parts() implies model_wf(#[trigger] self.muls()[t])
                && self.muls()[t].0 < usize::BITS by {
                assert(model_wf(self.adds()[t]));
            }
            assert forall|t: int| 0 <= t < self.parts() implies model_wf(#[trigger] self.wbs()[t])
                && self.wbs()[t].0 < usize::BITS by {
                assert(model_wf(self.adds()[t]));
            }
            assert forall|t: int| 0 <= t < self.parts() implies model_wf(#[trigger] self.wcs()[t])
                && self.wcs()[t].0 < usize::BITS by {
                assert(model_wf(self.adds()[t]));
            }
        }
        let add_mle = relabel_all(&self.add_mle);
        let mul_mle = relabel_all(&self.mul_mle);
        let w_b_mle = relabel_all(&self.w_b_mle);
        let w_c_mle = relabel_all(&self.w_c_mle);
        proof {
            assert(models(mul_mle@).len() == models(self.mul_mle@).len());
            assert(models(w_b_mle@).len() == models(self.w_b_mle@).len());
            assert(models(w_c_mle@).len() == models(self.w_c_mle@).len());
            assert(models(add_mle@).len() == models(self.add_mle@).len());
        }
        let g = GateEvalExtension { r: self.r, add_mle, mul_mle, w_b_mle, w_c_mle };
        proof {
            assert forall|t: int| 0 <= t < g.parts() implies model_wf(#[trigger] g.adds()[t])
                && model_wf(g.muls()[t]) && model_wf(g.wbs()[t]) && model_wf(g.wcs()[t]) by {
                assert(model_wf(models(add_mle@)[t]));
                assert(model_wf(models(mul_mle@)[t]));
                assert(model_wf(models(w_b_mle@)[t]));
                assert(model_wf(models(w_c_mle@)[t]));
            }
        }
        g
    }

    /// The bytes of the value: the output label's values (eight bytes each,
    /// big-endian), then the encodings of the `add`, `mul`, `b` and `c`
    /// polynomials, each list in order.
    pub fn to_bytes(&self) -> (res: Vec<u8>)
        ensures
            res@ == coefficient_bytes(self.point()) + encodings(self.adds()) + encodings(self.muls())
                + encodings(self.wbs()) + encodings(self.wcs()),
    {
        let mut result = values_bytes(&self.r);
        let mut a = encode_all(&self.add_mle);
        let mut m = encode_all(&self.mul_mle);
        let mut b = encode_all(&self.w_b_mle);
        let mut c = encode_all(&self.w_c_mle);
        result.append(&mut a);
        result.append(&mut m);
        result.append(&mut b);
        result.append(&mut c);
        result
    }

    /// A copy of the value.
    pub fn duplicate(&self) -> (res: Self)
        ensures
            res.point() == self.point(),
            res.adds() == self.adds(),
            res.muls() == self.muls(),
            res.wbs() == self.wbs(),
            res.wcs() == self.wcs(),
    {
        GateEvalExtension {
            r: to_vec(self.r.as_slice()),
            add_mle: copy_all(&self.add_mle),
            mul_mle: copy_all(&self.mul_mle),
            w_b_mle: copy_all(&self.w_b_mle),
            w_c_mle: copy_all(&self.w_c_mle),
        }
    }

    /// The sum of two values: the parts of both, `self`'s first. The sum
    /// without parts is neutral on either side; otherwise the two must share
    /// the output label and the sizes of `b` and `c`.
    pub fn add(&self, rhs: &Self) -> (res: Result<Self, &'static str>)
        requires
            self.wf(),
            rhs.wf(),
        ensures
            self.is_empty_sum() ==> (res matches Ok(g) && g.same_as(*rhs)),
            !self.is_empty_sum() && rhs.is_empty_sum() ==> (res matches Ok(g) && g.same_as(*self)),
            !self.is_empty_sum() && !rhs.is_empty_sum() ==> (res is Ok <==> (self.point() == rhs.point()
                && self.b_count() == rhs.b_count() && self.c_count() == rhs.c_count())),
            !self.is_empty_sum() && !rhs.is_empty_sum() ==> (res matches Ok(g) ==> g.point()
                == self.point() && g.adds() == self.adds() + rhs.adds() && g.muls() == self.muls()
                + rhs.muls() && g.wbs() == self.wbs() + rhs.wbs() && g.wcs() == self.wcs() + rhs.wcs()),
            res matches Ok(g) ==> g.wf(),
    {
        if self.is_additive_identity() {
            return Ok(rhs.duplicate());
        }
        if rhs.is_additive_identity() {
            return Ok(self.duplicate());
        }
        if !same_values(&self.r, &rhs.r) {
            return Err("cannot add gate extensions with different r values");
        }
        if (self.b_vars() != rhs.b_vars()) || (self.c_vars() != rhs.c_vars()) {
            return Err("cannot add gate extensions with different polynomial signatures");
        }
        let mut add_mle = copy_all(&self.add_mle);
        let mut more_add = copy_all(&rhs.add_mle);
        add_mle.append(&mut more_add);
        let mut mul_mle = copy_all(&self.mul_mle);
        let mut more_mul = copy_all(&rhs.mul_mle);
        mul_mle.append(&mut more_mul);
        let mut w_b_mle = copy_all(&self.w_b_mle);
        let mut more_b = copy_all(&rhs.w_b_mle);
        w_b_mle.append(&mut more_b);
        let mut w_c_mle = copy_all(&self.w_c_mle);
        let mut more_c = copy_all(&rhs.w_c_mle);
        w_c_mle.append(&mut more_c);
        let g = GateEvalExtension { r: to_vec(self.r.as_slice()), add_mle, mul_mle, w_b_mle, w_c_mle };
        proof {
            assert(g.adds() =~= self.adds() + rhs.adds());
            assert(g.muls() =~= self.muls() + rhs.muls());
            assert(g.wbs() =~= self.wbs() + rhs.wbs());
            assert(g.wcs() =~= self.wcs() + rhs.wcs());
            assert forall|t: int| 0 <= t < g.parts() implies model_wf(#[trigger] g.adds()[t])
                && model_wf(g.muls()[t]) && model_wf(g.wbs()[t]) && model_wf(g.wcs()[t]) by {
                if t < self.parts() {
                    assert(model_wf(self.adds()[t]));
                } else {
                    assert(model_wf(rhs.adds()[t - self.parts()]));
                }
            }
        }
        Ok(g)
    }

    /// The value as a univariate polynomial, for at most one variable: each
    /// part's wiring polynomials get the output label substituted and are
    /// relabelled, then `add * (W_b + W_c) + mul * (W_b * W_c)` is summed over
    /// the parts. Fails with more than one variable, or when a part does not
    /// reduce to one variable.
    pub fn to_univariate(&self) -> (res: Result<UnivariatePolynomial<P>, &'static str>)
        requires
            self.wf(),
            self.fits(),
            self.vars() <= usize::MAX,
            self.point().len() < usize::MAX,
        ensures
            res is Ok <==> self.vars() <= 1 && forall|i: int| 0 <= i < self.parts() ==> #[trigger] self.part_uni_ok(i),
            res matches Ok(u) ==> u.coeffs() == self.uni_upto(self.parts()),
    {
        if self.n_vars() > 1 {
            return Err("cannot create univariate poly from gate eval extension with more than 1 variable");
        }
        let mut result = UnivariatePolynomial::<P>::additive_identity();
        let size = self.r.len() + 1;
        let mut r_assignments: Vec<(Vec<bool>, Fp<P>)> = Vec::new();
        let mut j: usize = 0;
        while j < self.r.len()
            invariant
                j <= self.r@.len(),
                size == self.r@.len() + 1,
                r_assignments@.len() == j,
                forall|t: int| 0 <= t < j ==> (#[trigger] r_assignments@[t]).0@ == single_selector(size as nat, t as nat)
                    && r_assignments@[t].1 == self.r@[t],
            decreases self.r@.len() - j,
        {
            let sel = match selector_from_position(size, j) {
                Ok(v) => v,
                Err(e) => {
                    return Err(e);
                },
            };
            r_assignments.push((sel, self.r[j]));
            j = j + 1;
        }
        proof {
            lemma_apply_views(Map::<usize, Fp<P>>::empty(), r_assignments@);
            assert(selector_views(r_assignments@) =~= r_selectors(self.point()));
        }
        let n = self.add_mle.len();
        let mut i: usize = 0;
        while i < n
            invariant
                self.wf(),
                self.fits(),
                i <= n,
                n == self.parts(),
                selector_views(r_assignments@) == r_selectors(self.point()),
                forall|t: int| 0 <= t < i ==> #[trigger] self.part_uni_ok(t),
                result.coeffs() == self.uni_upto(i as nat),
                result.coeffs().len() <= 4,
            decreases n - i,
        {
            let (a_uni, m_uni, b_uni, c_uni) = match self.part_lines(i, r_assignments.as_slice()) {
                Ok(q) => q,
                Err(e) => {
                    return Err(e);
                },
            };
            let add_result = a_uni.mul(&b_uni.add(&c_uni));
            let mul_result = m_uni.mul(&b_uni.mul(&c_uni));
            let f_x = add_result.add(&mul_result);
            result = result.add(&f_x);
            i = i + 1;
        }
        Ok(result)
    }

    /// The four polynomials of part `i` as univariate polynomials, the wiring
    /// ones after substituting the output label and relabelling.
    fn part_lines(&self, i: usize, r_assignments: &[(Vec<bool>, Fp<P>)]) -> (res: Result<
        (UnivariatePolynomial<P>, UnivariatePolynomial<P>, UnivariatePolynomial<P>, UnivariatePolynomial<P>),
        &'static str,
    >)
        requires
            self.wf(),
            self.fits(),
            i < self.parts(),
            selector_views(r_assignments@) == r_selectors(self.point()),
        ensures
            res is Ok <==> self.part_uni_ok(i as int),
            res matches Ok(q) ==> q.0.coeffs() == line(fixed_at(self.adds()[i as int], self.point()).1)
                && q.1.coeffs() == line(fixed_at(self.muls()[i as int], self.point()).1)
                && q.2.coeffs() == line(self.wbs()[i as int].1)
                && q.3.coeffs() == line(self.wcs()[i as int].1),
    {
        proof {
            assert(model_wf(self.adds()[i as int]));
            assert(self.adds()[i as int].0 < usize::BITS);
            self.add_mle@[i as int].lemma_wf_iff();
            self.mul_mle@[i as int].lemma_wf_iff();
            self.w_b_mle@[i as int].lemma_wf_iff();
            self.w_c_mle@[i as int].lemma_wf_iff();
            lemma_views_valid(r_assignments@, self.adds()[i as int].0);
            lemma_views_valid(r_assignments@, self.muls()[i as int].0);
            lemma_apply_views(self.adds()[i as int].1, r_assignments@);
            lemma_apply_views(self.muls()[i as int].1, r_assignments@);
        }
        let a = match self.add_mle[i].partial_evaluate(r_assignments) {
            Ok(p) => p,
            Err(e) => {
                return Err(e);
            },
        };
        let a = a.relabel();
        let a_uni = match UnivariatePolynomial::try_from(a) {
            Ok(u) => u,
            Err(e) => {
                return Err(e);
            },
        };
        let m = match self.mul_mle[i].partial_evaluate(r_assignments) {
            Ok(p) => p,
            Err(e) => {
                return Err(e);
            },
        };
        let m = m.relabel();
        let m_uni = match UnivariatePolynomial::try_from(m) {
            Ok(u) => u,
            Err(e) => {
                return Err(e);
            },
        };
        let b_uni = match UnivariatePolynomial::try_from(self.w_b_mle[i].duplicate()) {
            Ok(u) => u,
            Err(e) => {
                return Err(e);
            },
        };
        let c_uni = match UnivariatePolynomial::try_from(self.w_c_mle[i].duplicate()) {
            Ok(u) => u,
            Err(e) => {
                return Err(e);
            },
        };
        Ok((a_uni, m_uni, b_uni, c_uni))
    }

    /// Whether every part's polynomials take their values from a point of
    /// `vars()` values (see `points_fit`).
    pub fn points_fit_check(&self) -> (res: bool)
        requires
            self.wf(),
            self.vars() <= usize::MAX,
        ensures
            res == self.points_fit(),
    {
        let vars = self.n_vars();
        let rl = self.r.len();
        let n = self.add_mle.len();
        let mut i: usize = 0;
        while i < n
            invariant
                self.wf(),
                n == self.parts(),
                vars == self.vars(),
                rl == self.point().len(),
                i <= n,
                forall|t: int|
                    0 <= t < i ==> {
                        &&& (#[trigger] self.wbs()[t]).0 <= self.vars()
                        &&& (self.wcs()[t].0 == 0 || self.wcs()[t].0 <= self.vars() - self.wbs()[t].0)
                        &&& (self.adds()[t].0 == 0 || self.adds()[t].0 <= self.point().len() + self.vars())
                        &&& (self.muls()[t].0 == 0 || self.muls()[t].0 <= self.point().len() + self.vars())
                    },
            decreases n - i,
        {
            proof {
                assert(self.adds()[i as int] == poly_model(self.add_mle@[i as int]));
                assert(self.muls()[i as int] == poly_model(self.mul_mle@[i as int]));
                assert(self.wbs()[i as int] == poly_model(self.w_b_mle@[i as int]));
                assert(self.wcs()[i as int] == poly_model(self.w_c_mle@[i as int]));
            }
            let b = self.w_b_mle[i].n_vars();
            let c = self.w_c_mle[i].n_vars();
            let a = self.add_mle[i].n_vars();
            let m = self.mul_mle[i].n_vars();
            if b > vars {
                return false;
            }
            if c != 0 && c > vars - b {
                return false;
            }
            if a != 0 && a > vars && a - vars > rl {
                return false;
            }
            if m != 0 && m > vars && m - vars > rl {
                return false;
            }
            i = i + 1;
        }
        true
    }

    /// Whether every polynomial of every part has fewer variables than a
    /// `usize` has bits.
    pub fn fits_check(&self) -> (res: bool)
        requires
            self.wf(),
        ensures
            res == self.fits(),
    {
        let n = self.add_mle.len();
        let mut i: usize = 0;
        while i < n
            invariant
                self.wf(),
                n == self.parts(),
                i <= n,
                forall|t: int| 0 <= t < i ==> (#[trigger] self.adds()[t]).0 < usize::BITS && self.muls()[t].0
                    < usize::BITS && self.wbs()[t].0 < usize::BITS && self.wcs()[t].0 < usize::BITS,
            decreases n - i,
        {
            proof {
                assert(self.adds()[i as int] == poly_model(self.add_mle@[i as int]));
                assert(self.muls()[i as int] == poly_model(self.mul_mle@[i as int]));
                assert(self.wbs()[i as int] == poly_model(self.w_b_mle@[i as int]));
                assert(self.wcs()[i as int] == poly_model(self.w_c_mle@[i as int]));
            }
            let bits = usize::BITS as usize;
            if self.add_mle[i].n_vars() >= bits || self.mul_mle[i].n_vars() >= bits
                || self.w_b_mle[i].n_vars() >= bits || self.w_c_mle[i].n_vars() >= bits {
                return false;
            }
            i = i + 1;
        }
        true
    }

    /// The sum without parts.
    pub fn additive_identity() -> (res: Self)
        requires
            0 < P,
        ensures
            res.wf(),
            res.is_empty_sum(),
    {
        GateEvalExtension {
            r: Vec::new(),
            add_mle: Vec::new(),
            mul_mle: Vec::new(),
            w_b_mle: Vec::new(),
            w_c_mle: Vec::new(),
        }
    }

    /// The output label.
    pub fn r(&self) -> (res: &Vec<Fp<P>>)
        ensures
            res@ == self.point(),
    {
        &self.r
    }

    /// The addition wiring polynomial of each part.
    pub fn add_mles(&self) -> (res: &Vec<MultiLinearPolynomial<P>>)
        ensures
            models(res@) == self.adds(),
    {
        &self.add_mle
    }

    /// The multiplication wiring polynomial of each part.
    pub fn mul_mles(&self) -> (res: &Vec<MultiLinearPolynomial<P>>)
        ensures
            models(res@) == self.muls(),
    {
        &self.mul_mle
    }

    /// The polynomial each part evaluates at `b`.
    pub fn w_b_mles(&self) -> (res: &Vec<MultiLinearPolynomial<P>>)
        ensures
            models(res@) == self.wbs(),
    {
        &self.w_b_mle
    }

    /// The polynomial each part evaluates at `c`.
    pub fn w_c_mles(&self) -> (res: &Vec<MultiLinearPolynomial<P>>)
        ensures
            models(res@) == self.wcs(),
    {
        &self.w_c_mle
    }
}

/// A selector list has the same contents as its views.
proof fn lemma_views_valid<const P: u64>(a: Seq<(Vec<bool>, Fp<P>)>, n: nat)
    ensures
        selectors_valid(selector_views(a), n) <==> forall|i: int|
            0 <= i < a.len() ==> valid_selector(#[trigger] a[i].0@, n),
{
    lemma_apply_views(Map::<usize, Fp<P>>::empty(), a);
    if selectors_valid(selector_views(a), n) {
        assert forall|i: int| 0 <= i < a.len() implies valid_selector(#[trigger] a[i].0@, n) by {
            assert(selector_views(a)[i] == (a[i].0@, a[i].1));
            assert(valid_selector(selector_views(a)[i].0, n));
        }
    }
    if forall|i: int| 0 <= i < a.len() ==> valid_selector(#[trigger] a[i].0@, n) {
        assert forall|i: int| 0 <= i < selector_views(a).len() implies valid_selector(
            #[trigger] selector_views(a)[i].0,
            n,
        ) by {
            assert(selector_views(a)[i] == (a[i].0@, a[i].1));
        }
    }
}

/// `k` unselected positions followed by `sel`.
fn pad_selector(k: usize, sel: &Vec<bool>) -> (r: Vec<bool>)
    ensures
        r@ == Seq::new(k as nat, |j: int| false) + sel@,
{
    let mut out: Vec<bool> = Vec::new();
    let mut j: usize = 0;
    while j < k
        invariant
            j <= k,
            out@ == Seq::new(j as nat, |t: int| false),
        decreases k - j,
    {
        out.push(false);
        j = j + 1;
        proof {
            assert(out@ =~= Seq::new(j as nat, |t: int| false));
        }
    }
    let mut t: usize = 0;
    while t < sel.len()
        invariant
            t <= sel@.len(),
            out@ == Seq::new(k as nat, |x: int| false) + sel@.subrange(0, t as int),
        decreases sel@.len() - t,
    {
        out.push(sel[t]);
        t = t + 1;
        proof {
            assert(out@ =~= Seq::new(k as nat, |x: int| false) + sel@.subrange(0, t as int));
        }
    }
    proof {
        assert(sel@.subrange(0, sel@.len() as int) =~= sel@);
    }
    out
}

/// Every assignment with its selector padded by `k` unselected positions.
fn pad_assignments<const P: u64>(assignments: &[(Vec<bool>, Fp<P>)], k: usize) -> (r: Vec<(Vec<bool>, Fp<P>)>)
    ensures
        selector_views(r@) == padded(selector_views(assignments@), k as nat),
{
    let mut out: Vec<(Vec<bool>, Fp<P>)> = Vec::new();
    let mut j: usize = 0;
    while j < assignments.len()
        invariant
            j <= assignments@.len(),
            out@.len() == j,
            forall|t: int|
                0 <= t < j ==> (#[trigger] out@[t]).0@ == Seq::new(k as nat, |x: int| false)
                    + assignments@[t].0@ && out@[t].1 == assignments@[t].1,
        decreases assignments@.len() - j,
    {
        let sel = pad_selector(k, &assignments[j].0);
        out.push((sel, assignments[j].1));
        j = j + 1;
    }
    proof {
        lemma_apply_views(Map::<usize, Fp<P>>::empty(), out@);
        lemma_apply_views(Map::<usize, Fp<P>>::empty(), assignments@);
        assert(selector_views(out@) =~= padded(selector_views(assignments@), k as nat));
    }
    out
}

/// Whether one of `sel`'s first `k` positions is selected.
fn any_before(sel: &Vec<bool>, k: usize) -> (r: bool)
    requires
        k <= sel@.len(),
    ensures
        r == selects_before(sel@, k as nat),
{
    let mut j: usize = 0;
    while j < k
        invariant
            j <= k <= sel@.len(),
            forall|t: int| 0 <= t < j ==> !sel@[t],
        decreases k - j,
    {
        if sel[j] {
            return true;
        }
        j = j + 1;
    }
    false
}

/// The booleans `sel[lo..hi]`.
fn bool_segment(sel: &Vec<bool>, lo: usize, hi: usize) -> (r: Vec<bool>)
    requires
        lo <= hi <= sel@.len(),
    ensures
        r@ == sel@.subrange(lo as int, hi as int),
{
    let mut out: Vec<bool> = Vec::new();
    let mut i: usize = lo;
    while i < hi
        invariant
            lo <= i <= hi <= sel@.len(),
            out@ == sel@.subrange(lo as int, i as int),
        decreases hi - i,
    {
        out.push(sel[i]);
        i = i + 1;
        proof {
            assert(out@ =~= sel@.subrange(lo as int, i as int));
        }
    }
    out
}

/// The assignments for `b` and for `c` (see `b_share` and `c_share`).
fn split_assignments<const P: u64>(assignments: &[(Vec<bool>, Fp<P>)], k: usize) -> (r: (
    Vec<(Vec<bool>, Fp<P>)>,
    Vec<(Vec<bool>, Fp<P>)>,
))
    requires
        forall|j: int| 0 <= j < assignments@.len() ==> (#[trigger] assignments@[j]).0@.len() >= k,
    ensures
        selector_views(r.0@) == b_share(selector_views(assignments@), k as nat),
        selector_views(r.1@) == c_share(selector_views(assignments@), k as nat),
{
    let ghost views = selector_views(assignments@);
    proof {
        lemma_apply_views(Map::<usize, Fp<P>>::empty(), assignments@);
    }
    let mut bs: Vec<(Vec<bool>, Fp<P>)> = Vec::new();
    let mut cs: Vec<(Vec<bool>, Fp<P>)> = Vec::new();
    let mut j: usize = 0;
    while j < assignments.len()
        invariant
            j <= assignments@.len(),
            views == selector_views(assignments@),
            views.len() == assignments@.len(),
            forall|t: int| 0 <= t < assignments@.len() ==> #[trigger] views[t] == (assignments@[t].0@, assignments@[t].1),
            forall|t: int| 0 <= t < assignments@.len() ==> (#[trigger] assignments@[t]).0@.len() >= k,
            selector_views(bs@) == b_share(views.subrange(0, j as int), k as nat),
            selector_views(cs@) == c_share(views.subrange(0, j as int), k as nat),
        decreases assignments@.len() - j,
    {
        let sel = &assignments[j].0;
        let value = assignments[j].1;
        let ghost (ob, oc) = (bs@, cs@);
        let ghost pre = views.subrange(0, j as int);
        let ghost cur = views.subrange(0, j + 1);
        proof {
            assert(cur.drop_last() =~= pre);
            assert(cur.last() == views[j as int]);
            assert(views[j as int] == (sel@, value));
        }
        if any_before(sel, k) {
            let bsel = bool_segment(sel, 0, k);
            bs.push((bsel, value));
            proof {
                assert(selector_views(bs@) =~= selector_views(ob).push((bsel@, value)));
            }
        } else {
            let csel = bool_segment(sel, k, sel.len());
            cs.push((csel, value));
            proof {
                assert(selector_views(cs@) =~= selector_views(oc).push((csel@, value)));
            }
        }
        j = j + 1;
    }
    proof {
        assert(views.subrange(0, assignments@.len() as int) =~= views);
    }
    (bs, cs)
}

/// Each polynomial relabelled.
fn relabel_all<const P: u64>(v: &Vec<MultiLinearPolynomial<P>>) -> (r: Vec<MultiLinearPolynomial<P>>)
    requires
        0 < P,
        forall|i: int| 0 <= i < v@.len() ==> model_wf(#[trigger] models(v@)[i]) && models(v@)[i].0 < usize::BITS,
    ensures
        models(r@) == models(v@).map_values(|p: (nat, Map<usize, Fp<P>>)| relabel_model(p)),
        forall|i: int| 0 <= i < r@.len() ==> model_wf(#[trigger] models(r@)[i]),
{
    let mut out: Vec<MultiLinearPolynomial<P>> = Vec::new();
    let mut i: usize = 0;
    while i < v.len()
        invariant
            0 < P,
            i <= v@.len(),
            forall|t: int| 0 <= t < v@.len() ==> model_wf(#[trigger] models(v@)[t]) && models(v@)[t].0 < usize::BITS,
            out@.len() == i,
            forall|t: int| 0 <= t < i ==> #[trigger] models(out@)[t] == relabel_model(models(v@)[t]),
            forall|t: int| 0 <= t < i ==> model_wf(#[trigger] models(out@)[t]),
        decreases v@.len() - i,
    {
        proof {
            assert(model_wf(models(v@)[i as int]));
            v@[i as int].lemma_wf_iff();
        }
        let p = v[i].duplicate().relabel();
        proof {
            p.lemma_wf_iff();
        }
        let ghost old_out = out@;
        out.push(p);
        proof {
            assert forall|t: int| 0 <= t < i + 1 implies #[trigger] models(out@)[t] == relabel_model(models(v@)[t]) && model_wf(models(out@)[t]) by {
                if t < i {
                    assert(out@[t] == old_out[t]);
                    assert(models(old_out)[t] == relabel_model(models(v@)[t]));
                    assert(model_wf(models(old_out)[t]));
                } else {
                    assert(out@[t] == p);
                    assert(models(out@)[t] == poly_model(out@[t]));
                    assert(models(v@)[t] == poly_model(v@[t]));
                }
            }
        }
        i = i + 1;
    }
    proof {
        assert(models(out@) =~= models(v@).map_values(|p: (nat, Map<usize, Fp<P>>)| relabel_model(p)));
    }
    out
}

/// A copy of each polynomial.
fn copy_all<const P: u64>(v: &Vec<MultiLinearPolynomial<P>>) -> (r: Vec<MultiLinearPolynomial<P>>)
    ensures
        models(r@) == models(v@),
{
    let mut out: Vec<MultiLinearPolynomial<P>> = Vec::new();
    let mut i: usize = 0;
    while i < v.len()
        invariant
            i <= v@.len(),
            out@.len() == i,
            forall|t: int| 0 <= t < i ==> #[trigger] models(out@)[t] == models(v@)[t],
        decreases v@.len() - i,
    {
        let p = v[i].duplicate();
        let ghost old_out = out@;
        out.push(p);
        proof {
            assert forall|t: int| 0 <= t < i + 1 implies #[trigger] models(out@)[t] == models(v@)[t] by {
                if t < i {
                    assert(out@[t] == old_out[t]);
                    assert(models(old_out)[t] == models(v@)[t]);
                } else {
                    assert(out@[t] == p);
                    assert(models(out@)[t] == poly_model(out@[t]));
                    assert(models(v@)[t] == poly_model(v@[t]));
                }
            }
        }
        i = i + 1;
    }
    proof {
        assert(models(out@) =~= models(v@));
    }
    out
}

/// The encodings of the polynomials, one after the other.
fn encode_all<const P: u64>(v: &Vec<MultiLinearPolynomial<P>>) -> (r: Vec<u8>)
    ensures
        r@ == encodings(models(v@)),
{
    let mut out: Vec<u8> = Vec::new();
    let mut i: usize = 0;
    while i < v.len()
        invariant
            i <= v@.len(),
            out@ == encodings(models(v@).subrange(0, i as int)),
        decreases v@.len() - i,
    {
        let mut bytes = v[i].to_bytes();
        out.append(&mut bytes);
        proof {
            let s = models(v@).subrange(0, i + 1);
            assert(s.drop_last() =~= models(v@).subrange(0, i as int));
            assert(s.last() == poly_model(v@[i as int]));
        }
        i = i + 1;
    }
    proof {
        assert(models(v@).subrange(0, v@.len() as int) =~= models(v@));
    }
    out
}

/// The values, eight bytes each, big-endian.
fn values_bytes<const P: u64>(v: &Vec<Fp<P>>) -> (r: Vec<u8>)
    ensures
        r@ == coefficient_bytes(v@),
{
    let mut out: Vec<u8> = Vec::new();
    let mut i: usize = 0;
    while i < v.len()
        invariant
            i <= v@.len(),
            out@ == coefficient_bytes(v@.subrange(0, i as int)),
        decreases v@.len() - i,
    {
        let mut bytes = v[i].to_bytes_be();
        out.append(&mut bytes);
        proof {
            let s = v@.subrange(0, i + 1);
            assert(s.drop_last() =~= v@.subrange(0, i as int));
        }
        i = i + 1;
    }
    proof {
        assert(v@.subrange(0, v@.len() as int) =~= v@);
    }
    out
}

/// Whether the two lists hold the same values.
fn same_values<const P: u64>(a: &Vec<Fp<P>>, b: &Vec<Fp<P>>) -> (r: bool)
    ensures
        r == (a@ == b@),
{
    if a.len() != b.len() {
        return false;
    }
    let mut i: usize = 0;
    while i < a.len()
        invariant
            i <= a@.len(),
            a@.len() == b@.len(),
            forall|t: int| 0 <= t < i ==> a@[t] == b@[t],
        decreases a@.len() - i,
    {
        if !a[i].equals(&b[i]) {
            return false;
        }
        i = i + 1;
    }
    proof {
        assert(a@ =~= b@);
    }
    true
}

/// The values `xs[lo..hi]`.
pub(crate) fn segment<const P: u64>(xs: &[Fp<P>], lo: usize, hi: usize) -> (r: Vec<Fp<P>>)
    requires
        lo <= hi <= xs@.len(),
    ensures
        r@ == xs@.subrange(lo as int, hi as int),
{
    let mut out: Vec<Fp<P>> = Vec::new();
    let mut i: usize = lo;
    while i < hi
        invariant
            lo <= i <= hi <= xs@.len(),
            out@ == xs@.subrange(lo as int, i as int),
        decreases hi - i,
    {
        out.push(xs[i]);
        i = i + 1;
        proof {
            assert(out@ =~= xs@.subrange(lo as int, i as int));
        }
    }
    out
}

} // verus!
