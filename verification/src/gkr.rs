//! The GKR protocol: a prover convinces a verifier that a layered circuit
//! maps an input to the claimed output layer by layer, one partial sumcheck
//! per layer over that layer's gate-evaluation extension.
use crate::field::{be_encoding, to_vec, Fp};
use crate::multilinear::{coeff_or_zero, fix_all, MultiLinearPolynomial};
use crate::field::is_prime;
use crate::bits::bit_len;
use crate::circuit::{apply_gates, gates_mle, inputs_fit_isize, layer_values, mle_ready, Circuit};
use crate::gate_eval_extension::{model_encoding, model_wf, models, poly_model, segment, GateEvalExtension};
use crate::multilinear::interpolation_terms;
use crate::transcript::{challenge_elements, state_after};
use crate::sumcheck::{append_bytes, SubClaim};
use crate::transcript::{challenge_element, keccak256, Transcript};
use crate::univariate::{coefficient_bytes, horner, index_points, lagrange_sum, UnivariatePolynomial};
use crate::bits::bit_of;
use vstd::arithmetic::power2::pow2;
use vstd::prelude::*;

verus! {

/// What evaluating `p` at `xs` gives, values past the last variable unused:
/// a constant without variables, an error with too few values, the value
/// (zero without terms) otherwise.
pub open spec fn eval_outcome<const P: u64>(p: MultiLinearPolynomial<P>, xs: Seq<Fp<P>>) -> Result<
    Fp<P>,
    &'static str,
> {
    eval_model(p.num_vars(), p.terms(), xs)
}

/// `eval_outcome` for the polynomial with `n` variables and terms `m`.
pub open spec fn eval_model<const P: u64>(n: nat, m: Map<usize, Fp<P>>, xs: Seq<Fp<P>>) -> Result<
    Fp<P>,
    &'static str,
> {
    if n == 0 {
        Ok(coeff_or_zero(m, 0))
    } else if xs.len() < n {
        Err("evaluate requires an assignment for every variable")
    } else if n >= usize::BITS {
        Err("polynomial has too many variables")
    } else if m.dom().is_empty() {
        Ok(Fp::<P>::spec_zero())
    } else {
        Ok(fix_all(m, xs.subrange(0, n as int))[0])
    }
}

/// Evaluate `p` at `xs` (see `eval_outcome`).
pub fn evaluate_mle<const P: u64>(p: &MultiLinearPolynomial<P>, xs: &[Fp<P>]) -> (r: Result<Fp<P>, &'static str>)
    requires
        0 < P,
        p.wf(),
    ensures
        r == eval_outcome(*p, xs@),
{
    let n = p.n_vars();
    if n == 0 {
        return p.evaluate(xs);
    }
    if xs.len() < n {
        return Err("evaluate requires an assignment for every variable");
    }
    if n >= usize::BITS as usize {
        return Err("polynomial has too many variables");
    }
    if !p.has_terms() {
        return Ok(Fp::zero());
    }
    proof {
        if xs@.len() == n {
            assert(xs@.subrange(0, n as int) =~= xs@);
        }
    }
    p.evaluate(xs)
}

/// The line through `b` (at 0) and `c` (at 1), one linear polynomial per coordinate.
pub open spec fn line_through<const P: u64>(b: Seq<Fp<P>>, c: Seq<Fp<P>>) -> Seq<Seq<Fp<P>>> {
    Seq::new(b.len(), |i: int| seq![b[i], c[i].spec_sub(b[i])])
}

/// The coefficient lists of a list of univariate polynomials.
pub open spec fn coeff_lists<const P: u64>(l: Seq<UnivariatePolynomial<P>>) -> Seq<Seq<Fp<P>>> {
    l.map_values(|u: UnivariatePolynomial<P>| u.coeffs())
}

/// The point a list of coordinate polynomials takes at `x`.
pub open spec fn line_point<const P: u64>(l: Seq<Seq<Fp<P>>>, x: Fp<P>) -> Seq<Fp<P>> {
    l.map_values(|cs: Seq<Fp<P>>| horner(cs, x))
}

/// The line through `b` and `c`: coordinate `i` is `b_i + (c_i - b_i) x`.
/// Fails when `b` and `c` differ in length.
pub fn l<const P: u64>(b: &[Fp<P>], c: &[Fp<P>]) -> (r: Result<Vec<UnivariatePolynomial<P>>, &'static str>)
    ensures
        r is Err <==> b@.len() != c@.len(),
        r matches Ok(v) ==> coeff_lists(v@) == line_through(b@, c@),
{
    if b.len() != c.len() {
        return Err("b and c should have the same length");
    }
    let mut out: Vec<UnivariatePolynomial<P>> = Vec::new();
    let mut i: usize = 0;
    while i < b.len()
        invariant
            b@.len() == c@.len(),
            i <= b@.len(),
            out@.len() == i,
            coeff_lists(out@) == line_through(b@, c@).subrange(0, i as int),
        decreases b@.len() - i,
    {
        let mut cs: Vec<Fp<P>> = Vec::new();
        cs.push(b[i]);
        cs.push(c[i].sub(&b[i]));
        proof {
            assert(cs@ =~= seq![b@[i as int], c@[i as int].spec_sub(b@[i as int])]);
        }
        let u = UnivariatePolynomial::new(cs);
        let ghost before = out@;
        out.push(u);
        proof {
            assert forall|k: int| 0 <= k < i + 1 implies #[trigger] coeff_lists(out@)[k] == line_through(b@, c@)[k] by {
                if k < i {
                    assert(out@[k] == before[k]);
                    assert(coeff_lists(before)[k] == line_through(b@, c@).subrange(0, i as int)[k]);
                }
            }
            assert(coeff_lists(out@) =~= line_through(b@, c@).subrange(0, i + 1));
        }
        i = i + 1;
    }
    proof {
        assert(line_through(b@, c@).subrange(0, b@.len() as int) =~= line_through(b@, c@));
    }
    Ok(out)
}

/// The point on the line `l` at `x`.
pub fn evaluate_l_function<const P: u64>(l: &[UnivariatePolynomial<P>], x: &Fp<P>) -> (r: Vec<Fp<P>>)
    requires
        0 < P,
    ensures
        r@ == line_point(coeff_lists(l@), *x),
{
    let mut out: Vec<Fp<P>> = Vec::new();
    let mut i: usize = 0;
    while i < l.len()
        invariant
            0 < P,
            i <= l@.len(),
            out@ == line_point(coeff_lists(l@), *x).subrange(0, i as int),
        decreases l@.len() - i,
    {
        let v = l[i].evaluate(x);
        out.push(v);
        proof {
            assert(out@ =~= line_point(coeff_lists(l@), *x).subrange(0, i + 1));
        }
        i = i + 1;
    }
    proof {
        assert(line_point(coeff_lists(l@), *x).subrange(0, l@.len() as int) =~= line_point(coeff_lists(l@), *x));
    }
    out
}

/// The values of `w` on the line `l` at `0, 1, ..., k - 1`.
pub open spec fn values_on_line<const P: u64>(l: Seq<Seq<Fp<P>>>, w: (nat, Map<usize, Fp<P>>), k: nat) -> Seq<Fp<P>> {
    Seq::new(k, |j: int| eval_model(w.0, w.1, line_point(l, Fp::<P>::from_nat(j as nat)))->Ok_0)
}

/// `w` restricted to the line `l`: the univariate polynomial through the
/// values of `w` on the line at `0, 1, ..., n`, where `n` is the number of
/// variables of `w` (a multilinear polynomial on a line has degree at most
/// `n`). Fails when the line does not have one coordinate per variable.
pub fn q<const P: u64>(l: &[UnivariatePolynomial<P>], w: &MultiLinearPolynomial<P>) -> (r: Result<
    UnivariatePolynomial<P>,
    &'static str,
>)
    requires
        is_prime(P as nat),
        w.wf(),
        w.num_vars() < usize::BITS,
        w.num_vars() + 1 <= P,
    ensures
        r is Err <==> l@.len() != w.num_vars(),
        r matches Ok(u) ==> u.coeffs() == lagrange_sum(
            index_points::<P>(w.num_vars() + 1),
            values_on_line(coeff_lists(l@), (w.num_vars(), w.terms()), w.num_vars() + 1),
            w.num_vars() + 1,
        ),
{
    let n = w.n_vars();
    if l.len() != n {
        return Err("the line needs one coordinate per variable");
    }
    proof {
        assert(P > 1) by {
            assert(is_prime(P as nat));
        }
    }
    let mut ys: Vec<Fp<P>> = Vec::new();
    let mut j: usize = 0;
    while j <= n
        invariant
            1 < P,
            n == w.num_vars(),
            n < usize::BITS,
            n + 1 <= P,
            l@.len() == n,
            w.wf(),
            j <= n + 1,
            ys@ == values_on_line(coeff_lists(l@), (w.num_vars(), w.terms()), j as nat),
        decreases n + 1 - j,
    {
        let x = Fp::from_u64(j as u64);
        let pt = evaluate_l_function(l, &x);
        let y = match evaluate_mle(w, pt.as_slice()) {
            Ok(v) => v,
            Err(e) => {
                return Err(e);
            },
        };
        ys.push(y);
        proof {
            assert(ys@ =~= values_on_line(coeff_lists(l@), (w.num_vars(), w.terms()), (j + 1) as nat));
        }
        j = j + 1;
    }
    Ok(UnivariatePolynomial::interpolate(ys))
}

/// A sumcheck proof over a gate-evaluation extension that makes no statement
/// about the extension: the claimed sum and one round polynomial per variable.
#[derive(Clone, Debug, PartialEq)]
pub struct GateSumcheckProof<const P: u64> {
    sum: Fp<P>,
    uni_polys: Vec<UnivariatePolynomial<P>>,
}

/// The encodings of the round polynomials, one after another.
pub open spec fn uni_rounds_encoding<const P: u64>(polys: Seq<UnivariatePolynomial<P>>) -> Seq<u8>
    decreases polys.len(),
{
    if polys.len() == 0 {
        Seq::empty()
    } else {
        uni_rounds_encoding(polys.drop_last()) + coefficient_bytes(polys.last().coeffs())
    }
}

/// The verifier's checks on the round polynomials `polys`, from claimed sum
/// `claimed` and transcript state `state`: `None` when some round fails
/// `p(0) + p(1) == claim`, otherwise the final claim and the challenges.
pub open spec fn verify_uni_rounds<const P: u64>(
    state: Seq<u8>,
    claimed: Fp<P>,
    polys: Seq<UnivariatePolynomial<P>>,
) -> Option<(Fp<P>, Seq<Fp<P>>)>
    decreases polys.len(),
{
    if polys.len() == 0 {
        Some((claimed, Seq::empty()))
    } else {
        let p = polys[0].coeffs();
        if claimed != horner(p, Fp::<P>::spec_zero()).spec_add(horner(p, Fp::<P>::spec_one())) {
            None
        } else {
            let h = keccak256(state + coefficient_bytes(p));
            let c = challenge_element::<P>(h);
            match verify_uni_rounds(h, horner(p, c), polys.drop_first()) {
                None => None,
                Some(res) => Some((res.0, seq![c] + res.1)),
            }
        }
    }
}

/// The claim each round polynomial must answer when the verifier follows the
/// transcript from state `state` and claim `claimed`: the claimed sum for the
/// first round, then the previous polynomial's value at its challenge.
pub open spec fn round_claims<const P: u64>(
    state: Seq<u8>,
    claimed: Fp<P>,
    polys: Seq<UnivariatePolynomial<P>>,
) -> Seq<Fp<P>>
    decreases polys.len(),
{
    if polys.len() == 0 {
        Seq::empty()
    } else {
        let p = polys[0].coeffs();
        let h = keccak256(state + coefficient_bytes(p));
        seq![claimed] + round_claims(h, horner(p, challenge_element::<P>(h)), polys.drop_first())
    }
}

/// Where following the transcript ends: the last polynomial's value at its
/// challenge (the claimed sum without rounds) and the challenges drawn.
pub open spec fn rounds_end<const P: u64>(
    state: Seq<u8>,
    claimed: Fp<P>,
    polys: Seq<UnivariatePolynomial<P>>,
) -> (Fp<P>, Seq<Fp<P>>)
    decreases polys.len(),
{
    if polys.len() == 0 {
        (claimed, Seq::empty())
    } else {
        let p = polys[0].coeffs();
        let h = keccak256(state + coefficient_bytes(p));
        let c = challenge_element::<P>(h);
        let rest = rounds_end(h, horner(p, c), polys.drop_first());
        (rest.0, seq![c] + rest.1)
    }
}

/// Every round polynomial answers its claim: `p_i(0) + p_i(1)` equals the
/// running claim of round `i`.
pub open spec fn rounds_consistent<const P: u64>(
    state: Seq<u8>,
    claimed: Fp<P>,
    polys: Seq<UnivariatePolynomial<P>>,
) -> bool {
    forall|i: int|
        0 <= i < polys.len() ==> horner(#[trigger] polys[i].coeffs(), Fp::<P>::spec_zero()).spec_add(
            horner(polys[i].coeffs(), Fp::<P>::spec_one()),
        ) == round_claims(state, claimed, polys)[i]
}

/// The partial sumcheck verifier accepts exactly when every round polynomial
/// answers its running claim, and then hands back where the transcript ends.
pub proof fn lemma_verify_rounds_sound<const P: u64>(
    state: Seq<u8>,
    claimed: Fp<P>,
    polys: Seq<UnivariatePolynomial<P>>,
)
    ensures
        verify_uni_rounds(state, claimed, polys) is Some <==> rounds_consistent(state, claimed, polys),
        verify_uni_rounds(state, claimed, polys) is Some ==> verify_uni_rounds(state, claimed, polys)->Some_0
            == rounds_end(state, claimed, polys),
        round_claims(state, claimed, polys).len() == polys.len(),
    decreases polys.len(),
{
    if polys.len() > 0 {
        let p = polys[0].coeffs();
        let h = keccak256(state + coefficient_bytes(p));
        let c = challenge_element::<P>(h);
        let rest = polys.drop_first();
        lemma_verify_rounds_sound(h, horner(p, c), rest);
        let claims = round_claims(state, claimed, polys);
        let rc = round_claims(h, horner(p, c), rest);
        assert(claims == seq![claimed] + rc);
        if rounds_consistent(state, claimed, polys) {
            assert(horner(polys[0].coeffs(), Fp::<P>::spec_zero()).spec_add(horner(polys[0].coeffs(), Fp::<P>::spec_one()))
                == claims[0]);
            assert forall|i: int| 0 <= i < rest.len() implies horner(#[trigger] rest[i].coeffs(), Fp::<P>::spec_zero()).spec_add(
                horner(rest[i].coeffs(), Fp::<P>::spec_one()),
            ) == rc[i] by {
                assert(rest[i] == polys[i + 1]);
                assert(horner(polys[i + 1].coeffs(), Fp::<P>::spec_zero()).spec_add(horner(polys[i + 1].coeffs(), Fp::<P>::spec_one()))
                    == claims[i + 1]);
            }
        }
        if verify_uni_rounds(state, claimed, polys) is Some {
            assert forall|i: int| 0 <= i < polys.len() implies horner(#[trigger] polys[i].coeffs(), Fp::<P>::spec_zero()).spec_add(
                horner(polys[i].coeffs(), Fp::<P>::spec_one()),
            ) == claims[i] by {
                if i > 0 {
                    assert(polys[i] == rest[i - 1]);
                }
            }
        }
    }
}

impl<const P: u64> GateSumcheckProof<P> {
    /// The claimed sum.
    pub closed spec fn sum_spec(self) -> Fp<P> {
        self.sum
    }

    /// The round polynomials.
    pub closed spec fn rounds(self) -> Seq<UnivariatePolynomial<P>> {
        self.uni_polys@
    }

    /// A proof of `sum` with the given round polynomials.
    pub fn new(sum: Fp<P>, uni_polys: Vec<UnivariatePolynomial<P>>) -> (r: Self)
        ensures
            r.sum_spec() == sum,
            r.rounds() == uni_polys@,
    {
        GateSumcheckProof { sum, uni_polys }
    }

    /// The claimed sum.
    pub fn sum(&self) -> (r: Fp<P>)
        ensures
            r == self.sum_spec(),
    {
        self.sum
    }

    /// The encoding of the proof: the sum, then each round polynomial.
    pub fn to_bytes(&self) -> (r: Vec<u8>)
        ensures
            r@ == be_encoding(self.sum_spec().value(), 8) + uni_rounds_encoding(self.rounds()),
    {
        let mut result = self.sum.to_bytes_be();
        let ghost head = result@;
        let mut i: usize = 0;
        while i < self.uni_polys.len()
            invariant
                i <= self.uni_polys@.len(),
                result@ == head + uni_rounds_encoding(self.uni_polys@.subrange(0, i as int)),
            decreases self.uni_polys@.len() - i,
        {
            let bytes = self.uni_polys[i].to_bytes();
            append_bytes(&mut result, &bytes);
            proof {
                assert(self.uni_polys@.subrange(0, i + 1).drop_last() =~= self.uni_polys@.subrange(0, i as int));
                assert(head + uni_rounds_encoding(self.uni_polys@.subrange(0, i as int)) + bytes@ =~= head
                    + (uni_rounds_encoding(self.uni_polys@.subrange(0, i as int)) + bytes@));
            }
            i = i + 1;
        }
        proof {
            assert(self.uni_polys@.subrange(0, self.uni_polys@.len() as int) =~= self.uni_polys@);
        }
        result
    }

    /// Verify the proof; returns what is left to check, the final claim and
    /// the challenges, or `None` when a round is inconsistent.
    pub fn verify_partial(&self) -> (r: Option<SubClaim<P>>)
        requires
            0 < P,
        ensures
            match verify_uni_rounds(be_encoding(self.sum_spec().value(), 8), self.sum_spec(), self.rounds()) {
                None => r is None,
                Some(res) => r matches Some(c) && c.sum == res.0 && c.challenges@ == res.1,
            },
            r is Some <==> rounds_consistent(be_encoding(self.sum_spec().value(), 8), self.sum_spec(), self.rounds()),
            r matches Some(c) ==> (c.sum, c.challenges@) == rounds_end(
                be_encoding(self.sum_spec().value(), 8),
                self.sum_spec(),
                self.rounds(),
            ),
    {
        proof {
            lemma_verify_rounds_sound(be_encoding(self.sum_spec().value(), 8), self.sum_spec(), self.rounds());
        }
        let mut transcript = Transcript::new();
        let sum_bytes = self.sum.to_bytes_be();
        transcript.append(sum_bytes.as_slice());
        let ghost state0 = transcript.state();
        proof {
            assert(state0 =~= be_encoding(self.sum_spec().value(), 8));
        }
        let ghost polys = self.uni_polys@;
        let mut challenges: Vec<Fp<P>> = Vec::new();
        let mut claimed_sum = self.sum;
        let mut i: usize = 0;
        let ghost outcome = verify_uni_rounds(state0, self.sum, polys);
        proof {
            assert(polys.subrange(0, polys.len() as int) =~= polys);
            match outcome {
                None => {},
                Some(res) => {
                    assert(challenges@ + res.1 =~= res.1);
                },
            }
        }
        while i < self.uni_polys.len()
            invariant
                0 < P,
                polys == self.uni_polys@,
                i <= polys.len(),
                outcome == verify_uni_rounds(state0, self.sum, polys),
                state0 == be_encoding(self.sum_spec().value(), 8),
                outcome == match verify_uni_rounds(transcript.state(), claimed_sum, polys.subrange(i as int, polys.len() as int)) {
                    None => None,
                    Some(res) => Some((res.0, challenges@ + res.1)),
                },
            decreases polys.len() - i,
        {
            let poly = &self.uni_polys[i];
            let zero: Fp<P> = Fp::zero();
            let one: Fp<P> = Fp::from_u64(1);
            let p_0 = poly.evaluate(&zero);
            let p_1 = poly.evaluate(&one);
            let total = p_0.add(&p_1);
            let ghost rest = polys.subrange(i as int, polys.len() as int);
            proof {
                assert(rest[0] == polys[i as int]);
                assert(one == Fp::<P>::spec_one());
            }
            if !claimed_sum.equals(&total) {
                proof {
                    Fp::<P>::lemma_value_injective(claimed_sum, total);
                    assert(rest.len() > 0);
                    assert(verify_uni_rounds(transcript.state(), claimed_sum, rest) is None);
                    assert(outcome is None);
                    lemma_verify_rounds_sound(be_encoding(self.sum_spec().value(), 8), self.sum_spec(), self.rounds());
                }
                return None;
            }
            proof {
                Fp::<P>::lemma_value_injective(claimed_sum, total);
            }
            let bytes = poly.to_bytes();
            transcript.append(bytes.as_slice());
            let challenge = transcript.sample_field_element::<P>();
            claimed_sum = poly.evaluate(&challenge);
            let ghost before = challenges@;
            challenges.push(challenge);
            proof {
                assert(rest.drop_first() =~= polys.subrange(i + 1, polys.len() as int));
                match verify_uni_rounds(transcript.state(), claimed_sum, polys.subrange(i + 1, polys.len() as int)) {
                    None => {},
                    Some(res) => {
                        assert(before + (seq![challenge] + res.1) =~= challenges@ + res.1);
                    },
                }
            }
            i = i + 1;
        }
        proof {
            assert(polys.subrange(i as int, polys.len() as int) =~= Seq::<UnivariatePolynomial<P>>::empty());
            assert(challenges@ + Seq::<Fp<P>>::empty() =~= challenges@);
            lemma_verify_rounds_sound(be_encoding(self.sum_spec().value(), 8), self.sum_spec(), self.rounds());
        }
        Some(SubClaim { sum: claimed_sum, challenges })
    }
}

/// The transcript state after the round polynomials `polys`, each absorbed
/// and followed by a challenge, from state `state`.
pub open spec fn uni_state<const P: u64>(state: Seq<u8>, polys: Seq<UnivariatePolynomial<P>>) -> Seq<u8>
    decreases polys.len(),
{
    if polys.len() == 0 {
        state
    } else {
        keccak256(uni_state(state, polys.drop_last()) + coefficient_bytes(polys.last().coeffs()))
    }
}

/// The challenges drawn after each of the round polynomials `polys`, from state `state`.
pub open spec fn uni_challenges<const P: u64>(state: Seq<u8>, polys: Seq<UnivariatePolynomial<P>>) -> Seq<Fp<P>>
    decreases polys.len(),
{
    if polys.len() == 0 {
        Seq::empty()
    } else {
        uni_challenges(state, polys.drop_last()).push(challenge_element::<P>(uni_state(state, polys)))
    }
}

/// A well-formed extension that fits has a variable count that fits in a `usize`.
proof fn lemma_vars_fit<const P: u64>(g: GateEvalExtension<P>)
    requires
        g.wf(),
        g.fits(),
    ensures
        g.vars() < 2 * usize::BITS,
        g.vars() <= usize::MAX,
{
    vstd::layout::unsigned_int_max_values();
    if g.parts() > 0 {
        assert(g.adds()[0].0 < usize::BITS);
    }
    assert(usize::BITS == 32 || usize::BITS == 64);
}

/// What the value of part `i` of `f` at `xs` comes to: an error when `xs`
/// is too short for `b` or when a polynomial refuses its values, else
/// `add(r, b, c) * (W(b) + W(c)) + mul(r, b, c) * (W(b) * W(c))`.
pub open spec fn part_outcome<const P: u64>(f: GateEvalExtension<P>, i: int, xs: Seq<Fp<P>>) -> Result<Fp<P>, &'static str> {
    let mid = f.wbs()[i].0;
    let rbc = f.point() + xs;
    if mid > xs.len() {
        Err("evaluate requires an assignment for every variable")
    } else {
        match eval_model(f.wbs()[i].0, f.wbs()[i].1, xs.subrange(0, mid as int)) {
            Err(e) => Err(e),
            Ok(b) => match eval_model(f.wcs()[i].0, f.wcs()[i].1, xs.subrange(mid as int, xs.len() as int)) {
                Err(e) => Err(e),
                Ok(c) => match eval_model(f.adds()[i].0, f.adds()[i].1, rbc) {
                    Err(e) => Err(e),
                    Ok(a) => match eval_model(f.muls()[i].0, f.muls()[i].1, rbc) {
                        Err(e) => Err(e),
                        Ok(m) => Ok(a.spec_mul(b.spec_add(c)).spec_add(m.spec_mul(b.spec_mul(c)))),
                    },
                },
            },
        }
    }
}

/// The sum of the first `k` parts' values at `xs`, or the first part's error.
pub open spec fn gate_outcome<const P: u64>(f: GateEvalExtension<P>, xs: Seq<Fp<P>>, k: nat) -> Result<Fp<P>, &'static str>
    decreases k,
{
    if k == 0 {
        Ok(Fp::<P>::spec_zero())
    } else {
        match gate_outcome(f, xs, (k - 1) as nat) {
            Err(e) => Err(e),
            Ok(t) => match part_outcome(f, k - 1, xs) {
                Err(e) => Err(e),
                Ok(v) => Ok(t.spec_add(v)),
            },
        }
    }
}

/// The point `prefix ++ [x] ++ y`, where `y` holds the low `free` bits of `idx`, lowest first.
pub open spec fn cube_point<const P: u64>(prefix: Seq<Fp<P>>, x: Fp<P>, idx: nat, free: nat) -> Seq<Fp<P>> {
    prefix.push(x) + Seq::new(free, |t: int| Fp::<P>::from_nat(if bit_of(idx, t as nat) { 1 } else { 0 }))
}

/// Once a part fails, the sum fails with that part's error.
proof fn lemma_gate_err<const P: u64>(f: GateEvalExtension<P>, xs: Seq<Fp<P>>, j: nat, k: nat)
    requires
        j <= k,
        gate_outcome(f, xs, j) is Err,
    ensures
        gate_outcome(f, xs, k) == gate_outcome(f, xs, j),
    decreases k - j,
{
    if j < k {
        lemma_gate_err(f, xs, j, (k - 1) as nat);
    }
}

/// The sum of `f`'s values at the first `count` cube points, or the first error.
pub open spec fn summed_outcome<const P: u64>(
    f: GateEvalExtension<P>,
    prefix: Seq<Fp<P>>,
    x: Fp<P>,
    free: nat,
    count: nat,
) -> Result<Fp<P>, &'static str>
    decreases count,
{
    if count == 0 {
        Ok(Fp::<P>::spec_zero())
    } else {
        match summed_outcome(f, prefix, x, free, (count - 1) as nat) {
            Err(e) => Err(e),
            Ok(t) => match gate_outcome(f, cube_point(prefix, x, (count - 1) as nat, free), f.parts()) {
                Err(e) => Err(e),
                Ok(v) => Ok(t.spec_add(v)),
            },
        }
    }
}

/// The round polynomial after the challenges `prefix`: the polynomial through
/// the sums over the free variables at `0`, `1` and `2`.
pub open spec fn round_coeffs<const P: u64>(f: GateEvalExtension<P>, prefix: Seq<Fp<P>>, free: nat) -> Seq<Fp<P>> {
    lagrange_sum(
        index_points::<P>(3),
        Seq::new(3, |x: int| summed_outcome(f, prefix, Fp::<P>::from_nat(x as nat), free, pow2(free))->Ok_0),
        3,
    )
}

/// The value of part `i` of `f` at `xs`, with `rbc` the output label followed by `xs`.
fn part_value_of<const P: u64>(f: &GateEvalExtension<P>, i: usize, xs: &[Fp<P>], rbc: &[Fp<P>]) -> (r: Result<
    Fp<P>,
    &'static str,
>)
    requires
        0 < P,
        f.wf(),
        i < f.parts(),
        rbc@ == f.point() + xs@,
    ensures
        r == part_outcome(*f, i as int, xs@),
{
    let adds = f.add_mles();
    let muls = f.mul_mles();
    let wbs = f.w_b_mles();
    let wcs = f.w_c_mles();
    proof {
        assert(model_wf(f.adds()[i as int]));
        assert(f.adds()[i as int] == poly_model(adds@[i as int]));
        assert(f.muls()[i as int] == poly_model(muls@[i as int]));
        assert(f.wbs()[i as int] == poly_model(wbs@[i as int]));
        assert(f.wcs()[i as int] == poly_model(wcs@[i as int]));
        adds@[i as int].lemma_wf_iff();
        muls@[i as int].lemma_wf_iff();
        wbs@[i as int].lemma_wf_iff();
        wcs@[i as int].lemma_wf_iff();
    }
    let mid = wbs[i].n_vars();
    if mid > xs.len() {
        return Err("evaluate requires an assignment for every variable");
    }
    let bs = segment(xs, 0, mid);
    let cs = segment(xs, mid, xs.len());
    let b_val = evaluate_mle(&wbs[i], bs.as_slice())?;
    let c_val = evaluate_mle(&wcs[i], cs.as_slice())?;
    let a_val = evaluate_mle(&adds[i], rbc)?;
    let m_val = evaluate_mle(&muls[i], rbc)?;
    Ok(a_val.mul(&b_val.add(&c_val)).add(&m_val.mul(&b_val.mul(&c_val))))
}

/// The value of the extension at `xs`, summed over its parts as
/// `add(r, b, c) * (W(b) + W(c)) + mul(r, b, c) * (W(b) * W(c))`, where `b`
/// takes as many values of `xs` as each part's `W(b)` has variables. Fails
/// when `xs` is too short.
fn gate_value<const P: u64>(f: &GateEvalExtension<P>, xs: &[Fp<P>]) -> (r: Result<Fp<P>, &'static str>)
    requires
        0 < P,
        f.wf(),
    ensures
        r == gate_outcome(*f, xs@, f.parts()),
{
    let adds = f.add_mles();
    let muls = f.mul_mles();
    let wbs = f.w_b_mles();
    let wcs = f.w_c_mles();
    let mut rbc = to_vec(f.r().as_slice());
    let mut tail = to_vec(xs);
    rbc.append(&mut tail);
    let mut total: Fp<P> = Fp::zero();
    let n = adds.len();
    let mut i: usize = 0;
    while i < n
        invariant
            0 < P,
            f.wf(),
            n == adds@.len(),
            models(adds@) == f.adds(),
            models(muls@) == f.muls(),
            models(wbs@) == f.wbs(),
            models(wcs@) == f.wcs(),
            i <= n,
            rbc@ == f.point() + xs@,
            gate_outcome(*f, xs@, i as nat) == Ok::<Fp<P>, &'static str>(total),
        decreases n - i,
    {
        proof {
            assert(model_wf(f.adds()[i as int]));
            assert(f.adds()[i as int] == poly_model(adds@[i as int]));
            assert(f.muls()[i as int] == poly_model(muls@[i as int]));
            assert(f.wbs()[i as int] == poly_model(wbs@[i as int]));
            assert(f.wcs()[i as int] == poly_model(wcs@[i as int]));
            adds@[i as int].lemma_wf_iff();
            muls@[i as int].lemma_wf_iff();
            wbs@[i as int].lemma_wf_iff();
            wcs@[i as int].lemma_wf_iff();
        }
        let part = match part_value_of(f, i, xs, rbc.as_slice()) {
            Ok(v) => v,
            Err(e) => {
                proof {
                    lemma_gate_err(*f, xs@, (i + 1) as nat, f.parts());
                }
                return Err(e);
            },
        };
        total = total.add(&part);
        i = i + 1;
    }
    proof {
        assert(n == f.parts());
    }
    Ok(total)
}

/// Every polynomial of a part gets enough values from a point of `vars()` values.
proof fn lemma_part_ok<const P: u64>(f: GateEvalExtension<P>, i: int, xs: Seq<Fp<P>>)
    requires
        f.wf(),
        f.fits(),
        f.points_fit(),
        0 <= i < f.parts(),
        xs.len() == f.vars(),
    ensures
        part_outcome(f, i, xs) is Ok,
{
    assert(f.adds()[i].0 < usize::BITS);
    assert(f.wbs()[i].0 <= f.vars());
}

/// At a point of `vars()` values every part has a value.
proof fn lemma_gate_ok<const P: u64>(f: GateEvalExtension<P>, xs: Seq<Fp<P>>, k: nat)
    requires
        f.wf(),
        f.fits(),
        f.points_fit(),
        k <= f.parts(),
        xs.len() == f.vars(),
    ensures
        gate_outcome(f, xs, k) is Ok,
    decreases k,
{
    if k > 0 {
        lemma_gate_ok(f, xs, (k - 1) as nat);
        lemma_part_ok(f, k - 1, xs);
    }
}

/// The cube points have `vars()` values, so their sum has a value.
proof fn lemma_summed_ok<const P: u64>(f: GateEvalExtension<P>, prefix: Seq<Fp<P>>, x: Fp<P>, free: nat, count: nat)
    requires
        f.wf(),
        f.fits(),
        f.points_fit(),
        prefix.len() + 1 + free == f.vars(),
    ensures
        summed_outcome(f, prefix, x, free, count) is Ok,
    decreases count,
{
    if count > 0 {
        lemma_summed_ok(f, prefix, x, free, (count - 1) as nat);
        lemma_gate_ok(f, cube_point(prefix, x, (count - 1) as nat, free), f.parts());
    }
}

/// Once a cube point fails, the sum fails with that error.
proof fn lemma_summed_err<const P: u64>(
    f: GateEvalExtension<P>,
    prefix: Seq<Fp<P>>,
    x: Fp<P>,
    free: nat,
    j: nat,
    k: nat,
)
    requires
        j <= k,
        summed_outcome(f, prefix, x, free, j) is Err,
    ensures
        summed_outcome(f, prefix, x, free, k) == summed_outcome(f, prefix, x, free, j),
    decreases k - j,
{
    if j < k {
        lemma_summed_err(f, prefix, x, free, j, (k - 1) as nat);
    }
}

/// Bit `t` of `idx`, as a number.
proof fn lemma_low_bit(idx: u64, t: u64)
    requires
        t < 64,
    ensures
        ((idx >> t) & 1u64) as nat == if bit_of(idx as nat, t as nat) { 1nat } else { 0nat },
{
    vstd::bits::lemma_u64_shr_is_div(idx, t);
    let y = idx >> t;
    assert(y & 1u64 == y % 2) by (bit_vector);
}

/// The sum of the extension's values at `prefix ++ [x] ++ y` over every `y`
/// in `{0, 1}^free` (see `summed_outcome`).
fn summed_value<const P: u64>(f: &GateEvalExtension<P>, prefix: &[Fp<P>], x: Fp<P>, free: usize) -> (r: Result<
    Fp<P>,
    &'static str,
>)
    requires
        0 < P,
        f.wf(),
        free <= 62,
    ensures
        r == summed_outcome(*f, prefix@, x, free as nat, pow2(free as nat)),
{
    proof {
        vstd::bits::lemma_u64_pow2_no_overflow(free as nat);
        vstd::bits::lemma_u64_shl_is_mul(1, free as u64);
    }
    let count: u64 = 1u64 << (free as u64);
    let mut acc: Fp<P> = Fp::zero();
    let mut idx: u64 = 0;
    while idx < count
        invariant
            0 < P,
            f.wf(),
            free <= 62,
            count == pow2(free as nat),
            idx <= count,
            summed_outcome(*f, prefix@, x, free as nat, idx as nat) == Ok::<Fp<P>, &'static str>(acc),
        decreases count - idx,
    {
        let mut point = to_vec(prefix);
        point.push(x);
        let mut t: usize = 0;
        while t < free
            invariant
                0 < P,
                t <= free,
                free <= 62,
                point@ == prefix@.push(x) + Seq::new(
                    t as nat,
                    |s: int| Fp::<P>::from_nat(if bit_of(idx as nat, s as nat) { 1 } else { 0 }),
                ),
            decreases free - t,
        {
            let bit: u64 = (idx >> (t as u64)) & 1u64;
            proof {
                lemma_low_bit(idx, t as u64);
            }
            point.push(Fp::from_u64(bit));
            proof {
                assert(point@ =~= prefix@.push(x) + Seq::new(
                    (t + 1) as nat,
                    |s: int| Fp::<P>::from_nat(if bit_of(idx as nat, s as nat) { 1 } else { 0 }),
                ));
            }
            t = t + 1;
        }
        let v = match gate_value(f, point.as_slice()) {
            Ok(v) => v,
            Err(e) => {
                proof {
                    lemma_summed_err(*f, prefix@, x, free as nat, (idx + 1) as nat, pow2(free as nat));
                }
                return Err(e);
            },
        };
        acc = acc.add(&v);
        idx = idx + 1;
    }
    Ok(acc)
}

/// Generate a sumcheck proof for the extension `f` and the claimed `sum`
/// that makes no statement about `f`, with the challenges drawn: round `i`
/// sends the polynomial (of degree at most two) through the values at `0`,
/// `1` and `2` of `x -> sum over y of f(challenges, x, y)`. Fails when the
/// extension has more variables than can be summed over, when the field has
/// fewer than three elements, or when an evaluation fails.
pub fn prove_partial_gate<const P: u64>(f: &GateEvalExtension<P>, sum: Fp<P>) -> (r: Result<
    (GateSumcheckProof<P>, Vec<Fp<P>>),
    &'static str,
>)
    requires
        is_prime(P as nat),
        f.wf(),
        f.fits(),
    ensures
        P < 3 ==> r == Err::<(GateSumcheckProof<P>, Vec<Fp<P>>), &'static str>(
            "the field is too small for the round polynomials",
        ),
        P >= 3 && f.vars() > 63 ==> r == Err::<(GateSumcheckProof<P>, Vec<Fp<P>>), &'static str>(
            "too many variables to sum over",
        ),
        P >= 3 && f.vars() <= 63 && !f.points_fit() ==> r == Err::<(GateSumcheckProof<P>, Vec<Fp<P>>), &'static str>(
            "the extension's polynomials do not fit its variables",
        ),
        P >= 3 && f.vars() <= 63 && f.points_fit() ==> r is Ok,
        r matches Ok(res) ==> {
            &&& res.0.sum_spec() == sum
            &&& res.0.rounds().len() == f.vars()
            &&& res.1@ == uni_challenges(be_encoding(sum.value(), 8), res.0.rounds())
            &&& forall|i: int|
                0 <= i < f.vars() ==> (#[trigger] res.0.rounds()[i]).coeffs() == round_coeffs(
                    *f,
                    res.1@.subrange(0, i),
                    (f.vars() - i - 1) as nat,
                )
        },
{
    proof {
        lemma_vars_fit(*f);
        assert(P > 1) by {
            assert(is_prime(P as nat));
        }
    }
    if P < 3 {
        return Err("the field is too small for the round polynomials");
    }
    let n = f.n_vars();
    if n > 63 {
        return Err("too many variables to sum over");
    }
    if !f.points_fit_check() {
        return Err("the extension's polynomials do not fit its variables");
    }
    let mut transcript = Transcript::new();
    let sum_bytes = sum.to_bytes_be();
    transcript.append(sum_bytes.as_slice());
    let ghost state0 = transcript.state();
    proof {
        assert(state0 =~= be_encoding(sum.value(), 8));
    }
    let mut uni_polys: Vec<UnivariatePolynomial<P>> = Vec::new();
    let mut challenges: Vec<Fp<P>> = Vec::new();
    let mut round: usize = 0;
    while round < n
        invariant
            is_prime(P as nat),
            3 <= P,
            f.wf(),
            f.fits(),
            f.points_fit(),
            n == f.vars(),
            n <= 63,
            round <= n,
            uni_polys@.len() == round,
            challenges@.len() == round,
            state0 == be_encoding(sum.value(), 8),
            transcript.state() == uni_state(state0, uni_polys@),
            challenges@ == uni_challenges(state0, uni_polys@),
            forall|t: int|
                0 <= t < round ==> (#[trigger] uni_polys@[t]).coeffs() == round_coeffs(
                    *f,
                    challenges@.subrange(0, t),
                    (n - t - 1) as nat,
                ),
        decreases n - round,
    {
        let free = n - round - 1;
        let mut ys: Vec<Fp<P>> = Vec::new();
        let mut x: u64 = 0;
        while x < 3
            invariant
                3 <= P,
                f.wf(),
                f.fits(),
                f.points_fit(),
                challenges@.len() + 1 + free == f.vars(),
                free <= 62,
                x <= 3,
                ys@.len() == x,
                forall|j: int|
                    0 <= j < x ==> #[trigger] ys@[j] == summed_outcome(
                        *f,
                        challenges@,
                        Fp::<P>::from_nat(j as nat),
                        free as nat,
                        pow2(free as nat),
                    )->Ok_0,
            decreases 3 - x,
        {
            let v = match summed_value(f, challenges.as_slice(), Fp::from_u64(x), free) {
                Ok(v) => v,
                Err(e) => {
                    proof {
                        lemma_summed_ok(*f, challenges@, Fp::<P>::from_nat(x as nat), free as nat, pow2(free as nat));
                    }
                    return Err(e);
                },
            };
            ys.push(v);
            x = x + 1;
        }
        proof {
            assert(ys@ =~= Seq::new(
                3,
                |j: int| summed_outcome(*f, challenges@, Fp::<P>::from_nat(j as nat), free as nat, pow2(free as nat))->Ok_0,
            ));
            assert(challenges@.subrange(0, round as int) =~= challenges@);
        }
        let ghost old_ch = challenges@;
        let uni = UnivariatePolynomial::interpolate(ys);
        let bytes = uni.to_bytes();
        transcript.append(bytes.as_slice());
        let ghost before = uni_polys@;
        uni_polys.push(uni);
        let challenge = transcript.sample_field_element::<P>();
        challenges.push(challenge);
        proof {
            assert(uni_polys@.drop_last() =~= before);
            assert forall|t: int| 0 <= t < round + 1 implies (#[trigger] uni_polys@[t]).coeffs() == round_coeffs(
                *f,
                challenges@.subrange(0, t),
                (n - t - 1) as nat,
            ) by {
                assert(challenges@.subrange(0, t) =~= old_ch.subrange(0, t));
                if t < round {
                    assert(uni_polys@[t] == before[t]);
                }
            }
        }
        round = round + 1;
    }
    Ok((GateSumcheckProof { sum, uni_polys }, challenges))
}

/// Every layer of `c` gives its wiring polynomials.
pub open spec fn gkr_ready(c: Circuit) -> bool {
    forall|i: int|
        0 <= i < c.layers_spec().len() ==> {
            &&& 0 <= #[trigger] c.next_len(i) <= isize::MAX
            &&& mle_ready(c.layers_spec()[i], c.next_len(i) as nat)
            &&& (i == c.layers_spec().len() - 1 ==> inputs_fit_isize(c.layers_spec()[i]))
        }
}

/// The first `k` rounds of an honest sumcheck over `f` from transcript state
/// `st`: the round polynomials' coefficients, the challenges and the state after.
pub open spec fn gate_rounds_data<const P: u64>(f: GateEvalExtension<P>, st: Seq<u8>, k: nat) -> (
    Seq<Seq<Fp<P>>>,
    Seq<Fp<P>>,
    Seq<u8>,
)
    decreases k,
{
    if k == 0 {
        (Seq::empty(), Seq::empty(), st)
    } else {
        let prev = gate_rounds_data(f, st, (k - 1) as nat);
        let c = round_coeffs(f, prev.1, (f.vars() - k) as nat);
        let h = keccak256(prev.2 + coefficient_bytes(c));
        (prev.0.push(c), prev.1.push(challenge_element::<P>(h)), h)
    }
}

/// The encodings of coefficient lists, one after another.
pub open spec fn coeffs_encoding<const P: u64>(cs: Seq<Seq<Fp<P>>>) -> Seq<u8>
    decreases cs.len(),
{
    if cs.len() == 0 {
        Seq::empty()
    } else {
        coeffs_encoding(cs.drop_last()) + coefficient_bytes(cs.last())
    }
}

/// Round polynomials are encoded by their coefficients.
proof fn lemma_rounds_encoding<const P: u64>(polys: Seq<UnivariatePolynomial<P>>)
    ensures
        uni_rounds_encoding(polys) == coeffs_encoding(coeff_lists(polys)),
    decreases polys.len(),
{
    if polys.len() > 0 {
        lemma_rounds_encoding(polys.drop_last());
        assert(coeff_lists(polys).drop_last() =~= coeff_lists(polys.drop_last()));
    }
}

/// Parts with the same label and polynomials have the same values.
proof fn lemma_same_outcomes<const P: u64>(f: GateEvalExtension<P>, g: GateEvalExtension<P>, xs: Seq<Fp<P>>, k: nat)
    requires
        f.same_as(g),
    ensures
        gate_outcome(f, xs, k) == gate_outcome(g, xs, k),
    decreases k,
{
    if k > 0 {
        lemma_same_outcomes(f, g, xs, (k - 1) as nat);
        assert(part_outcome(f, k - 1, xs) == part_outcome(g, k - 1, xs));
    }
}

/// Sums over the cube agree for extensions with the same label and polynomials.
proof fn lemma_same_summed<const P: u64>(
    f: GateEvalExtension<P>,
    g: GateEvalExtension<P>,
    prefix: Seq<Fp<P>>,
    x: Fp<P>,
    free: nat,
    count: nat,
)
    requires
        f.same_as(g),
    ensures
        summed_outcome(f, prefix, x, free, count) == summed_outcome(g, prefix, x, free, count),
    decreases count,
{
    if count > 0 {
        lemma_same_summed(f, g, prefix, x, free, (count - 1) as nat);
        lemma_same_outcomes(f, g, cube_point(prefix, x, (count - 1) as nat, free), f.parts());
    }
}

/// Honest rounds agree for extensions with the same label and polynomials.
pub proof fn lemma_same_rounds<const P: u64>(f: GateEvalExtension<P>, g: GateEvalExtension<P>, st: Seq<u8>, k: nat)
    requires
        f.same_as(g),
    ensures
        gate_rounds_data(f, st, k) == gate_rounds_data(g, st, k),
        f.vars() == g.vars(),
    decreases k,
{
    if k > 0 {
        lemma_same_rounds(f, g, st, (k - 1) as nat);
        let prev = gate_rounds_data(f, st, (k - 1) as nat);
        let free = (f.vars() - k) as nat;
        assert forall|x: int| 0 <= x < 3 implies #[trigger] summed_outcome(f, prev.1, Fp::<P>::from_nat(x as nat), free, pow2(free))
            == summed_outcome(g, prev.1, Fp::<P>::from_nat(x as nat), free, pow2(free)) by {
            lemma_same_summed(f, g, prev.1, Fp::<P>::from_nat(x as nat), free, pow2(free));
        }
        assert(Seq::new(3, |x: int| summed_outcome(f, prev.1, Fp::<P>::from_nat(x as nat), free, pow2(free))->Ok_0)
            =~= Seq::new(3, |x: int| summed_outcome(g, prev.1, Fp::<P>::from_nat(x as nat), free, pow2(free))->Ok_0));
        assert(round_coeffs(f, prev.1, free) == round_coeffs(g, prev.1, free));
    }
}

/// The challenges of a prefix of the rounds are a prefix of the challenges.
proof fn lemma_challenges_prefix<const P: u64>(st: Seq<u8>, polys: Seq<UnivariatePolynomial<P>>, k: int)
    requires
        0 <= k <= polys.len(),
    ensures
        uni_challenges(st, polys.subrange(0, k)) == uni_challenges(st, polys).subrange(0, k),
        uni_challenges(st, polys).len() == polys.len(),
    decreases polys.len(),
{
    if polys.len() > 0 {
        if k == polys.len() {
            assert(polys.subrange(0, k) =~= polys);
            lemma_challenges_prefix(st, polys.drop_last(), k - 1);
            assert(uni_challenges(st, polys).subrange(0, k) =~= uni_challenges(st, polys));
        } else {
            assert(polys.drop_last().subrange(0, k) =~= polys.subrange(0, k));
            lemma_challenges_prefix(st, polys.drop_last(), k);
            assert(uni_challenges(st, polys).subrange(0, k) =~= uni_challenges(st, polys.drop_last()).subrange(0, k));
        }
    }
}

/// The rounds `prove_partial_gate` promises are the honest rounds.
#[verifier::spinoff_prover]
#[verifier::rlimit(40)]
pub proof fn lemma_rounds_are_honest<const P: u64>(
    f: GateEvalExtension<P>,
    st: Seq<u8>,
    polys: Seq<UnivariatePolynomial<P>>,
    ch: Seq<Fp<P>>,
    k: nat,
)
    requires
        polys.len() == f.vars(),
        k <= f.vars(),
        ch == uni_challenges(st, polys),
        forall|i: int|
            0 <= i < f.vars() ==> (#[trigger] polys[i]).coeffs() == round_coeffs(f, ch.subrange(0, i), (f.vars() - i - 1) as nat),
    ensures
        gate_rounds_data(f, st, k).0 == coeff_lists(polys.subrange(0, k as int)),
        gate_rounds_data(f, st, k).1 == ch.subrange(0, k as int),
        gate_rounds_data(f, st, k).2 == uni_state(st, polys.subrange(0, k as int)),
    decreases k,
{
    lemma_challenges_prefix(st, polys, k as int);
    if k == 0 {
        assert(coeff_lists(polys.subrange(0, 0)) =~= Seq::<Seq<Fp<P>>>::empty());
        assert(ch.subrange(0, 0) =~= Seq::<Fp<P>>::empty());
        assert(polys.subrange(0, 0) =~= Seq::<UnivariatePolynomial<P>>::empty());
    } else {
        let h = (k - 1) as nat;
        lemma_rounds_are_honest(f, st, polys, ch, h);
        lemma_challenges_prefix(st, polys, h as int);
        let pre = polys.subrange(0, k as int);
        assert(pre.drop_last() =~= polys.subrange(0, h as int));
        assert(pre.last() == polys[h as int]);
        assert(coeff_lists(pre) =~= coeff_lists(polys.subrange(0, h as int)).push(polys[h as int].coeffs()));
        assert(uni_challenges(st, pre) =~= uni_challenges(st, pre.drop_last()).push(challenge_element::<P>(uni_state(st, pre))));
    }
}

/// Whether every layer of `c` gives its wiring polynomials (see `gkr_ready`).
pub fn gkr_ready_check(c: &Circuit) -> (r: bool)
    ensures
        r == gkr_ready(*c),
{
    let layers = c.layers();
    let n = layers.len();
    let mut i: usize = 0;
    while i < n
        invariant
            n == c.layers_spec().len(),
            layers@ == c.layers_spec(),
            i <= n,
            forall|j: int|
                0 <= j < i ==> {
                    &&& 0 <= #[trigger] c.next_len(j) <= isize::MAX
                    &&& mle_ready(c.layers_spec()[j], c.next_len(j) as nat)
                    &&& (j == c.layers_spec().len() - 1 ==> inputs_fit_isize(c.layers_spec()[j]))
                },
        decreases n - i,
    {
        let next: usize = if i == n - 1 {
            if !layers[i].inputs_fit_check() {
                proof {
                    assert(!(j_ready(*c, i as int)));
                    assert(layers@[i as int] == c.layers_spec()[i as int]);
                    assert(!inputs_fit_isize(c.layers_spec()[i as int]));
                    assert((i as int) == c.layers_spec().len() - 1);
                    if gkr_ready(*c) {
                        lemma_ready_at(*c, i as int);
                    }
                }
                return false;
            }
            let m = layers[i].max_input_index();
            if m == isize::MAX {
                proof {
                    assert(!(j_ready(*c, i as int)));
                }
                return false;
            }
            (m + 1) as usize
        } else {
            let len = layers[i + 1].len();
            if len > isize::MAX as usize {
                proof {
                    assert(!(j_ready(*c, i as int)));
                }
                return false;
            }
            len
        };
        proof {
            assert(next as int == c.next_len(i as int));
        }
        if !layers[i].mle_ready_check(next) {
            proof {
                assert(!(j_ready(*c, i as int)));
            }
            return false;
        }
        proof {
            assert(j_ready(*c, i as int));
        }
        i = i + 1;
    }
    true
}

/// A ready circuit has every layer ready.
proof fn lemma_ready_at(c: Circuit, i: int)
    requires
        gkr_ready(c),
        0 <= i < c.layers_spec().len(),
    ensures
        j_ready(c, i),
{
    assert(0 <= c.next_len(i) <= isize::MAX);
}

/// Layer `i` of `c` gives its wiring polynomials.
pub open spec fn j_ready(c: Circuit, i: int) -> bool {
    &&& 0 <= c.next_len(i) <= isize::MAX
    &&& mle_ready(c.layers_spec()[i], c.next_len(i) as nat)
    &&& (i == c.layers_spec().len() - 1 ==> inputs_fit_isize(c.layers_spec()[i]))
}

/// The addition wiring polynomial of layer `i` of `c`: its variable count and terms.
pub open spec fn add_model<const P: u64>(c: Circuit, i: int) -> (nat, Map<usize, Fp<P>>) {
    let layer = c.layers_spec()[i];
    let ov = bit_len((layer.len_spec() - 1) as nat);
    let iv = bit_len((c.next_len(i) - 1) as nat);
    (if layer.adds().len() == 0 { 0 } else { ov + 2 * iv }, gates_mle::<P>(layer.adds(), ov, iv, layer.adds().len()))
}

/// The multiplication wiring polynomial of layer `i` of `c`.
pub open spec fn mul_model<const P: u64>(c: Circuit, i: int) -> (nat, Map<usize, Fp<P>>) {
    let layer = c.layers_spec()[i];
    let ov = bit_len((layer.len_spec() - 1) as nat);
    let iv = bit_len((c.next_len(i) - 1) as nat);
    (if layer.muls().len() == 0 { 0 } else { ov + 2 * iv }, gates_mle::<P>(layer.muls(), ov, iv, layer.muls().len()))
}

/// The multilinear extension of `values` (as `interpolate` builds it) evaluated at `xs`.
pub open spec fn values_eval<const P: u64>(values: Seq<Fp<P>>, xs: Seq<Fp<P>>) -> Result<Fp<P>, &'static str> {
    if values.len() == 0 {
        eval_model(0, Map::<usize, Fp<P>>::empty(), xs)
    } else {
        let n = bit_len((values.len() - 1) as nat);
        eval_model(n, interpolation_terms(values, n), xs)
    }
}

/// The verifier's layer checks from transcript state `state`, point `r` and
/// claim `m`, with the layer proofs and line restrictions from position
/// `idx` of the circuit on: an error, `Ok(None)` when a final sumcheck check
/// fails, or `Ok(Some((r, m)))`, the point and claim left for the input layer.
pub open spec fn gkr_rounds<const P: u64>(
    c: Circuit,
    state: Seq<u8>,
    r: Seq<Fp<P>>,
    m: Fp<P>,
    proofs: Seq<GateSumcheckProof<P>>,
    qs: Seq<UnivariatePolynomial<P>>,
    idx: nat,
) -> Result<Option<(Seq<Fp<P>>, Fp<P>)>, &'static str>
    decreases proofs.len(),
{
    if proofs.len() == 0 || qs.len() == 0 {
        Ok(Some((r, m)))
    } else {
        let pf = proofs[0];
        let qc = qs[0].coeffs();
        let sum_bytes = be_encoding(pf.sum_spec().value(), 8);
        if pf.sum_spec() != m {
            Err("invalid sumcheck proof")
        } else {
            match verify_uni_rounds(sum_bytes, pf.sum_spec(), pf.rounds()) {
                None => Err("failed to verify partial sumcheck proof"),
                Some(sc) => {
                    let ch = sc.1;
                    if ch.len() % 2 != 0 {
                        Err("challenges b and c should be the same length")
                    } else if idx >= c.layers_spec().len() {
                        Err("invalid layer index")
                    } else {
                        let rbc = r + ch;
                        let am = add_model::<P>(c, idx as int);
                        let mm = mul_model::<P>(c, idx as int);
                        match eval_model(am.0, am.1, rbc) {
                            Err(e) => Err(e),
                            Ok(a) => match eval_model(mm.0, mm.1, rbc) {
                                Err(e) => Err(e),
                                Ok(mu) => {
                                    let wb = horner(qc, Fp::<P>::spec_zero());
                                    let wc = horner(qc, Fp::<P>::spec_one());
                                    let f = a.spec_mul(wb.spec_add(wc)).spec_add(mu.spec_mul(wb.spec_mul(wc)));
                                    if f != sc.0 {
                                        Ok(None)
                                    } else {
                                        let h = keccak256(state + sum_bytes + uni_rounds_encoding(pf.rounds())
                                            + coefficient_bytes(qc));
                                        let rs = challenge_element::<P>(h);
                                        let half = ch.len() / 2;
                                        let line = line_through(ch.subrange(0, half as int), ch.subrange(half as int, ch.len() as int));
                                        gkr_rounds(c, h, line_point(line, rs), horner(qc, rs), proofs.drop_first(), qs.drop_first(), idx + 1)
                                    }
                                },
                            },
                        }
                    }
                },
            }
        }
    }
}

/// A GKR proof: the output layer's multilinear extension, then per layer a
/// partial sumcheck proof and the next layer's extension restricted to a line.
#[derive(Clone, Debug, PartialEq)]
pub struct GkrProof<const P: u64> {
    output_mle: MultiLinearPolynomial<P>,
    sumcheck_proofs: Vec<GateSumcheckProof<P>>,
    q_functions: Vec<UnivariatePolynomial<P>>,
}

impl<const P: u64> GkrProof<P> {
    /// The output layer's extension.
    pub closed spec fn output_spec(self) -> MultiLinearPolynomial<P> {
        self.output_mle
    }

    /// The layer sumcheck proofs.
    pub closed spec fn proofs_spec(self) -> Seq<GateSumcheckProof<P>> {
        self.sumcheck_proofs@
    }

    /// The line restrictions.
    pub closed spec fn q_spec(self) -> Seq<UnivariatePolynomial<P>> {
        self.q_functions@
    }

    /// The proof is the honest one for `c` and its layer values
    /// `evaluations`: the output layer's extension, and per layer the claim,
    /// the honest sumcheck rounds and the line restriction of `honest_layers`.
    pub open spec fn honest_for(self, c: Circuit, evaluations: Seq<Vec<Fp<P>>>) -> bool {
        let honest = honest_layers(c, evaluations);
        &&& self.output_spec().wf()
        &&& (self.output_spec().num_vars(), self.output_spec().terms()) == w_model(evaluations[0]@)
        &&& self.proofs_spec().len() == evaluations.len() - 1
        &&& self.q_spec().len() == evaluations.len() - 1
        &&& honest.len() == evaluations.len() - 1
        &&& forall|i: int|
            0 <= i < honest.len() ==> {
                &&& (#[trigger] self.proofs_spec()[i]).sum_spec() == honest[i].0
                &&& coeff_lists(self.proofs_spec()[i].rounds()) == honest[i].1
                &&& self.q_spec()[i].coeffs() == honest[i].2
            }
    }

    /// A proof from its parts.
    pub fn new(
        output_mle: MultiLinearPolynomial<P>,
        sumcheck_proofs: Vec<GateSumcheckProof<P>>,
        q_functions: Vec<UnivariatePolynomial<P>>,
    ) -> (r: Self)
        ensures
            r.output_spec() == output_mle,
            r.proofs_spec() == sumcheck_proofs@,
            r.q_spec() == q_functions@,
    {
        GkrProof { output_mle, sumcheck_proofs, q_functions }
    }

    /// The output layer's extension.
    pub fn output_mle(&self) -> (r: &MultiLinearPolynomial<P>)
        ensures
            *r == self.output_spec(),
    {
        &self.output_mle
    }

    /// The layer sumcheck proofs.
    pub fn sumcheck_proofs(&self) -> (r: &Vec<GateSumcheckProof<P>>)
        ensures
            r@ == self.proofs_spec(),
    {
        &self.sumcheck_proofs
    }

    /// The line restrictions.
    pub fn q_functions(&self) -> (r: &Vec<UnivariatePolynomial<P>>)
        ensures
            r@ == self.q_spec(),
    {
        &self.q_functions
    }
}

/// The verdict on `proof` for circuit `c` and `input`: as many line
/// restrictions as layer proofs, the output extension's value at the first
/// challenges, every layer's checks, and finally the input's extension at
/// the last point equal to the last claim.
pub open spec fn gkr_verdict<const P: u64>(c: Circuit, input: Seq<Fp<P>>, proof: GkrProof<P>) -> Result<bool, &'static str> {
    if proof.proofs_spec().len() != proof.q_spec().len() {
        Err("invalid gkr proof")
    } else {
        let out = proof.output_spec();
        let st = out.encoding();
        let r0 = challenge_elements::<P>(st, out.num_vars());
        match eval_outcome(out, r0) {
            Err(e) => Err(e),
            Ok(m0) => match gkr_rounds(c, state_after::<P>(st, out.num_vars()), r0, m0, proof.proofs_spec(), proof.q_spec(), 0) {
                Err(e) => Err(e),
                Ok(None) => Ok(false),
                Ok(Some(last)) => match values_eval(input, last.0) {
                    Err(e) => Err(e),
                    Ok(v) => Ok(v == last.1),
                },
            },
        }
    }
}

/// What the verifier meets when it follows the transcript through the layer
/// proofs and line restrictions, without checking anything: per layer the
/// proof's claimed sum, the running claim, whether every sumcheck round
/// answers its claim, the sumcheck's final claim, and the value
/// `add(r, b, c) * (W(b) + W(c)) + mul(r, b, c) * (W(b) * W(c))` with
/// `W(b) = q(0)` and `W(c) = q(1)` that the final claim must equal.
pub open spec fn layer_trace<const P: u64>(
    c: Circuit,
    state: Seq<u8>,
    r: Seq<Fp<P>>,
    m: Fp<P>,
    proofs: Seq<GateSumcheckProof<P>>,
    qs: Seq<UnivariatePolynomial<P>>,
    idx: nat,
) -> Seq<(Fp<P>, Fp<P>, bool, Fp<P>, Fp<P>)>
    decreases proofs.len(),
{
    if proofs.len() == 0 || qs.len() == 0 {
        Seq::empty()
    } else {
        let pf = proofs[0];
        let qc = qs[0].coeffs();
        let sum_bytes = be_encoding(pf.sum_spec().value(), 8);
        let end = rounds_end(sum_bytes, pf.sum_spec(), pf.rounds());
        let ch = end.1;
        let rbc = r + ch;
        let am = add_model::<P>(c, idx as int);
        let mm = mul_model::<P>(c, idx as int);
        let a = eval_model(am.0, am.1, rbc)->Ok_0;
        let mu = eval_model(mm.0, mm.1, rbc)->Ok_0;
        let wb = horner(qc, Fp::<P>::spec_zero());
        let wc = horner(qc, Fp::<P>::spec_one());
        let f = a.spec_mul(wb.spec_add(wc)).spec_add(mu.spec_mul(wb.spec_mul(wc)));
        let h = keccak256(state + sum_bytes + uni_rounds_encoding(pf.rounds()) + coefficient_bytes(qc));
        let rs = challenge_element::<P>(h);
        let half = ch.len() / 2;
        let line = line_through(ch.subrange(0, half as int), ch.subrange(half as int, ch.len() as int));
        seq![(pf.sum_spec(), m, rounds_consistent(sum_bytes, pf.sum_spec(), pf.rounds()), end.0, f)] + layer_trace(
            c,
            h,
            line_point(line, rs),
            horner(qc, rs),
            proofs.drop_first(),
            qs.drop_first(),
            idx + 1,
        )
    }
}

/// The label and claim left for the input layer after following the
/// transcript through the layers.
pub open spec fn trace_end<const P: u64>(
    c: Circuit,
    state: Seq<u8>,
    r: Seq<Fp<P>>,
    m: Fp<P>,
    proofs: Seq<GateSumcheckProof<P>>,
    qs: Seq<UnivariatePolynomial<P>>,
) -> (Seq<Fp<P>>, Fp<P>)
    decreases proofs.len(),
{
    if proofs.len() == 0 || qs.len() == 0 {
        (r, m)
    } else {
        let pf = proofs[0];
        let qc = qs[0].coeffs();
        let sum_bytes = be_encoding(pf.sum_spec().value(), 8);
        let ch = rounds_end(sum_bytes, pf.sum_spec(), pf.rounds()).1;
        let h = keccak256(state + sum_bytes + uni_rounds_encoding(pf.rounds()) + coefficient_bytes(qc));
        let rs = challenge_element::<P>(h);
        let half = ch.len() / 2;
        let line = line_through(ch.subrange(0, half as int), ch.subrange(half as int, ch.len() as int));
        trace_end(c, h, line_point(line, rs), horner(qc, rs), proofs.drop_first(), qs.drop_first())
    }
}

/// Every layer met on the transcript holds: the proof's sum is the running
/// claim, every sumcheck round answers its claim, and the sumcheck's final
/// claim is the value of the layer's gate equation.
pub open spec fn layers_hold<const P: u64>(t: Seq<(Fp<P>, Fp<P>, bool, Fp<P>, Fp<P>)>) -> bool {
    forall|i: int| 0 <= i < t.len() ==> (#[trigger] t[i]).0 == t[i].1 && t[i].2 && t[i].3 == t[i].4
}

/// A proof's layers hold on the transcript from its output extension, and
/// the input's extension at the last label is the last claim.
pub open spec fn proof_holds<const P: u64>(c: Circuit, input: Seq<Fp<P>>, proof: GkrProof<P>) -> bool {
    let out = proof.output_spec();
    let st = out.encoding();
    let r0 = challenge_elements::<P>(st, out.num_vars());
    let m0 = eval_outcome(out, r0)->Ok_0;
    let st1 = state_after::<P>(st, out.num_vars());
    let t = layer_trace(c, st1, r0, m0, proof.proofs_spec(), proof.q_spec(), 0);
    let end = trace_end(c, st1, r0, m0, proof.proofs_spec(), proof.q_spec());
    &&& t.len() == proof.proofs_spec().len()
    &&& layers_hold(t)
    &&& values_eval(input, end.0) == Ok::<Fp<P>, &'static str>(end.1)
}

/// When the layer checks pass, every layer met on the transcript holds.
proof fn lemma_rounds_hold<const P: u64>(
    c: Circuit,
    state: Seq<u8>,
    r: Seq<Fp<P>>,
    m: Fp<P>,
    proofs: Seq<GateSumcheckProof<P>>,
    qs: Seq<UnivariatePolynomial<P>>,
    idx: nat,
)
    requires
        proofs.len() == qs.len(),
        gkr_rounds(c, state, r, m, proofs, qs, idx) matches Ok(Some(_)),
    ensures
        layers_hold(layer_trace(c, state, r, m, proofs, qs, idx)),
        layer_trace(c, state, r, m, proofs, qs, idx).len() == proofs.len(),
        gkr_rounds(c, state, r, m, proofs, qs, idx)->Ok_0->Some_0 == trace_end(c, state, r, m, proofs, qs),
    decreases proofs.len(),
{
    if proofs.len() > 0 {
        let pf = proofs[0];
        let qc = qs[0].coeffs();
        let sum_bytes = be_encoding(pf.sum_spec().value(), 8);
        lemma_verify_rounds_sound(sum_bytes, pf.sum_spec(), pf.rounds());
        let end = rounds_end(sum_bytes, pf.sum_spec(), pf.rounds());
        let ch = end.1;
        let h = keccak256(state + sum_bytes + uni_rounds_encoding(pf.rounds()) + coefficient_bytes(qc));
        let rs = challenge_element::<P>(h);
        let half = ch.len() / 2;
        let line = line_through(ch.subrange(0, half as int), ch.subrange(half as int, ch.len() as int));
        lemma_rounds_hold(c, h, line_point(line, rs), horner(qc, rs), proofs.drop_first(), qs.drop_first(), idx + 1);
        let t = layer_trace(c, state, r, m, proofs, qs, idx);
        let rest = layer_trace(c, h, line_point(line, rs), horner(qc, rs), proofs.drop_first(), qs.drop_first(), idx + 1);
        assert forall|i: int| 0 <= i < t.len() implies (#[trigger] t[i]).0 == t[i].1 && t[i].2 && t[i].3 == t[i].4 by {
            if i > 0 {
                assert(t[i] == rest[i - 1]);
            }
        }
    }
}

/// Soundness of the checks: a proof that `verify` accepts holds on its
/// transcript. Every layer's sumcheck claims the running claim, its rounds
/// each answer their claim, its final claim is the layer's gate equation
/// `add(r, b, c) * (q(0) + q(1)) + mul(r, b, c) * (q(0) * q(1))`, and the
/// input's extension at the last label is the last claim.
pub proof fn lemma_accepted_proof_holds<const P: u64>(c: Circuit, input: Seq<Fp<P>>, proof: GkrProof<P>)
    requires
        gkr_verdict(c, input, proof) == Ok::<bool, &'static str>(true),
    ensures
        proof_holds(c, input, proof),
{
    let out = proof.output_spec();
    let st = out.encoding();
    let r0 = challenge_elements::<P>(st, out.num_vars());
    let m0 = eval_outcome(out, r0)->Ok_0;
    let st1 = state_after::<P>(st, out.num_vars());
    lemma_rounds_hold(c, st1, r0, m0, proof.proofs_spec(), proof.q_spec(), 0);
}

/// Verify a GKR proof that `circuit` maps `input` to the output layer the
/// proof starts from (see `gkr_verdict`).
pub fn verify<const P: u64>(circuit: &Circuit, input: &Vec<Fp<P>>, proof: GkrProof<P>) -> (r: Result<bool, &'static str>)
    requires
        1 < P,
        proof.proofs_spec().len() != proof.q_spec().len() || gkr_ready(*circuit),
        proof.proofs_spec().len() != proof.q_spec().len() || input@.len() == 0 || bit_len(
            (input@.len() - 1) as nat,
        ) < usize::BITS,
        proof.output_spec().wf(),
    ensures
        r == gkr_verdict(*circuit, input@, proof),
        r == Ok::<bool, &'static str>(true) ==> proof_holds(*circuit, input@, proof),
{
    proof {
        if gkr_verdict(*circuit, input@, proof) == Ok::<bool, &'static str>(true) {
            lemma_accepted_proof_holds(*circuit, input@, proof);
        }
    }
    if proof.sumcheck_proofs.len() != proof.q_functions.len() {
        return Err("invalid gkr proof");
    }
    let mut transcript = Transcript::new();
    let out_bytes = proof.output_mle.to_bytes();
    transcript.append(out_bytes.as_slice());
    proof {
        assert(transcript.state() =~= proof.output_mle.encoding());
    }
    let mut r = transcript.sample_n_field_elements::<P>(proof.output_mle.n_vars());
    let mut m = match evaluate_mle(&proof.output_mle, r.as_slice()) {
        Ok(v) => v,
        Err(e) => {
            return Err(e);
        },
    };
    let ghost proofs = proof.sumcheck_proofs@;
    let ghost qs = proof.q_functions@;
    let ghost outcome = gkr_rounds(*circuit, transcript.state(), r@, m, proofs, qs, 0);
    proof {
        assert(proofs.subrange(0, proofs.len() as int) =~= proofs);
        assert(qs.subrange(0, qs.len() as int) =~= qs);
    }
    let n = proof.sumcheck_proofs.len();
    let mut i: usize = 0;
    while i < n
        invariant
            1 < P,
            gkr_ready(*circuit),
            n == proofs.len(),
            n == qs.len(),
            proofs == proof.sumcheck_proofs@,
            qs == proof.q_functions@,
            i <= n,
            outcome == gkr_rounds(*circuit, transcript.state(), r@, m, proofs.subrange(i as int, n as int), qs.subrange(i as int, n as int), i as nat),
            gkr_verdict(*circuit, input@, proof) == match outcome {
                Err(e) => Err(e),
                Ok(None) => Ok(false),
                Ok(Some(last)) => match values_eval(input@, last.0) {
                    Err(e) => Err(e),
                    Ok(v) => Ok(v == last.1),
                },
            },
        ensures
            outcome == gkr_rounds(*circuit, transcript.state(), r@, m, Seq::<GateSumcheckProof<P>>::empty(), Seq::<UnivariatePolynomial<P>>::empty(), i as nat),
        decreases n - i,
    {
        let ghost rest_p = proofs.subrange(i as int, n as int);
        let ghost rest_q = qs.subrange(i as int, n as int);
        let ghost st = transcript.state();
        proof {
            assert(rest_p[0] == proofs[i as int]);
            assert(rest_q[0] == qs[i as int]);
            assert(rest_p.drop_first() =~= proofs.subrange(i + 1, n as int));
            assert(rest_q.drop_first() =~= qs.subrange(i + 1, n as int));
        }
        let pf = &proof.sumcheck_proofs[i];
        let qf = &proof.q_functions[i];
        if !pf.sum().equals(&m) {
            return Err("invalid sumcheck proof");
        }
        let pb = pf.to_bytes();
        transcript.append(pb.as_slice());
        let qb = qf.to_bytes();
        transcript.append(qb.as_slice());
        let sc = match pf.verify_partial() {
            Some(c) => c,
            None => {
                return Err("failed to verify partial sumcheck proof");
            },
        };
        let len = sc.challenges.len();
        if len % 2 != 0 {
            return Err("challenges b and c should be the same length");
        }
        if i >= circuit.layers().len() {
            return Err("invalid layer index");
        }
        proof {
            assert(0 <= circuit.next_len(i as int) <= isize::MAX);
        }
        let mles = match circuit.add_mul_mle::<P>(i) {
            Ok(v) => v,
            Err(e) => {
                return Err(e);
            },
        };
        let mut rbc = to_vec(r.as_slice());
        let mut tail = to_vec(sc.challenges.as_slice());
        rbc.append(&mut tail);
        let a = match evaluate_mle(&mles[0], rbc.as_slice()) {
            Ok(v) => v,
            Err(e) => {
                return Err(e);
            },
        };
        let mu = match evaluate_mle(&mles[1], rbc.as_slice()) {
            Ok(v) => v,
            Err(e) => {
                return Err(e);
            },
        };
        let zero: Fp<P> = Fp::zero();
        let one: Fp<P> = Fp::from_u64(1);
        let wb = qf.evaluate(&zero);
        let wc = qf.evaluate(&one);
        let f = a.mul(&wb.add(&wc)).add(&mu.mul(&wb.mul(&wc)));
        proof {
            assert(one == Fp::<P>::spec_one());
        }
        if !f.equals(&sc.sum) {
            return Ok(false);
        }
        let half = len / 2;
        let b = segment(sc.challenges.as_slice(), 0, half);
        let c = segment(sc.challenges.as_slice(), half, len);
        let lf = match l(b.as_slice(), c.as_slice()) {
            Ok(v) => v,
            Err(e) => {
                return Err(e);
            },
        };
        proof {
            assert(transcript.state() =~= st + be_encoding(pf.sum_spec().value(), 8) + uni_rounds_encoding(pf.rounds())
                + coefficient_bytes(qf.coeffs()));
        }
        let r_star = transcript.sample_field_element::<P>();
        r = evaluate_l_function(lf.as_slice(), &r_star);
        m = qf.evaluate(&r_star);
        i = i + 1;
    }
    proof {
        assert(proofs.subrange(n as int, n as int) =~= Seq::<GateSumcheckProof<P>>::empty());
    }
    let input_mle = MultiLinearPolynomial::interpolate(input.as_slice());
    let v = match evaluate_mle(&input_mle, r.as_slice()) {
        Ok(v) => v,
        Err(e) => {
            return Err(e);
        },
    };
    Ok(v.equals(&m))
}

/// Gates write into a list without changing its length.
proof fn lemma_apply_gates_len<const P: u64>(acc: Seq<Fp<P>>, gates: Seq<crate::circuit::Gate>, input: Seq<Fp<P>>, is_add: bool)
    requires
        forall|j: int| 0 <= j < gates.len() ==> (#[trigger] gates[j]).out < acc.len(),
    ensures
        apply_gates(acc, gates, input, is_add).len() == acc.len(),
    decreases gates.len(),
{
    if gates.len() > 0 {
        assert(gates.last() == gates[gates.len() - 1]);
        lemma_apply_gates_len(acc, gates.drop_last(), input, is_add);
    }
}

/// A circuit's values have the sizes `prove` needs when every layer holds a
/// gate and is as long as its gates, and the input is as many variables wide
/// as the inputs the last layer reads: then `prove` on the circuit's values
/// succeeds in a field of more than 64 elements.
pub proof fn lemma_values_sizes<const P: u64>(c: Circuit, input: Seq<Fp<P>>, evaluations: Seq<Vec<Fp<P>>>)
    requires
        c.layers_spec().len() > 0,
        forall|i: int|
            0 <= i < c.layers_spec().len() ==> (#[trigger] c.layers_spec()[i]).len_spec() == c.layers_spec()[i].adds().len()
                + c.layers_spec()[i].muls().len() && c.layers_spec()[i].len_spec() > 0,
        input.len() > 0,
        c.wired(input.len()),
        c.next_len(c.layers_spec().len() - 1) > 0,
        bit_len((input.len() - 1) as nat) == bit_len((c.next_len(c.layers_spec().len() - 1) - 1) as nat),
        evaluations.len() == c.layers_spec().len() + 1,
        forall|i: int| 0 <= i < evaluations.len() ==> (#[trigger] evaluations[i])@ == c.values_at(input, i),
    ensures
        sizes_match(c, evaluations),
{
    reveal(sizes_match);
    let d = c.layers_spec().len();
    assert forall|i: int| 0 <= i < d implies (#[trigger] c.values_at(input, i)).len() == c.layers_spec()[i].len_spec() by {
        let layer = c.layers_spec()[i];
        let below = c.values_at(input, i + 1);
        let zeros = Seq::new(layer.len_spec(), |k: int| Fp::<P>::spec_zero());
        assert(crate::circuit::gates_in_bounds(layer.adds(), layer.len_spec(), c.level_len(i + 1, input.len())));
        assert(crate::circuit::gates_in_bounds(layer.muls(), layer.len_spec(), c.level_len(i + 1, input.len())));
        lemma_apply_gates_len(zeros, layer.adds(), below, true);
        lemma_apply_gates_len(apply_gates(zeros, layer.adds(), below, true), layer.muls(), below, false);
        assert(c.values_at(input, i) == layer_values(layer, below));
    }
    assert forall|i: int| 0 <= i < evaluations.len() implies (#[trigger] evaluations[i])@.len() > 0 by {
        if i < d {
            assert(c.values_at(input, i).len() == c.layers_spec()[i].len_spec());
        } else {
            assert(c.values_at(input, i) == input);
        }
    }
    assert forall|i: int| 0 <= i < d implies {
        &&& (#[trigger] c.layers_spec()[i]).adds().len() + c.layers_spec()[i].muls().len() > 0
        &&& bit_len((evaluations[i]@.len() - 1) as nat) == bit_len((c.layers_spec()[i].len_spec() - 1) as nat)
        &&& bit_len((evaluations[i + 1]@.len() - 1) as nat) == bit_len((c.next_len(i) - 1) as nat)
    } by {
        assert(c.values_at(input, i).len() == c.layers_spec()[i].len_spec());
        if i + 1 < d {
            assert(c.values_at(input, i + 1).len() == c.layers_spec()[i + 1].len_spec());
        } else {
            assert(c.values_at(input, i + 1) == input);
        }
    }
}

/// Every layer of `evaluations` has a multilinear extension that `interpolate` can build.
pub open spec fn layers_fit<const P: u64>(evaluations: Seq<Vec<Fp<P>>>) -> bool {
    forall|i: int|
        0 <= i < evaluations.len() ==> (#[trigger] evaluations[i])@.len() == 0 || bit_len(
            (evaluations[i]@.len() - 1) as nat,
        ) < usize::BITS
}

/// The multilinear extension of `values` as `interpolate` builds it: its
/// variable count and terms.
pub open spec fn w_model<const P: u64>(values: Seq<Fp<P>>) -> (nat, Map<usize, Fp<P>>) {
    if values.len() == 0 {
        (0, Map::<usize, Fp<P>>::empty())
    } else {
        let n = bit_len((values.len() - 1) as nat);
        (n, interpolation_terms(values, n))
    }
}

/// `f` holds one part: the wiring polynomials of circuit layer `idx`, the
/// label `r`, and the next level's values from `evaluations` for `b` and `c`.
pub open spec fn layer_extension_is<const P: u64>(
    f: GateEvalExtension<P>,
    r: Seq<Fp<P>>,
    c: Circuit,
    idx: nat,
    evaluations: Seq<Vec<Fp<P>>>,
) -> bool {
    &&& f.point() == r
    &&& f.adds() == seq![add_model::<P>(c, idx as int)]
    &&& f.muls() == seq![mul_model::<P>(c, idx as int)]
    &&& f.wbs() == seq![w_model(evaluations[idx + 1 as int]@)]
    &&& f.wcs() == seq![w_model(evaluations[idx + 1 as int]@)]
}

/// An extension as `layer_extension_is` describes it.
pub open spec fn layer_extension<const P: u64>(
    r: Seq<Fp<P>>,
    c: Circuit,
    idx: nat,
    evaluations: Seq<Vec<Fp<P>>>,
) -> GateEvalExtension<P> {
    choose|f: GateEvalExtension<P>| layer_extension_is(f, r, c, idx, evaluations)
}

/// What an honest prover sends for `k` layers from layer `idx` on, from
/// transcript state `st`, output label `r` and claim `m`: per layer the
/// claim, the honest sumcheck rounds over the layer's extension, and the
/// next layer's extension restricted to the line through the two halves of
/// the sumcheck's challenges; the next label is the line's point at the
/// transcript's challenge and the next claim the next layer's value there.
pub open spec fn prover_layers<const P: u64>(
    c: Circuit,
    evaluations: Seq<Vec<Fp<P>>>,
    st: Seq<u8>,
    r: Seq<Fp<P>>,
    m: Fp<P>,
    idx: nat,
    k: nat,
) -> Seq<(Fp<P>, Seq<Seq<Fp<P>>>, Seq<Fp<P>>)>
    decreases k,
{
    if k == 0 {
        Seq::empty()
    } else {
        let f = layer_extension(r, c, idx, evaluations);
        let data = gate_rounds_data(f, be_encoding(m.value(), 8), f.vars());
        let ch = data.1;
        let half = ch.len() / 2;
        let line = line_through(ch.subrange(0, half as int), ch.subrange(half as int, ch.len() as int));
        let wm = w_model(evaluations[idx + 1 as int]@);
        let qc = lagrange_sum(index_points::<P>(wm.0 + 1), values_on_line(line, wm, wm.0 + 1), wm.0 + 1);
        let h = keccak256(st + be_encoding(m.value(), 8) + coeffs_encoding(data.0) + coefficient_bytes(qc));
        let r2 = line_point(line, challenge_element::<P>(h));
        let m2 = eval_model(wm.0, wm.1, r2)->Ok_0;
        seq![(m, data.0, qc)] + prover_layers(c, evaluations, h, r2, m2, idx + 1, (k - 1) as nat)
    }
}

/// The honest prover sends one record per layer.
proof fn lemma_prover_len<const P: u64>(
    c: Circuit,
    evaluations: Seq<Vec<Fp<P>>>,
    st: Seq<u8>,
    r: Seq<Fp<P>>,
    m: Fp<P>,
    idx: nat,
    k: nat,
)
    ensures
        prover_layers(c, evaluations, st, r, m, idx, k).len() == k,
    decreases k,
{
    if k > 0 {
        let f = layer_extension(r, c, idx, evaluations);
        let data = gate_rounds_data(f, be_encoding(m.value(), 8), f.vars());
        let ch = data.1;
        let half = ch.len() / 2;
        let line = line_through(ch.subrange(0, half as int), ch.subrange(half as int, ch.len() as int));
        let wm = w_model(evaluations[idx + 1 as int]@);
        let qc = lagrange_sum(index_points::<P>(wm.0 + 1), values_on_line(line, wm, wm.0 + 1), wm.0 + 1);
        let h = keccak256(st + be_encoding(m.value(), 8) + coeffs_encoding(data.0) + coefficient_bytes(qc));
        let r2 = line_point(line, challenge_element::<P>(h));
        let m2 = eval_model(wm.0, wm.1, r2)->Ok_0;
        lemma_prover_len(c, evaluations, h, r2, m2, idx + 1, (k - 1) as nat);
    }
}

/// One layer of a run that follows the prover's steps is the honest record.
proof fn lemma_layer_step<const P: u64>(
    c: Circuit,
    evaluations: Seq<Vec<Fp<P>>>,
    st: Seq<u8>,
    r: Seq<Fp<P>>,
    m: Fp<P>,
    idx: nat,
    k: nat,
    f: GateEvalExtension<P>,
    polys: Seq<UnivariatePolynomial<P>>,
    ch: Seq<Fp<P>>,
    lcs: Seq<Seq<Fp<P>>>,
    qc: Seq<Fp<P>>,
    h: Seq<u8>,
    r2: Seq<Fp<P>>,
    m2: Fp<P>,
)
    requires
        k > 0,
        layer_extension_is(f, r, c, idx, evaluations),
        polys.len() == f.vars(),
        ch == uni_challenges(be_encoding(m.value(), 8), polys),
        forall|i: int|
            0 <= i < f.vars() ==> (#[trigger] polys[i]).coeffs() == round_coeffs(f, ch.subrange(0, i), (f.vars() - i - 1) as nat),
        lcs == line_through(ch.subrange(0, (ch.len() / 2) as int), ch.subrange((ch.len() / 2) as int, ch.len() as int)),
        qc == lagrange_sum(
            index_points::<P>(w_model(evaluations[idx + 1 as int]@).0 + 1),
            values_on_line(lcs, w_model(evaluations[idx + 1 as int]@), w_model(evaluations[idx + 1 as int]@).0 + 1),
            w_model(evaluations[idx + 1 as int]@).0 + 1,
        ),
        h == keccak256(st + be_encoding(m.value(), 8) + uni_rounds_encoding(polys) + coefficient_bytes(qc)),
        r2 == line_point(lcs, challenge_element::<P>(h)),
        m2 == eval_model(w_model(evaluations[idx + 1 as int]@).0, w_model(evaluations[idx + 1 as int]@).1, r2)->Ok_0,
    ensures
        prover_layers(c, evaluations, st, r, m, idx, k) == seq![(m, coeff_lists(polys), qc)] + prover_layers(
            c,
            evaluations,
            h,
            r2,
            m2,
            idx + 1,
            (k - 1) as nat,
        ),
{
    let fc = layer_extension(r, c, idx, evaluations);
    assert(layer_extension_is(fc, r, c, idx, evaluations));
    assert(f.same_as(fc));
    let st0 = be_encoding(m.value(), 8);
    lemma_same_rounds(f, fc, st0, f.vars());
    lemma_rounds_are_honest(f, st0, polys, ch, f.vars());
    assert(polys.subrange(0, f.vars() as int) =~= polys);
    lemma_challenges_prefix(st0, polys, 0);
    assert(ch.subrange(0, f.vars() as int) =~= ch);
    lemma_rounds_encoding(polys);
}

/// The honest proof's layers for `c` and its layer values `evaluations`: the
/// output layer's extension goes into the transcript, the first label is
/// drawn from it and the first claim is the extension's value there.
pub open spec fn honest_layers<const P: u64>(c: Circuit, evaluations: Seq<Vec<Fp<P>>>) -> Seq<
    (Fp<P>, Seq<Seq<Fp<P>>>, Seq<Fp<P>>),
> {
    let wm = w_model(evaluations[0]@);
    let st = model_encoding(wm);
    let r0 = challenge_elements::<P>(st, wm.0);
    let m0 = eval_model(wm.0, wm.1, r0)->Ok_0;
    prover_layers(c, evaluations, state_after::<P>(st, wm.0), r0, m0, 0, (evaluations.len() - 1) as nat)
}

/// The layer values have the sizes the circuit's layers need: one more list
/// than layers, none empty, every layer holding a gate, and each list as
/// many variables wide as its layer and as the inputs of the layer above.
#[verifier::opaque]
pub open spec fn sizes_match<const P: u64>(c: Circuit, evaluations: Seq<Vec<Fp<P>>>) -> bool {
    &&& evaluations.len() == c.layers_spec().len() + 1
    &&& forall|i: int| 0 <= i < evaluations.len() ==> (#[trigger] evaluations[i])@.len() > 0
    &&& forall|i: int|
        0 <= i < c.layers_spec().len() ==> {
            &&& (#[trigger] c.layers_spec()[i]).adds().len() + c.layers_spec()[i].muls().len() > 0
            &&& bit_len((evaluations[i]@.len() - 1) as nat) == bit_len((c.layers_spec()[i].len_spec() - 1) as nat)
            &&& bit_len((evaluations[i + 1]@.len() - 1) as nat) == bit_len((c.next_len(i) - 1) as nat)
        }
}

/// Matching sizes have one more list of values than layers, none empty.
proof fn lemma_sizes_len<const P: u64>(c: Circuit, evaluations: Seq<Vec<Fp<P>>>)
    requires
        sizes_match(c, evaluations),
    ensures
        evaluations.len() == c.layers_spec().len() + 1,
        evaluations[0]@.len() > 0,
{
    reveal(sizes_match);
    assert(evaluations[0]@.len() > 0);
}

/// One challenge per requested element.
proof fn lemma_challenge_count<const P: u64>(st: Seq<u8>, n: nat)
    ensures
        challenge_elements::<P>(st, n).len() == n,
    decreases n,
{
    if n > 0 {
        lemma_challenge_count::<P>(keccak256(st), (n - 1) as nat);
    }
}

/// What matching sizes give one layer: the next layer's values are not
/// empty and as wide as the layer's inputs, the label is as wide as the
/// layer, the layer holds a gate, and its wiring polynomials fit in a `usize`.
proof fn lemma_layer_sizes<const P: u64>(c: Circuit, evaluations: Seq<Vec<Fp<P>>>, idx: int)
    requires
        sizes_match(c, evaluations),
        gkr_ready(c),
        0 <= idx < c.layers_spec().len(),
    ensures
        evaluations.len() == c.layers_spec().len() + 1,
        evaluations[idx + 1]@.len() > 0,
        evaluations[idx]@.len() > 0,
        bit_len((evaluations[idx + 1]@.len() - 1) as nat) == bit_len((c.next_len(idx) - 1) as nat),
        bit_len((evaluations[idx]@.len() - 1) as nat) == bit_len((c.layers_spec()[idx].len_spec() - 1) as nat),
        c.layers_spec()[idx].adds().len() + c.layers_spec()[idx].muls().len() > 0,
        bit_len((c.layers_spec()[idx].len_spec() - 1) as nat) + 2 * bit_len((c.next_len(idx) - 1) as nat) < usize::BITS,
{
    reveal(sizes_match);
    assert(evaluations[idx + 1]@.len() > 0);
    assert(evaluations[idx]@.len() > 0);
    lemma_ready_at(c, idx);
    assert(c.layers_spec()[idx].adds().len() + c.layers_spec()[idx].muls().len() > 0);
}

/// An extension of one part whose wiring polynomials have `ov + 2 iv` (or
/// no) variables, whose `W` has `iv` and whose label `ov` values, fits and
/// has `2 iv` variables.
proof fn lemma_one_part_fits<const P: u64>(f: GateEvalExtension<P>, ov: nat, iv: nat)
    requires
        f.point().len() == ov,
        f.adds().len() == 1,
        f.muls().len() == 1,
        f.wbs().len() == 1,
        f.wcs().len() == 1,
        f.adds()[0].0 == 0 || f.adds()[0].0 == ov + 2 * iv,
        f.muls()[0].0 == 0 || f.muls()[0].0 == ov + 2 * iv,
        f.wbs()[0].0 == iv,
        f.wcs()[0].0 == iv,
        ov + 2 * iv < usize::BITS,
    ensures
        f.vars() == 2 * iv,
        f.fits(),
        f.points_fit(),
{
    assert forall|i: int| 0 <= i < f.parts() implies (#[trigger] f.adds()[i]).0 < usize::BITS && f.muls()[i].0
        < usize::BITS && f.wbs()[i].0 < usize::BITS && f.wcs()[i].0 < usize::BITS by {
        assert(i == 0);
    }
    assert forall|i: int| 0 <= i < f.parts() implies {
        &&& (#[trigger] f.wbs()[i]).0 <= f.vars()
        &&& (f.wcs()[i].0 == 0 || f.wcs()[i].0 <= f.vars() - f.wbs()[i].0)
        &&& (f.adds()[i].0 == 0 || f.adds()[i].0 <= f.point().len() + f.vars())
        &&& (f.muls()[i].0 == 0 || f.muls()[i].0 <= f.point().len() + f.vars())
    } by {
        assert(i == 0);
    }
}

/// One layer of the prover: the layer's extension at label `r`, a partial
/// sumcheck of claim `m` over it, the next layer's extension on the line
/// through the two halves of the challenges, and the next label and claim.
#[verifier::rlimit(80)]
#[verifier::spinoff_prover]
fn prove_layer<const P: u64>(
    circuit: &Circuit,
    evaluations: &Vec<Vec<Fp<P>>>,
    layer_index: usize,
    r: Vec<Fp<P>>,
    m: Fp<P>,
    transcript: &mut Transcript,
    Ghost(k): Ghost<nat>,
) -> (res: Result<(GateSumcheckProof<P>, UnivariatePolynomial<P>, Vec<Fp<P>>, Fp<P>), &'static str>)
    requires
        is_prime(P as nat),
        1 < P,
        gkr_ready(*circuit),
        layers_fit(evaluations@),
        1 <= layer_index < evaluations@.len(),
        k > 0,
    ensures
        sizes_match(*circuit, evaluations@) && P > 64 && r@.len() == bit_len(
            (evaluations@[layer_index - 1]@.len() - 1) as nat,
        ) ==> (res matches Ok(v) && v.2@.len() == bit_len((evaluations@[layer_index as int]@.len() - 1) as nat)),
        res matches Ok(v) ==> {
            &&& v.0.sum_spec() == m
            &&& prover_layers(*circuit, evaluations@, old(transcript).state(), r@, m, (layer_index - 1) as nat, k)
                == seq![(m, coeff_lists(v.0.rounds()), v.1.coeffs())] + prover_layers(
                *circuit,
                evaluations@,
                final(transcript).state(),
                v.2@,
                v.3,
                layer_index as nat,
                (k - 1) as nat,
            )
        },
{
    let ghost idx: nat = (layer_index - 1) as nat;
    let ghost st = transcript.state();
    let ghost good = sizes_match(*circuit, evaluations@) && P > 64 && r@.len() == bit_len(
        (evaluations@[layer_index - 1]@.len() - 1) as nat,
    );
    proof {
        if good {
            lemma_sizes_len(*circuit, evaluations@);
        }
    }
    if layer_index - 1 >= circuit.layers().len() {
        return Err("invalid layer index");
    }
    proof {
        assert(0 <= circuit.next_len(layer_index - 1) <= isize::MAX);
    }
    let mles = circuit.add_mul_mle::<P>(layer_index - 1)?;
    let w_i = Circuit::w(evaluations.as_slice(), layer_index)?;
    let ghost layer = circuit.layers_spec()[idx as int];
    let ghost ov = bit_len((layer.len_spec() - 1) as nat);
    let ghost iv = bit_len((circuit.next_len(idx as int) - 1) as nat);
    proof {
        if good {
            lemma_layer_sizes(*circuit, evaluations@, idx as int);
        }
    }
    let f = GateEvalExtension::new(to_vec(r.as_slice()), mles[0].duplicate(), mles[1].duplicate(), w_i.duplicate())?;
    proof {
        if good {
            lemma_one_part_fits(f, ov, iv);
        }
    }
    if !f.fits_check() {
        return Err("too many variables to sum over");
    }
    let (partial, challenges) = prove_partial_gate(&f, m)?;
    proof {
        lemma_challenges_prefix(be_encoding(m.value(), 8), partial.rounds(), 0);
    }
    let proof_bytes = partial.to_bytes();
    transcript.append(proof_bytes.as_slice());
    let len = challenges.len();
    let half = len / 2;
    let b = segment(challenges.as_slice(), 0, half);
    let c = segment(challenges.as_slice(), half, len);
    let lf = l(b.as_slice(), c.as_slice())?;
    if w_i.n_vars() >= usize::BITS as usize {
        return Err("polynomial has too many variables");
    }
    if w_i.n_vars() as u64 >= P {
        return Err("the field is too small for the line restriction");
    }
    let q_function = q(lf.as_slice(), &w_i)?;
    let q_bytes = q_function.to_bytes();
    transcript.append(q_bytes.as_slice());
    proof {
        assert(transcript.state() =~= st + be_encoding(m.value(), 8) + uni_rounds_encoding(partial.rounds())
            + coefficient_bytes(q_function.coeffs()));
        assert(layer_extension_is(f, r@, *circuit, idx, evaluations@));
    }
    let r_star = transcript.sample_field_element::<P>();
    let r2 = evaluate_l_function(lf.as_slice(), &r_star);
    proof {
        if good {
            assert(lf@.len() == iv) by {
                assert(coeff_lists(lf@).len() == lf@.len());
            }
        }
    }
    let m2 = evaluate_mle(&w_i, r2.as_slice())?;
    proof {
        lemma_layer_step(
            *circuit,
            evaluations@,
            st,
            r@,
            m,
            idx,
            k,
            f,
            partial.rounds(),
            challenges@,
            coeff_lists(lf@),
            q_function.coeffs(),
            transcript.state(),
            r2@,
            m2,
        );
    }
    Ok((partial, q_function, r2, m2))
}

/// Prove, with the GKR protocol, that `circuit` produced the layer values
/// `evaluations` (output layer first, input last). The output layer's
/// extension goes into the transcript and gives the first point; then, per
/// layer, a partial sumcheck over the layer's gate-evaluation extension, the
/// next layer's extension restricted to the line through the sumcheck's two
/// halves of challenges, and a new point on that line (see `honest_layers`).
/// Fails without layer values, or when a layer's polynomials do not fit
/// together; succeeds when the sizes match (see `sizes_match`) in a field
/// of more than 64 elements.
#[verifier::spinoff_prover]
pub fn prove<const P: u64>(circuit: &Circuit, evaluations: Vec<Vec<Fp<P>>>) -> (r: Result<GkrProof<P>, &'static str>)
    requires
        is_prime(P as nat),
        gkr_ready(*circuit),
        layers_fit(evaluations@),
    ensures
        evaluations@.len() == 0 ==> r == Err::<GkrProof<P>, &'static str>("invalid layer index"),
        sizes_match(*circuit, evaluations@) && P > 64 ==> r is Ok,
        r matches Ok(p) ==> p.honest_for(*circuit, evaluations@),
{
    proof {
        assert(P > 1) by {
            assert(is_prime(P as nat));
        }
    }
    let ghost good = sizes_match(*circuit, evaluations@) && P > 64;
    proof {
        if good {
            lemma_sizes_len(*circuit, evaluations@);
        }
    }
    if evaluations.len() == 0 {
        return Err("invalid layer index");
    }
    let w_0 = Circuit::w(evaluations.as_slice(), 0)?;
    let mut transcript = Transcript::new();
    let w0_bytes = w_0.to_bytes();
    transcript.append(w0_bytes.as_slice());
    let ghost st0 = transcript.state();
    let mut r = transcript.sample_n_field_elements::<P>(w_0.n_vars());
    proof {
        lemma_challenge_count::<P>(st0, w_0.num_vars());
        assert(evaluations@[0]@.len() == 0 || bit_len((evaluations@[0]@.len() - 1) as nat) < usize::BITS);
    }
    let mut m = evaluate_mle(&w_0, r.as_slice())?;
    let ghost total: nat = (evaluations@.len() - 1) as nat;
    let ghost honest = honest_layers(*circuit, evaluations@);
    proof {
        assert(w_0.encoding() == model_encoding(w_model(evaluations@[0]@)));
        assert(transcript.state() =~= state_after::<P>(w_0.encoding(), w_0.num_vars()));
        assert(honest == prover_layers(*circuit, evaluations@, transcript.state(), r@, m, 0, total));
        lemma_prover_len(*circuit, evaluations@, transcript.state(), r@, m, 0, total);
        assert(honest.subrange(0, total as int) =~= honest);
    }
    let mut sumcheck_proofs: Vec<GateSumcheckProof<P>> = Vec::new();
    let mut q_functions: Vec<UnivariatePolynomial<P>> = Vec::new();
    let mut layer_index: usize = 1;
    while layer_index < evaluations.len()
        invariant
            1 < P,
            is_prime(P as nat),
            gkr_ready(*circuit),
            layers_fit(evaluations@),
            1 <= layer_index <= evaluations@.len(),
            total == evaluations@.len() - 1,
            good == (sizes_match(*circuit, evaluations@) && P > 64),
            good ==> r@.len() == bit_len((evaluations@[layer_index - 1]@.len() - 1) as nat),
            sumcheck_proofs@.len() == layer_index - 1,
            q_functions@.len() == layer_index - 1,
            prover_layers(*circuit, evaluations@, transcript.state(), r@, m, (layer_index - 1) as nat, (total - (layer_index - 1)) as nat)
                == honest.subrange(layer_index - 1, total as int),
            honest.len() == total,
            forall|i: int|
                0 <= i < layer_index - 1 ==> {
                    &&& (#[trigger] sumcheck_proofs@[i]).sum_spec() == honest[i].0
                    &&& coeff_lists(sumcheck_proofs@[i].rounds()) == honest[i].1
                    &&& q_functions@[i].coeffs() == honest[i].2
                },
        decreases evaluations@.len() - layer_index,
    {
        let ghost idx: nat = (layer_index - 1) as nat;
        let (partial, q_function, r2, m2) = prove_layer(
            circuit,
            &evaluations,
            layer_index,
            r,
            m,
            &mut transcript,
            Ghost((total - idx) as nat),
        )?;
        r = r2;
        m = m2;
        proof {
            assert(honest.subrange(idx + 1 as int, total as int) =~= honest.subrange(idx as int, total as int).drop_first());
            assert(honest[idx as int] == honest.subrange(idx as int, total as int)[0]);
        }
        sumcheck_proofs.push(partial);
        q_functions.push(q_function);
        layer_index = layer_index + 1;
    }
    proof {
        assert(w_0.wf());
        assert((w_0.num_vars(), w_0.terms()) == w_model(evaluations@[0]@));
        assert(honest == honest_layers(*circuit, evaluations@));
        assert(honest.len() == evaluations@.len() - 1);
    }
    let proof_out = GkrProof { output_mle: w_0, sumcheck_proofs, q_functions };
    proof {
        assert forall|i: int| 0 <= i < honest.len() implies {
            &&& (#[trigger] proof_out.proofs_spec()[i]).sum_spec() == honest[i].0
            &&& coeff_lists(proof_out.proofs_spec()[i].rounds()) == honest[i].1
            &&& proof_out.q_spec()[i].coeffs() == honest[i].2
        } by {
            assert(proof_out.proofs_spec()[i] == sumcheck_proofs@[i]);
        }
        assert(proof_out.output_spec().wf());
        assert((proof_out.output_spec().num_vars(), proof_out.output_spec().terms()) == w_model(evaluations@[0]@));
        assert(proof_out.proofs_spec().len() == evaluations@.len() - 1);
        assert(proof_out.q_spec().len() == evaluations@.len() - 1);
        assert(proof_out.honest_for(*circuit, evaluations@));
    }
    Ok(proof_out)
}

} // verus!
