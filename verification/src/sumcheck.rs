//! The sumcheck protocol over multilinear polynomials, made non-interactive
//! with a Keccak transcript.
use crate::bits::{bit_of, selector_from_position, selector_from_usize, single_selector};
use crate::field::{be_encoding, Fp};
use crate::multilinear::{
    add_terms, apply_assignments, coeff_or_zero, count_true, fix_all, fix_variable,
    lemma_count_true_le, lemma_single_selector_position, lemma_sum_maps_add_terms,
    presence_spec, relabelled_terms, sorted_dom, terms_bytes, valid_selector,
    MultiLinearPolynomial,
};
use crate::transcript::{challenge_element, keccak256, Transcript};
use crate::univariate::{coefficient_bytes, UnivariatePolynomial};
use vstd::arithmetic::power2::*;
use vstd::bits::*;
use vstd::prelude::*;

verus! {

/// Substituting `vals[i]` for variable `first + i`, for `i` from `0` up.
pub open spec fn fix_from<const P: u64>(m: Map<usize, Fp<P>>, first: nat, vals: Seq<Fp<P>>) -> Map<
    usize,
    Fp<P>,
>
    decreases vals.len(),
{
    if vals.len() == 0 {
        m
    } else {
        fix_variable(
            fix_from(m, first, vals.drop_last()),
            (first + vals.len() - 1) as nat,
            vals.last(),
        )
    }
}

/// Point `t` of the cube `{0, 1}^d`: coordinate `i` is bit `d - 1 - i` of `t`.
pub open spec fn cube_point<const P: u64>(d: nat, t: nat) -> Seq<Fp<P>> {
    Seq::new(
        d,
        |i: int|
            if bit_of(t, (d - 1 - i) as nat) {
                Fp::<P>::spec_one()
            } else {
                Fp::<P>::spec_zero()
            },
    )
}

/// The sum, over the first `t` points `b` of `{0, 1}^(n-1)`, of `m` with
/// variables `1..n` fixed to `b` (variable `0` stays free).
pub open spec fn hypercube_terms<const P: u64>(m: Map<usize, Fp<P>>, n: nat, t: nat) -> Map<
    usize,
    Fp<P>,
>
    decreases t,
{
    if t == 0 {
        Map::empty()
    } else {
        add_terms(
            hypercube_terms(m, n, (t - 1) as nat),
            fix_from(m, 1, cube_point::<P>((n - 1) as nat, (t - 1) as nat)),
        )
    }
}

/// The variable count after removing unused variables (`n` variables before).
pub open spec fn relabel_vars<const P: u64>(m: Map<usize, Fp<P>>, n: nat) -> nat {
    if n == 0 {
        0
    } else {
        count_true(presence_spec(m, n))
    }
}

/// The terms after removing unused variables (`n` variables before).
pub open spec fn relabel_terms<const P: u64>(m: Map<usize, Fp<P>>, n: nat) -> Map<usize, Fp<P>> {
    if n == 0 {
        m
    } else {
        relabelled_terms(m, presence_spec(m, n))
    }
}

/// The sum over the boolean hypercube of every variable but the first (`n` variables).
pub open spec fn skip_first_sum<const P: u64>(m: Map<usize, Fp<P>>, n: nat) -> Map<usize, Fp<P>> {
    if n <= 1 {
        m
    } else {
        hypercube_terms(m, n, pow2((n - 1) as nat))
    }
}

/// The variable count of the round polynomial of a polynomial in `n` variables.
pub open spec fn skip_first_vars<const P: u64>(m: Map<usize, Fp<P>>, n: nat) -> nat {
    if n <= 1 {
        n
    } else {
        relabel_vars(skip_first_sum(m, n), n)
    }
}

/// The terms of the round polynomial of a polynomial in `n` variables.
pub open spec fn skip_first_terms<const P: u64>(m: Map<usize, Fp<P>>, n: nat) -> Map<usize, Fp<P>> {
    if n <= 1 {
        m
    } else {
        relabel_terms(skip_first_sum(m, n), n)
    }
}

/// The variable count of the prover's round polynomial once `cs` are fixed.
pub open spec fn round_vars<const P: u64>(m: Map<usize, Fp<P>>, n: nat, cs: Seq<Fp<P>>) -> nat {
    let fixed = fix_from(m, 0, cs);
    skip_first_vars(relabel_terms(fixed, n), relabel_vars(fixed, n))
}

/// The terms of the prover's round polynomial once `cs` are fixed.
pub open spec fn round_terms<const P: u64>(m: Map<usize, Fp<P>>, n: nat, cs: Seq<Fp<P>>) -> Map<
    usize,
    Fp<P>,
> {
    let fixed = fix_from(m, 0, cs);
    skip_first_terms(relabel_terms(fixed, n), relabel_vars(fixed, n))
}

/// The encoding of a polynomial given by its variable count and terms.
pub open spec fn poly_encoding<const P: u64>(n: nat, m: Map<usize, Fp<P>>) -> Seq<u8> {
    be_encoding(n, 4) + terms_bytes(m, sorted_dom(m))
}

/// The prover's challenges after `k` rounds, from transcript state `state`.
pub open spec fn prover_challenges<const P: u64>(
    m: Map<usize, Fp<P>>,
    n: nat,
    state: Seq<u8>,
    k: nat,
) -> Seq<Fp<P>>
    decreases k, 0nat,
{
    if k == 0 {
        Seq::empty()
    } else {
        let prev = prover_challenges(m, n, state, (k - 1) as nat);
        let st = prover_state(m, n, state, (k - 1) as nat);
        prev.push(
            challenge_element::<P>(
                keccak256(
                    st + poly_encoding(round_vars(m, n, prev), round_terms(m, n, prev)),
                ),
            ),
        )
    }
}

/// The prover's transcript state after `k` rounds.
pub open spec fn prover_state<const P: u64>(
    m: Map<usize, Fp<P>>,
    n: nat,
    state: Seq<u8>,
    k: nat,
) -> Seq<u8>
    decreases k, 1nat,
{
    if k == 0 {
        state
    } else {
        let prev = prover_challenges(m, n, state, (k - 1) as nat);
        keccak256(
            prover_state(m, n, state, (k - 1) as nat) + poly_encoding(
                round_vars(m, n, prev),
                round_terms(m, n, prev),
            ),
        )
    }
}

/// The value of a round polynomial at `x`, as `evaluate` computes it.
pub open spec fn round_value<const P: u64>(p: MultiLinearPolynomial<P>, x: Fp<P>) -> Fp<P> {
    if p.num_vars() == 0 {
        coeff_or_zero(p.terms(), 0)
    } else {
        fix_all(p.terms(), seq![x])[0]
    }
}

/// A round polynomial that the verifier can evaluate at a point.
pub open spec fn round_poly_ok<const P: u64>(p: MultiLinearPolynomial<P>) -> bool {
    &&& p.wf()
    &&& p.num_vars() <= 1
    &&& p.num_vars() == 1 ==> !p.terms().dom().is_empty()
}

/// The verifier's checks on the round polynomials `polys`, from claimed sum
/// `claimed` and transcript state `state`: `None` when some round fails
/// `p(0) + p(1) == claim`, otherwise the final claim and the challenges.
pub open spec fn verify_rounds<const P: u64>(
    state: Seq<u8>,
    claimed: Fp<P>,
    polys: Seq<MultiLinearPolynomial<P>>,
) -> Option<(Fp<P>, Seq<Fp<P>>)>
    decreases polys.len(),
{
    if polys.len() == 0 {
        Some((claimed, Seq::empty()))
    } else {
        let p = polys[0];
        if claimed != round_value(p, Fp::<P>::spec_zero()).spec_add(round_value(p, Fp::<P>::spec_one())) {
            None
        } else {
            let h = keccak256(state + p.encoding());
            let c = challenge_element::<P>(h);
            match verify_rounds(h, round_value(p, c), polys.drop_first()) {
                None => None,
                Some(res) => Some((res.0, seq![c] + res.1)),
            }
        }
    }
}

/// The claim each round polynomial must answer when the verifier follows the
/// transcript from `state` and claim `claimed`: the claimed sum first, then
/// the previous polynomial's value at its challenge.
pub open spec fn ml_round_claims<const P: u64>(
    state: Seq<u8>,
    claimed: Fp<P>,
    polys: Seq<MultiLinearPolynomial<P>>,
) -> Seq<Fp<P>>
    decreases polys.len(),
{
    if polys.len() == 0 {
        Seq::empty()
    } else {
        let p = polys[0];
        let h = keccak256(state + p.encoding());
        seq![claimed] + ml_round_claims(h, round_value(p, challenge_element::<P>(h)), polys.drop_first())
    }
}

/// Where following the transcript ends: the last round's value at its
/// challenge, and the challenges drawn.
pub open spec fn ml_rounds_end<const P: u64>(
    state: Seq<u8>,
    claimed: Fp<P>,
    polys: Seq<MultiLinearPolynomial<P>>,
) -> (Fp<P>, Seq<Fp<P>>)
    decreases polys.len(),
{
    if polys.len() == 0 {
        (claimed, Seq::empty())
    } else {
        let p = polys[0];
        let h = keccak256(state + p.encoding());
        let c = challenge_element::<P>(h);
        let rest = ml_rounds_end(h, round_value(p, c), polys.drop_first());
        (rest.0, seq![c] + rest.1)
    }
}

/// Every round polynomial answers its running claim: `p_i(0) + p_i(1)`.
pub open spec fn ml_rounds_consistent<const P: u64>(
    state: Seq<u8>,
    claimed: Fp<P>,
    polys: Seq<MultiLinearPolynomial<P>>,
) -> bool {
    forall|i: int|
        0 <= i < polys.len() ==> round_value(#[trigger] polys[i], Fp::<P>::spec_zero()).spec_add(
            round_value(polys[i], Fp::<P>::spec_one()),
        ) == ml_round_claims(state, claimed, polys)[i]
}

/// The sumcheck verifier's rounds accept exactly when every round polynomial
/// answers its running claim, and then hand back where the transcript ends.
pub proof fn lemma_verify_rounds_consistent<const P: u64>(
    state: Seq<u8>,
    claimed: Fp<P>,
    polys: Seq<MultiLinearPolynomial<P>>,
)
    ensures
        verify_rounds(state, claimed, polys) is Some <==> ml_rounds_consistent(state, claimed, polys),
        verify_rounds(state, claimed, polys) is Some ==> verify_rounds(state, claimed, polys)->Some_0 == ml_rounds_end(
            state,
            claimed,
            polys,
        ),
        ml_round_claims(state, claimed, polys).len() == polys.len(),
    decreases polys.len(),
{
    if polys.len() > 0 {
        let p = polys[0];
        let h = keccak256(state + p.encoding());
        let c = challenge_element::<P>(h);
        let rest = polys.drop_first();
        lemma_verify_rounds_consistent(h, round_value(p, c), rest);
        let claims = ml_round_claims(state, claimed, polys);
        let rc = ml_round_claims(h, round_value(p, c), rest);
        assert(claims == seq![claimed] + rc);
        if ml_rounds_consistent(state, claimed, polys) {
            assert(round_value(polys[0], Fp::<P>::spec_zero()).spec_add(round_value(polys[0], Fp::<P>::spec_one())) == claims[0]);
            assert forall|i: int| 0 <= i < rest.len() implies round_value(#[trigger] rest[i], Fp::<P>::spec_zero()).spec_add(
                round_value(rest[i], Fp::<P>::spec_one()),
            ) == rc[i] by {
                assert(rest[i] == polys[i + 1]);
                assert(round_value(polys[i + 1], Fp::<P>::spec_zero()).spec_add(round_value(polys[i + 1], Fp::<P>::spec_one()))
                    == claims[i + 1]);
            }
        }
        if verify_rounds(state, claimed, polys) is Some {
            assert forall|i: int| 0 <= i < polys.len() implies round_value(#[trigger] polys[i], Fp::<P>::spec_zero()).spec_add(
                round_value(polys[i], Fp::<P>::spec_one()),
            ) == claims[i] by {
                if i > 0 {
                    assert(polys[i] == rest[i - 1]);
                }
            }
        }
    }
}

/// The rounds of an honest proof whose transcript starts at `st`: one round
/// polynomial per variable, round `i` the prover's round polynomial after the
/// first `i` of its challenges.
pub open spec fn honest_rounds_from<const P: u64>(
    m: Map<usize, Fp<P>>,
    n: nat,
    st: Seq<u8>,
    rounds: Seq<MultiLinearPolynomial<P>>,
) -> bool {
    let cs = prover_challenges(m, n, st, n);
    &&& rounds.len() == n
    &&& forall|i: int|
        0 <= i < n ==> (#[trigger] rounds[i]).num_vars() == round_vars(m, n, cs.subrange(0, i))
            && rounds[i].terms() == round_terms(m, n, cs.subrange(0, i))
}

/// The rounds of an honest proof for `poly` and claimed sum `sum`, whose
/// transcript starts with the polynomial's encoding and the sum.
pub open spec fn honest_rounds<const P: u64>(
    poly: MultiLinearPolynomial<P>,
    sum: Fp<P>,
    rounds: Seq<MultiLinearPolynomial<P>>,
) -> bool {
    honest_rounds_from(poly.terms(), poly.num_vars(), poly.encoding() + be_encoding(sum.value(), 8), rounds)
}

/// What `verify` answers on a proof: one round polynomial per variable, every
/// round consistent with its claim, and the polynomial's value at the
/// challenges equal to the final claim.
pub open spec fn sumcheck_accepts<const P: u64>(proof: SumcheckProof<P>) -> bool {
    proof.rounds().len() == proof.poly_spec().num_vars() && match verify_rounds(
        proof.poly_spec().encoding() + be_encoding(proof.sum_spec().value(), 8),
        proof.sum_spec(),
        proof.rounds(),
    ) {
        None => false,
        Some(res) => point_value(proof.poly_spec().terms(), proof.poly_spec().num_vars(), res.1) == res.0,
    }
}

/// The value of a polynomial (`n` variables, terms `m`) at a point, as `evaluate` computes it.
pub open spec fn point_value<const P: u64>(m: Map<usize, Fp<P>>, n: nat, xs: Seq<Fp<P>>) -> Fp<P> {
    if n == 0 {
        coeff_or_zero(m, 0)
    } else {
        fix_all(m, xs)[0]
    }
}

/// The sum of the values at the first `t` points of `{0, 1}^n`.
pub open spec fn cube_sum<const P: u64>(m: Map<usize, Fp<P>>, n: nat, t: nat) -> Fp<P>
    decreases t,
{
    if t == 0 {
        Fp::<P>::spec_zero()
    } else {
        cube_sum(m, n, (t - 1) as nat).spec_add(point_value(m, n, cube_point::<P>(n, (t - 1) as nat)))
    }
}

/// Assigning `vals[i]` to the selector of position `first + i`, in order, is
/// substituting `vals` from variable `first` on.
pub proof fn lemma_apply_from<const P: u64>(
    m: Map<usize, Fp<P>>,
    a: Seq<(Vec<bool>, Fp<P>)>,
    first: nat,
    vals: Seq<Fp<P>>,
    n: nat,
)
    requires
        a.len() == vals.len(),
        first + vals.len() <= n,
        forall|i: int|
            0 <= i < a.len() ==> (#[trigger] a[i]).0@ == single_selector(n, (first + i) as nat)
                && a[i].1 == vals[i],
    ensures
        apply_assignments(m, a) == fix_from(m, first, vals),
        forall|i: int| 0 <= i < a.len() ==> valid_selector(#[trigger] a[i].0@, n),
    decreases a.len(),
{
    if a.len() > 0 {
        let k = a.len() - 1;
        lemma_apply_from(m, a.drop_last(), first, vals.drop_last(), n);
        lemma_single_selector_position(n, (first + k) as nat);
        assert forall|i: int| 0 <= i < a.len() implies valid_selector(#[trigger] a[i].0@, n) by {
            lemma_single_selector_position(n, (first + i) as nat);
        }
    }
}

/// Substituting from variable zero is `fix_all`.
pub proof fn lemma_fix_from_zero<const P: u64>(m: Map<usize, Fp<P>>, vals: Seq<Fp<P>>)
    ensures
        fix_from(m, 0, vals) == fix_all(m, vals),
    decreases vals.len(),
{
    if vals.len() > 0 {
        lemma_fix_from_zero(m, vals.drop_last());
    }
}

/// Selector-value pairs for the positions `first, first + 1, ...` of `evals`.
pub fn partial_evaluation_points<const P: u64>(n_vars: usize, first: usize, evals: &[Fp<P>]) -> (r: Vec<
    (Vec<bool>, Fp<P>),
>)
    requires
        first + evals@.len() <= n_vars,
    ensures
        r@.len() == evals@.len(),
        forall|i: int|
            0 <= i < r@.len() ==> (#[trigger] r@[i]).0@ == single_selector(
                n_vars as nat,
                (first + i) as nat,
            ) && r@[i].1 == evals@[i],
{
    let mut out: Vec<(Vec<bool>, Fp<P>)> = Vec::new();
    let mut i: usize = 0;
    while i < evals.len()
        invariant
            first + evals@.len() <= n_vars,
            i <= evals@.len(),
            out@.len() == i,
            forall|t: int|
                0 <= t < i ==> (#[trigger] out@[t]).0@ == single_selector(
                    n_vars as nat,
                    (first + t) as nat,
                ) && out@[t].1 == evals@[t],
        decreases evals@.len() - i,
    {
        let selector = selector_from_position(n_vars, first + i).unwrap();
        out.push((selector, evals[i]));
        i = i + 1;
    }
    out
}

/// Point `t` of the cube `{0, 1}^d` as field elements.
fn cube_point_values<const P: u64>(d: usize, t: usize) -> (r: Vec<Fp<P>>)
    requires
        1 < P,
        d > 0,
        (t as nat) < pow2(d as nat),
    ensures
        r@ == cube_point::<P>(d as nat, t as nat),
{
    proof {
        lemma_bit_len_at_most_pub(t as nat, d as nat);
    }
    let bits = selector_from_usize(t, d);
    let mut out: Vec<Fp<P>> = Vec::new();
    let mut i: usize = 0;
    while i < d
        invariant
            1 < P,
            i <= d,
            bits@.len() == d,
            forall|j: int| 0 <= j < d ==> bits@[j] == bit_of(t as nat, j as nat),
            out@ == cube_point::<P>(d as nat, t as nat).subrange(0, i as int),
        decreases d - i,
    {
        let v = if bits[d - 1 - i] {
            Fp::one()
        } else {
            Fp::zero()
        };
        out.push(v);
        proof {
            assert(out@ =~= cube_point::<P>(d as nat, t as nat).subrange(0, i + 1));
        }
        i = i + 1;
    }
    proof {
        assert(out@ =~= cube_point::<P>(d as nat, t as nat));
    }
    out
}

/// A number below `2^d` has at most `d` binary digits (`d > 0`).
proof fn lemma_bit_len_at_most_pub(t: nat, d: nat)
    requires
        d > 0,
        t < pow2(d),
    ensures
        crate::bits::bit_len(t) <= d,
    decreases t,
{
    if t >= 2 {
        lemma_pow2_unfold(d);
        if d == 1 {
            lemma2_to64();
        }
        vstd::arithmetic::div_mod::lemma_div_is_ordered(t as int, (pow2(d) - 1) as int, 2);
        lemma_bit_len_at_most_pub(t / 2, (d - 1) as nat);
    }
}

/// Keep the first variable free and sum over the boolean hypercube of the
/// others, then remove the variables the sum does not use. Expects a polynomial
/// without unused variables (one that has been relabelled). A polynomial in at
/// most one variable is its own sum.
pub fn skip_first_var_then_sum_over_boolean_hypercube<const P: u64>(
    poly: MultiLinearPolynomial<P>,
) -> (r: MultiLinearPolynomial<P>)
    requires
        1 < P,
        poly.wf(),
        poly.num_vars() < usize::BITS,
    ensures
        r.wf(),
        r.num_vars() == skip_first_vars(poly.terms(), poly.num_vars()),
        r.terms() == skip_first_terms(poly.terms(), poly.num_vars()),
{
    let n = poly.n_vars();
    if n <= 1 {
        return poly;
    }
    let d: usize = n - 1;
    proof {
        lemma_usize_pow2_no_overflow(d as nat);
        lemma_usize_shl_is_mul(1, d);
        poly.lemma_wf();
    }
    let count: usize = 1usize << d;
    let mut sum = MultiLinearPolynomial::additive_identity();
    let mut t: usize = 0;
    while t < count
        invariant
            1 < P,
            poly.wf(),
            n == poly.num_vars(),
            n < usize::BITS,
            d == n - 1,
            d > 0,
            count as nat == pow2(d as nat),
            t <= count,
            sum.wf(),
            t == 0 ==> sum.num_vars() == 0,
            t > 0 ==> sum.num_vars() == n,
            sum.terms() == hypercube_terms(poly.terms(), n as nat, t as nat),
        decreases count - t,
    {
        let point = cube_point_values::<P>(d, t);
        let points = partial_evaluation_points(n, 1, point.as_slice());
        proof {
            lemma_apply_from(poly.terms(), points@, 1, point@, n as nat);
        }
        let pe = poly.partial_evaluate(points.as_slice()).unwrap();
        proof {
            sum.lemma_wf();
            pe.lemma_wf();
            lemma_sum_maps_add_terms(sum.terms(), pe.terms());
            if t == 0 {
                assert(sum.terms().len() == 0);
            }
            assert forall|k: usize| #[trigger] add_terms(sum.terms(), pe.terms()).contains_key(k)
                implies (k as nat) < pow2(n as nat) by {
                MultiLinearPolynomial::lemma_wf_keys(sum, k);
                MultiLinearPolynomial::lemma_wf_keys(pe, k);
            }
        }
        let next = sum.add(&pe);
        sum = next.unwrap();
        t = t + 1;
    }
    proof {
        sum.lemma_wf();
        lemma_count_true_le(presence_spec(sum.terms(), n as nat));
    }
    sum.relabel()
}

/// The sum of the polynomial's values over the boolean hypercube.
pub fn sum_over_boolean_hyper_cube<const P: u64>(poly: &MultiLinearPolynomial<P>) -> (r: Fp<P>)
    requires
        1 < P,
        poly.wf(),
        poly.num_vars() < usize::BITS,
        poly.num_vars() == 0 || !poly.terms().dom().is_empty(),
    ensures
        r == cube_sum(poly.terms(), poly.num_vars(), pow2(poly.num_vars())),
{
    let n = poly.n_vars();
    proof {
        lemma_usize_pow2_no_overflow(n as nat);
        lemma_usize_shl_is_mul(1, n);
    }
    let count: usize = 1usize << n;
    let mut sum: Fp<P> = Fp::zero();
    let mut t: usize = 0;
    while t < count
        invariant
            1 < P,
            poly.wf(),
            n == poly.num_vars(),
            n < usize::BITS,
            n == 0 || !poly.terms().dom().is_empty(),
            count as nat == pow2(n as nat),
            t <= count,
            sum == cube_sum(poly.terms(), n as nat, t as nat),
        decreases count - t,
    {
        let value = if n == 0 {
            poly.evaluate(&[]).unwrap()
        } else {
            let point = cube_point_values::<P>(n, t);
            poly.evaluate(point.as_slice()).unwrap()
        };
        proof {
            if n == 0 {
                assert(cube_point::<P>(0, t as nat) =~= Seq::<Fp<P>>::empty());
            }
        }
        sum = sum.add(&value);
        t = t + 1;
    }
    sum
}

/// Absorb a multilinear polynomial: its variable count (eight bytes), then each
/// term as key and coefficient (eight bytes each), big-endian.
pub fn add_multilinear_poly_to_transcript<const P: u64>(
    poly: &MultiLinearPolynomial<P>,
    transcript: &mut Transcript,
)
    ensures
        final(transcript).state() == old(transcript).state() + be_encoding(poly.num_vars(), 8)
            + terms_bytes(poly.terms(), sorted_dom(poly.terms())),
{
    let n = poly.n_vars();
    let head = crate::field::u64_to_be_bytes(n as u64, 8);
    transcript.append(head.as_slice());
    let bytes = poly.to_bytes();
    proof {
        assert(bytes@.subrange(4, bytes@.len() as int) =~= terms_bytes(poly.terms(), sorted_dom(poly.terms())));
    }
    let mut rest: Vec<u8> = Vec::new();
    let mut i: usize = 4;
    while i < bytes.len()
        invariant
            4 <= i <= bytes@.len(),
            rest@ == bytes@.subrange(4, i as int),
        decreases bytes@.len() - i,
    {
        rest.push(bytes[i]);
        proof {
            assert(rest@ =~= bytes@.subrange(4, i + 1));
        }
        i = i + 1;
    }
    transcript.append(rest.as_slice());
    proof {
        assert(old(transcript).state() + head@ + rest@ =~= old(transcript).state() + be_encoding(
            poly.num_vars(),
            8,
        ) + terms_bytes(poly.terms(), sorted_dom(poly.terms())));
    }
}

/// Absorb a univariate polynomial: each coefficient, eight bytes, big-endian.
pub fn add_univariate_poly_to_transcript<const P: u64>(
    poly: &UnivariatePolynomial<P>,
    transcript: &mut Transcript,
)
    ensures
        final(transcript).state() == old(transcript).state() + coefficient_bytes(poly.coeffs()),
{
    let bytes = poly.to_bytes();
    transcript.append(bytes.as_slice());
}

/// A sumcheck proof: the polynomial, the claimed sum and one round polynomial per variable.
pub struct SumcheckProof<const P: u64> {
    poly: MultiLinearPolynomial<P>,
    sum: Fp<P>,
    uni_polys: Vec<MultiLinearPolynomial<P>>,
}

/// A sumcheck proof that makes no statement about the initial polynomial.
pub struct PartialSumcheckProof<const P: u64> {
    sum: Fp<P>,
    uni_polys: Vec<MultiLinearPolynomial<P>>,
}

/// What a partial verification leaves to check: the final claim and the challenges.
#[derive(Debug, PartialEq)]
pub struct SubClaim<const P: u64> {
    pub sum: Fp<P>,
    pub challenges: Vec<Fp<P>>,
}

impl<const P: u64> SumcheckProof<P> {
    /// The polynomial the proof is about.
    pub closed spec fn poly_spec(self) -> MultiLinearPolynomial<P> {
        self.poly
    }

    /// The claimed sum.
    pub closed spec fn sum_spec(self) -> Fp<P> {
        self.sum
    }

    /// The round polynomials.
    pub closed spec fn rounds(self) -> Seq<MultiLinearPolynomial<P>> {
        self.uni_polys@
    }

    /// A proof with no round polynomials yet.
    pub fn new(poly: MultiLinearPolynomial<P>, sum: Fp<P>) -> (r: Self)
        ensures
            r.poly_spec() == poly,
            r.sum_spec() == sum,
            r.rounds() == Seq::<MultiLinearPolynomial<P>>::empty(),
    {
        SumcheckProof { poly, sum, uni_polys: Vec::new() }
    }

    /// The proof without its polynomial.
    pub fn into_partial(self) -> (r: PartialSumcheckProof<P>)
        ensures
            r.sum_spec() == self.sum_spec(),
            r.rounds() == self.rounds(),
    {
        PartialSumcheckProof { sum: self.sum, uni_polys: self.uni_polys }
    }

    /// The encoding of the proof: the polynomial, the sum, then each round polynomial.
    pub fn to_bytes(&self) -> (r: Vec<u8>)
        ensures
            r@ == self.poly_spec().encoding() + be_encoding(self.sum_spec().value(), 8)
                + rounds_encoding(self.rounds()),
    {
        let mut result = self.poly.to_bytes();
        let sum_bytes = self.sum.to_bytes_be();
        append_bytes(&mut result, &sum_bytes);
        let rest = encode_rounds(&self.uni_polys);
        append_bytes(&mut result, &rest);
        result
    }
}

impl<const P: u64> PartialSumcheckProof<P> {
    /// The claimed sum.
    pub closed spec fn sum_spec(self) -> Fp<P> {
        self.sum
    }

    /// The round polynomials.
    pub closed spec fn rounds(self) -> Seq<MultiLinearPolynomial<P>> {
        self.uni_polys@
    }

    /// The encoding of the proof: the sum, then each round polynomial.
    pub fn to_bytes(&self) -> (r: Vec<u8>)
        ensures
            r@ == be_encoding(self.sum_spec().value(), 8) + rounds_encoding(self.rounds()),
    {
        let mut result = self.sum.to_bytes_be();
        let rest = encode_rounds(&self.uni_polys);
        append_bytes(&mut result, &rest);
        result
    }
}

/// The encodings of the round polynomials, one after another.
pub open spec fn rounds_encoding<const P: u64>(polys: Seq<MultiLinearPolynomial<P>>) -> Seq<u8>
    decreases polys.len(),
{
    if polys.len() == 0 {
        Seq::empty()
    } else {
        rounds_encoding(polys.drop_last()) + polys.last().encoding()
    }
}

/// Append `extra` to `out`.
pub(crate) fn append_bytes(out: &mut Vec<u8>, extra: &Vec<u8>)
    ensures
        final(out)@ == old(out)@ + extra@,
{
    let ghost start = out@;
    let mut i: usize = 0;
    while i < extra.len()
        invariant
            i <= extra@.len(),
            out@ == start + extra@.subrange(0, i as int),
        decreases extra@.len() - i,
    {
        out.push(extra[i]);
        proof {
            assert(extra@.subrange(0, i + 1) =~= extra@.subrange(0, i as int).push(extra@[i as int]));
        }
        i = i + 1;
    }
    proof {
        assert(extra@.subrange(0, extra@.len() as int) =~= extra@);
    }
}

/// The encodings of the round polynomials, one after another.
fn encode_rounds<const P: u64>(polys: &Vec<MultiLinearPolynomial<P>>) -> (r: Vec<u8>)
    ensures
        r@ == rounds_encoding(polys@),
{
    let mut out: Vec<u8> = Vec::new();
    let mut i: usize = 0;
    while i < polys.len()
        invariant
            i <= polys@.len(),
            out@ == rounds_encoding(polys@.subrange(0, i as int)),
        decreases polys@.len() - i,
    {
        let bytes = polys[i].to_bytes();
        append_bytes(&mut out, &bytes);
        proof {
            assert(polys@.subrange(0, i + 1).drop_last() =~= polys@.subrange(0, i as int));
        }
        i = i + 1;
    }
    proof {
        assert(polys@.subrange(0, polys@.len() as int) =~= polys@);
    }
    out
}

/// The sumcheck protocol.
pub struct Sumcheck {}

impl Sumcheck {
    /// Run the prover's rounds on a transcript: absorb the sum, then for each
    /// variable fix the challenges so far, remove unused variables, sum out all
    /// variables but the first, absorb that round polynomial and draw a challenge.
    fn prove_internal<const P: u64>(
        poly: MultiLinearPolynomial<P>,
        sum: Fp<P>,
        transcript: &mut Transcript,
    ) -> (r: (SumcheckProof<P>, Vec<Fp<P>>))
        requires
            1 < P,
            poly.wf(),
            poly.num_vars() < usize::BITS,
        ensures
            r.0.poly_spec() == poly,
            r.0.sum_spec() == sum,
            r.0.rounds().len() == poly.num_vars(),
            forall|i: int|
                0 <= i < poly.num_vars() ==> (#[trigger] r.0.rounds()[i]).num_vars() == round_vars(
                    poly.terms(),
                    poly.num_vars(),
                    r.1@.subrange(0, i),
                ) && r.0.rounds()[i].terms() == round_terms(
                    poly.terms(),
                    poly.num_vars(),
                    r.1@.subrange(0, i),
                ),
            r.1@ == prover_challenges(
                poly.terms(),
                poly.num_vars(),
                old(transcript).state() + be_encoding(sum.value(), 8),
                poly.num_vars(),
            ),
            final(transcript).state() == prover_state(
                poly.terms(),
                poly.num_vars(),
                old(transcript).state() + be_encoding(sum.value(), 8),
                poly.num_vars(),
            ),
    {
        let sum_bytes = sum.to_bytes_be();
        transcript.append(sum_bytes.as_slice());
        let ghost state0 = transcript.state();
        let ghost m = poly.terms();
        let n = poly.n_vars();
        let mut uni_polys: Vec<MultiLinearPolynomial<P>> = Vec::new();
        let mut challenges: Vec<Fp<P>> = Vec::new();
        let mut round: usize = 0;
        while round < n
            invariant
                1 < P,
                poly.wf(),
                m == poly.terms(),
                n == poly.num_vars(),
                n < usize::BITS,
                round <= n,
                uni_polys@.len() == round,
                challenges@ == prover_challenges(m, n as nat, state0, round as nat),
                transcript.state() == prover_state(m, n as nat, state0, round as nat),
                forall|i: int|
                    0 <= i < round ==> (#[trigger] uni_polys@[i]).num_vars() == round_vars(
                        m,
                        n as nat,
                        challenges@.subrange(0, i),
                    ) && uni_polys@[i].terms() == round_terms(m, n as nat, challenges@.subrange(0, i)),
            decreases n - round,
        {
            proof {
                lemma_prover_challenges_len(m, n as nat, state0, round as nat);
            }
            let points = partial_evaluation_points(n, 0, challenges.as_slice());
            proof {
                lemma_apply_from(m, points@, 0, challenges@, n as nat);
            }
            let fixed = poly.partial_evaluate(points.as_slice()).unwrap();
            let challenge_poly = fixed.relabel();
            proof {
                fixed.lemma_wf();
                lemma_count_true_le(presence_spec(fixed.terms(), n as nat));
            }
            let uni_poly = skip_first_var_then_sum_over_boolean_hypercube(challenge_poly);
            let bytes = uni_poly.to_bytes();
            transcript.append(bytes.as_slice());
            let ghost prev = challenges@;
            uni_polys.push(uni_poly);
            let challenge = transcript.sample_field_element::<P>();
            challenges.push(challenge);
            proof {
                assert forall|i: int| 0 <= i < round + 1 implies challenges@.subrange(0, i) == prev.subrange(0, i) by {
                    assert(challenges@.subrange(0, i) =~= prev.subrange(0, i));
                }
                assert(prev.subrange(0, round as int) =~= prev);
            }
            round = round + 1;
        }
        (SumcheckProof { poly, sum, uni_polys }, challenges)
    }

    /// Generate a sumcheck proof for `poly` and the claimed `sum`; the
    /// transcript starts with the polynomial's encoding.
    pub fn prove<const P: u64>(poly: MultiLinearPolynomial<P>, sum: Fp<P>) -> (r: SumcheckProof<P>)
        requires
            1 < P,
            poly.wf(),
            poly.num_vars() < usize::BITS,
        ensures
            r.poly_spec() == poly,
            r.sum_spec() == sum,
            honest_rounds(poly, sum, r.rounds()),
    {
        let mut transcript = Transcript::new();
        let bytes = poly.to_bytes();
        transcript.append(bytes.as_slice());
        proof {
            assert(Seq::<u8>::empty() + poly.encoding() =~= poly.encoding());
        }
        Self::prove_internal(poly, sum, &mut transcript).0
    }

    /// Generate a sumcheck proof that makes no statement about the initial
    /// polynomial, with the challenges drawn.
    pub fn prove_partial<const P: u64>(poly: MultiLinearPolynomial<P>, sum: Fp<P>) -> (r: (
        PartialSumcheckProof<P>,
        Vec<Fp<P>>,
    ))
        requires
            1 < P,
            poly.wf(),
            poly.num_vars() < usize::BITS,
        ensures
            r.0.sum_spec() == sum,
            r.1@ == prover_challenges(
                poly.terms(),
                poly.num_vars(),
                be_encoding(sum.value(), 8),
                poly.num_vars(),
            ),
            honest_rounds_from(poly.terms(), poly.num_vars(), be_encoding(sum.value(), 8), r.0.rounds()),
    {
        let mut transcript = Transcript::new();
        proof {
            assert(Seq::<u8>::empty() + be_encoding(sum.value(), 8) =~= be_encoding(sum.value(), 8));
        }
        let (proof, challenges) = Self::prove_internal(poly, sum, &mut transcript);
        (proof.into_partial(), challenges)
    }

    /// Run the verifier's rounds on a transcript.
    fn verify_internal<const P: u64>(proof: PartialSumcheckProof<P>, transcript: &mut Transcript) -> (r:
        Option<SubClaim<P>>)
        requires
            0 < P,
            forall|i: int| 0 <= i < proof.rounds().len() ==> round_poly_ok(#[trigger] proof.rounds()[i]),
        ensures
            match verify_rounds(
                old(transcript).state() + be_encoding(proof.sum_spec().value(), 8),
                proof.sum_spec(),
                proof.rounds(),
            ) {
                None => r is None,
                Some(res) => r matches Some(c) && c.sum == res.0 && c.challenges@ == res.1,
            },
    {
        let sum_bytes = proof.sum.to_bytes_be();
        transcript.append(sum_bytes.as_slice());
        let ghost state0 = transcript.state();
        assert(state0 == old(transcript).state() + be_encoding(proof.sum_spec().value(), 8));
        let ghost polys = proof.uni_polys@;
        let mut challenges: Vec<Fp<P>> = Vec::new();
        let mut claimed_sum = proof.sum;
        let mut i: usize = 0;
        let ghost outcome = verify_rounds(state0, proof.sum, polys);
        proof {
            assert(polys.subrange(0, polys.len() as int) =~= polys);
            match outcome {
                None => {},
                Some(res) => {
                    assert(challenges@ + res.1 =~= res.1);
                },
            }
        }
        while i < proof.uni_polys.len()
            invariant
                0 < P,
                polys == proof.uni_polys@,
                i <= polys.len(),
                forall|t: int| 0 <= t < polys.len() ==> round_poly_ok(#[trigger] polys[t]),
                outcome == verify_rounds(state0, proof.sum, polys),
                state0 == old(transcript).state() + be_encoding(proof.sum_spec().value(), 8),
                outcome == match verify_rounds(transcript.state(), claimed_sum, polys.subrange(i as int, polys.len() as int)) {
                    None => None,
                    Some(res) => Some((res.0, challenges@ + res.1)),
                },
            decreases polys.len() - i,
        {
            let poly = &proof.uni_polys[i];
            proof {
                assert(round_poly_ok(polys[i as int]));
            }
            let zero: Fp<P> = Fp::zero();
            let one: Fp<P> = Fp::from_u64(1);
            let at_zero = single(zero);
            let at_one = single(one);
            let p_0 = poly.evaluate(at_zero.as_slice()).unwrap();
            let p_1 = poly.evaluate(at_one.as_slice()).unwrap();
            let total = p_0.add(&p_1);
            let ghost rest = polys.subrange(i as int, polys.len() as int);
            proof {
                assert(rest[0] == polys[i as int]);
                assert(seq![zero] =~= seq![Fp::<P>::spec_zero()]);
                assert(one == Fp::<P>::spec_one());
            }
            proof {
                assert(p_0 == round_value(polys[i as int], Fp::<P>::spec_zero()));
                assert(p_1 == round_value(polys[i as int], Fp::<P>::spec_one()));
            }
            if !claimed_sum.equals(&total) {
                proof {
                    Fp::<P>::lemma_value_injective(claimed_sum, total);
                    assert(rest.len() > 0);
                    assert(verify_rounds(transcript.state(), claimed_sum, rest) is None);
                    assert(outcome is None);
                }
                return None;
            }
            proof {
                Fp::<P>::lemma_value_injective(claimed_sum, total);
            }
            let bytes = poly.to_bytes();
            transcript.append(bytes.as_slice());
            let challenge = transcript.sample_field_element::<P>();
            let at_challenge = single(challenge);
            claimed_sum = poly.evaluate(at_challenge.as_slice()).unwrap();
            let ghost before = challenges@;
            challenges.push(challenge);
            proof {
                assert(rest.drop_first() =~= polys.subrange(i + 1, polys.len() as int));
                assert(seq![challenge] =~= seq![challenge]);
                match verify_rounds(transcript.state(), claimed_sum, polys.subrange(i + 1, polys.len() as int)) {
                    None => {},
                    Some(res) => {
                        assert(before + (seq![challenge] + res.1) =~= challenges@ + res.1);
                    },
                }
            }
            i = i + 1;
        }
        proof {
            assert(polys.subrange(i as int, polys.len() as int) =~= Seq::<MultiLinearPolynomial<P>>::empty());
            assert(challenges@ + Seq::<Fp<P>>::empty() =~= challenges@);
        }
        Some(SubClaim { sum: claimed_sum, challenges })
    }

    /// Verify a sumcheck proof: one round polynomial per variable, every round
    /// consistent, and the polynomial's value at the challenges equal to the final claim.
    pub fn verify<const P: u64>(proof: SumcheckProof<P>) -> (r: bool)
        requires
            0 < P,
            proof.poly_spec().wf(),
            proof.poly_spec().num_vars() == 0 || (proof.poly_spec().num_vars() < usize::BITS
                && !proof.poly_spec().terms().dom().is_empty()),
            forall|i: int| 0 <= i < proof.rounds().len() ==> round_poly_ok(#[trigger] proof.rounds()[i]),
        ensures
            r == sumcheck_accepts(proof),
            r ==> {
                let st = proof.poly_spec().encoding() + be_encoding(proof.sum_spec().value(), 8);
                let end = ml_rounds_end(st, proof.sum_spec(), proof.rounds());
                &&& proof.rounds().len() == proof.poly_spec().num_vars()
                &&& ml_rounds_consistent(st, proof.sum_spec(), proof.rounds())
                &&& point_value(proof.poly_spec().terms(), proof.poly_spec().num_vars(), end.1) == end.0
            },
    {
        proof {
            lemma_verify_rounds_consistent(
                proof.poly_spec().encoding() + be_encoding(proof.sum_spec().value(), 8),
                proof.sum_spec(),
                proof.rounds(),
            );
        }
        if proof.uni_polys.len() != proof.poly.n_vars() {
            return false;
        }
        let mut transcript = Transcript::new();
        let bytes = proof.poly.to_bytes();
        transcript.append(bytes.as_slice());
        proof {
            assert(Seq::<u8>::empty() + proof.poly.encoding() =~= proof.poly.encoding());
        }
        let SumcheckProof { poly, sum, uni_polys } = proof;
        let partial = PartialSumcheckProof { sum, uni_polys };
        match Self::verify_internal(partial, &mut transcript) {
            Some(subclaim) => {
                proof {
                    lemma_verify_rounds_len(
                        poly.encoding() + be_encoding(sum.value(), 8),
                        sum,
                        partial.uni_polys@,
                    );
                }
                let value = poly.evaluate(subclaim.challenges.as_slice()).unwrap();
                let ok = value.equals(&subclaim.sum);
                proof {
                    Fp::<P>::lemma_value_injective(value, subclaim.sum);
                }
                ok
            },
            None => false,
        }
    }

    /// Verify a proof that makes no statement about the initial polynomial;
    /// returns what is left to check.
    pub fn verify_partial<const P: u64>(proof: PartialSumcheckProof<P>) -> (r: Option<SubClaim<P>>)
        requires
            0 < P,
            forall|i: int| 0 <= i < proof.rounds().len() ==> round_poly_ok(#[trigger] proof.rounds()[i]),
        ensures
            match verify_rounds(be_encoding(proof.sum_spec().value(), 8), proof.sum_spec(), proof.rounds()) {
                None => r is None,
                Some(res) => r matches Some(c) && c.sum == res.0 && c.challenges@ == res.1,
            },
            r is Some <==> ml_rounds_consistent(be_encoding(proof.sum_spec().value(), 8), proof.sum_spec(), proof.rounds()),
            r matches Some(c) ==> (c.sum, c.challenges@) == ml_rounds_end(
                be_encoding(proof.sum_spec().value(), 8),
                proof.sum_spec(),
                proof.rounds(),
            ),
    {
        proof {
            lemma_verify_rounds_consistent(be_encoding(proof.sum_spec().value(), 8), proof.sum_spec(), proof.rounds());
        }
        let mut transcript = Transcript::new();
        proof {
            assert(Seq::<u8>::empty() + be_encoding(proof.sum.value(), 8) =~= be_encoding(proof.sum.value(), 8));
        }
        Self::verify_internal(proof, &mut transcript)
    }
}

/// The vector holding `x` alone.
fn single<const P: u64>(x: Fp<P>) -> (r: Vec<Fp<P>>)
    ensures
        r@ == seq![x],
{
    let mut v: Vec<Fp<P>> = Vec::new();
    v.push(x);
    proof {
        assert(v@ =~= seq![x]);
    }
    v
}

/// The prover draws one challenge per round.
proof fn lemma_prover_challenges_len<const P: u64>(m: Map<usize, Fp<P>>, n: nat, state: Seq<u8>, k: nat)
    ensures
        prover_challenges(m, n, state, k).len() == k,
    decreases k,
{
    if k > 0 {
        lemma_prover_challenges_len(m, n, state, (k - 1) as nat);
    }
}

/// The verifier draws one challenge per round polynomial.
proof fn lemma_verify_rounds_len<const P: u64>(
    state: Seq<u8>,
    claimed: Fp<P>,
    polys: Seq<MultiLinearPolynomial<P>>,
)
    ensures
        verify_rounds(state, claimed, polys) matches Some(res) ==> res.1.len() == polys.len(),
    decreases polys.len(),
{
    if polys.len() > 0 {
        let p = polys[0];
        let h = keccak256(state + p.encoding());
        let c = challenge_element::<P>(h);
        lemma_verify_rounds_len(h, round_value(p, c), polys.drop_first());
    }
}

} // verus!
