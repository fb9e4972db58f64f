//! GKR proofs for R1CS programs: the program is compiled into a circuit
//! whose outputs are zero exactly when every constraint holds, the witness
//! is completed with the values of the intermediate variables and the
//! circuit's constants, and the circuit's evaluation is proved with GKR.
use crate::bits::{bit_count_for_n_elem, bit_len};
use crate::circuit::Circuit;
use crate::field::{is_prime, Fp};
use crate::gkr::{gkr_ready, gkr_ready_check, gkr_verdict, layers_fit, prove, sizes_match, verify, GkrProof};
use crate::r1cs::{compile_fold, program_max_index, total_terms, R1CSProgram, SymbolTable, Term};
use crate::r1cs_circuit::{
    constants_fold, initial_constants, initial_order, layer_is, order_fold, program_circuit, program_layer, ConstantMap,
    CIRCUIT_DEPTH,
};
use crate::satisfaction::{table_consistent, term_eval};
use vstd::prelude::*;

verus! {

/// The compiled program's bounds, as `program_circuit` needs them.
pub open spec fn program_fits<const P: u64>(program: R1CSProgram<P>) -> bool {
    &&& program_max_index(program.constraints_spec()) + total_terms(program.constraints_spec()) <= usize::MAX
    &&& ({
        let (rs, t) = compile_fold(
            program.constraints_spec(),
            (Seq::<((Term<P>, Term<P>), usize)>::empty(), program_max_index(program.constraints_spec())),
        );
        &&& t.1 + 2 + 3 * rs.len() <= usize::MAX
        &&& 4 * rs.len() + 3 <= usize::MAX
    })
}

/// The witness `w` extended by the recorded pairs `es`, each pair's variable
/// taking the sum of its two terms, in order; `None` when a term refers to a
/// value not yet there or a variable is not the next position.
pub open spec fn with_intermediates<const P: u64>(w: Seq<Fp<P>>, es: Seq<((Term<P>, Term<P>), usize)>) -> Option<
    Seq<Fp<P>>,
>
    decreases es.len(),
{
    if es.len() == 0 {
        Some(w)
    } else {
        match with_intermediates(w, es.drop_last()) {
            None => None,
            Some(v) => {
                let e = es.last();
                if e.0.0.0 >= v.len() || e.0.1.0 >= v.len() || e.1 != v.len() {
                    None
                } else {
                    Some(v.push(term_eval(e.0.0, v).spec_add(term_eval(e.0.1, v))))
                }
            },
        }
    }
}

/// Once a pair cannot be added, neither can a longer list of pairs.
proof fn lemma_intermediates_none<const P: u64>(w: Seq<Fp<P>>, es: Seq<((Term<P>, Term<P>), usize)>, j: int)
    requires
        0 <= j <= es.len(),
        with_intermediates(w, es.subrange(0, j)) is None,
    ensures
        with_intermediates(w, es) is None,
    decreases es.len() - j,
{
    if j < es.len() {
        assert(es.subrange(0, j + 1).drop_last() =~= es.subrange(0, j));
        lemma_intermediates_none(w, es, j + 1);
    } else {
        assert(es.subrange(0, j) =~= es);
    }
}

/// Complete a witness with the values of the variables made while reducing
/// the constraints: one goes in front (position zero), then each recorded
/// pair's variable, in the order made, takes the sum of its two terms.
/// Fails when a term refers to a value not yet there, or when a made
/// variable is not the next position.
pub fn generate_intermediate_witness_values<const P: u64>(witness: Vec<Fp<P>>, symbol_table: &SymbolTable<P>) -> (r:
    Result<Vec<Fp<P>>, &'static str>)
    requires
        1 < P,
    ensures
        r is Ok <==> with_intermediates(seq![Fp::<P>::spec_one()] + witness@, symbol_table.state().0) is Some,
        r matches Ok(w) ==> w@ == with_intermediates(seq![Fp::<P>::spec_one()] + witness@, symbol_table.state().0)->Some_0,
        r matches Ok(w) ==> {
            &&& w@.len() == witness@.len() + 1 + symbol_table.state().0.len()
            &&& w@[0] == Fp::<P>::spec_one()
            &&& w@.subrange(1, witness@.len() + 1 as int) == witness@
            &&& table_consistent(symbol_table.state(), w@)
        },
{
    let mut w: Vec<Fp<P>> = Vec::new();
    w.push(Fp::one());
    let mut i: usize = 0;
    while i < witness.len()
        invariant
            i <= witness@.len(),
            w@.len() == i + 1,
            w@[0] == Fp::<P>::spec_one(),
            w@.subrange(1, i + 1) == witness@.subrange(0, i as int),
        decreases witness@.len() - i,
    {
        w.push(witness[i]);
        proof {
            assert(w@.subrange(1, i + 2) =~= witness@.subrange(0, i + 1));
        }
        i = i + 1;
    }
    proof {
        assert(witness@.subrange(0, witness@.len() as int) =~= witness@);
    }
    let entries = symbol_table.entries();
    let base = w.len();
    let ghost start = seq![Fp::<P>::spec_one()] + witness@;
    proof {
        assert(w@ =~= start);
        assert(entries@.subrange(0, 0) =~= Seq::<((Term<P>, Term<P>), usize)>::empty());
    }
    let mut j: usize = 0;
    while j < entries.len()
        invariant
            1 < P,
            entries@ == symbol_table.state().0,
            base == witness@.len() + 1,
            j <= entries@.len(),
            w@.len() == base + j,
            w@[0] == Fp::<P>::spec_one(),
            w@.subrange(1, base as int) == witness@,
            start == seq![Fp::<P>::spec_one()] + witness@,
            with_intermediates(start, entries@.subrange(0, j as int)) == Some(w@),
            forall|k: int|
                0 <= k < j ==> {
                    &&& (#[trigger] entries@[k]).1 < w@.len()
                    &&& entries@[k].0.0.0 < w@.len()
                    &&& entries@[k].0.1.0 < w@.len()
                    &&& w@[entries@[k].1 as int] == term_eval(entries@[k].0.0, w@).spec_add(term_eval(entries@[k].0.1, w@))
                },
        decreases entries@.len() - j,
    {
        let ((term_a, term_b), result_index) = entries[j];
        let (ia, sa) = term_a.to_pair();
        let (ib, sb) = term_b.to_pair();
        proof {
            assert(entries@.subrange(0, j + 1).drop_last() =~= entries@.subrange(0, j as int));
            assert(entries@.subrange(0, j + 1).last() == entries@[j as int]);
        }
        if ia >= w.len() || ib >= w.len() {
            proof {
                lemma_intermediates_none(start, entries@, j + 1);
            }
            return Err("a term refers to a witness value that is not there");
        }
        if result_index != w.len() {
            proof {
                lemma_intermediates_none(start, entries@, j + 1);
            }
            return Err("expect the witness len to grow with the variable map index");
        }
        let c = w[ia].mul(&sa).add(&w[ib].mul(&sb));
        let ghost before = w@;
        w.push(c);
        proof {
            assert forall|k: int| 0 <= k < j + 1 implies {
                &&& (#[trigger] entries@[k]).1 < w@.len()
                &&& entries@[k].0.0.0 < w@.len()
                &&& entries@[k].0.1.0 < w@.len()
                &&& w@[entries@[k].1 as int] == term_eval(entries@[k].0.0, w@).spec_add(term_eval(entries@[k].0.1, w@))
            } by {
                assert(w@[entries@[k].0.0.0 as int] == before.push(c)[entries@[k].0.0.0 as int]);
                if k < j {
                    assert(w@[entries@[k].1 as int] == before[entries@[k].1 as int]);
                    assert(w@[entries@[k].0.0.0 as int] == before[entries@[k].0.0.0 as int]);
                    assert(w@[entries@[k].0.1.0 as int] == before[entries@[k].0.1.0 as int]);
                } else {
                    assert(w@[ia as int] == before[ia as int]);
                    assert(w@[ib as int] == before[ib as int]);
                }
            }
            assert(w@.subrange(1, base as int) =~= before.subrange(1, base as int));
        }
        j = j + 1;
    }
    proof {
        assert(entries@.subrange(0, entries@.len() as int) =~= entries@);
        assert forall|k: int| 0 <= k < symbol_table.state().0.len() implies w@[(#[trigger] symbol_table.state().0[k]).1 as int]
            == term_eval(symbol_table.state().0[k].0.0, w@).spec_add(term_eval(symbol_table.state().0[k].0.1, w@)) by {
            assert(entries@[k] == symbol_table.state().0[k]);
        }
    }
    Ok(w)
}

/// Append the circuit's constants to a witness laid out as `[1, ...]`: the
/// recorded constants in order, without the first (one, already in front).
pub fn constrain_witness<const P: u64>(witness: Vec<Fp<P>>, constant_map: &ConstantMap<P>) -> (r: Vec<Fp<P>>)
    ensures
        constant_map.order_spec().len() == 0 ==> r@ == witness@,
        constant_map.order_spec().len() > 0 ==> r@ == witness@ + constant_map.order_spec().drop_first(),
{
    let mut out = witness;
    let order = constant_map.in_order();
    let ghost head = out@;
    if order.len() == 0 {
        return out;
    }
    let mut i: usize = 1;
    while i < order.len()
        invariant
            1 <= i <= order@.len(),
            out@ == head + order@.subrange(1, i as int),
        decreases order@.len() - i,
    {
        out.push(order[i]);
        proof {
            assert(out@ =~= head + order@.subrange(1, i + 1));
        }
        i = i + 1;
    }
    proof {
        assert(order@.subrange(1, order@.len() as int) =~= order@.drop_first());
    }
    out
}

/// `c` is the circuit `program_circuit` builds for `program`: one layer per
/// level of the depth, each holding the gates of every reduced constraint.
pub open spec fn program_shape<const P: u64>(c: Circuit, program: R1CSProgram<P>) -> bool {
    let (rs, t) = compile_fold(
        program.constraints_spec(),
        (Seq::<((Term<P>, Term<P>), usize)>::empty(), program_max_index(program.constraints_spec())),
    );
    let m = constants_fold(rs, initial_constants::<P>(t.1 as nat), rs.len()).0;
    &&& c.layers_spec().len() == CIRCUIT_DEPTH
    &&& forall|j: int| 0 <= j < 3 ==> layer_is(c, j, #[trigger] program_layer(rs, m, j, rs.len()))
}

/// The witness holds one value per variable of the program: the last
/// variable less the variables made while reducing.
pub open spec fn witness_len_ok<const P: u64>(program: R1CSProgram<P>, witness: Seq<Fp<P>>) -> bool {
    let t = compile_fold(
        program.constraints_spec(),
        (Seq::<((Term<P>, Term<P>), usize)>::empty(), program_max_index(program.constraints_spec())),
    ).1;
    t.1 >= t.0.len() && witness.len() == t.1 - t.0.len()
}

/// The witness the circuit runs on: one, the witness, the made variables'
/// values, then the constants after one in the order first met; `None` when
/// the made variables cannot be computed.
pub open spec fn completed_witness<const P: u64>(program: R1CSProgram<P>, witness: Seq<Fp<P>>) -> Option<Seq<Fp<P>>> {
    let (rs, t) = compile_fold(
        program.constraints_spec(),
        (Seq::<((Term<P>, Term<P>), usize)>::empty(), program_max_index(program.constraints_spec())),
    );
    match with_intermediates(seq![Fp::<P>::spec_one()] + witness, t.0) {
        None => None,
        Some(w) => {
            let ord = order_fold(rs, initial_constants::<P>(t.1 as nat), initial_order::<P>(), rs.len());
            Some(
                if ord.len() == 0 {
                    w
                } else {
                    w + ord.drop_first()
                },
            )
        },
    }
}

/// Compile the program into its circuit and complete the witness with the
/// intermediate values and the constants. Fails when the witness does not
/// hold one value per variable of the program, or when the made variables
/// cannot be computed.
fn compile_program_and_constrain_witness<const P: u64>(program: R1CSProgram<P>, witness: Vec<Fp<P>>) -> (r: Result<
    (Circuit, Vec<Fp<P>>),
    &'static str,
>)
    requires
        1 < P,
        program_fits(program),
    ensures
        !witness_len_ok(program, witness@) ==> r == Err::<(Circuit, Vec<Fp<P>>), &'static str>("invalid witness length"),
        witness_len_ok(program, witness@) && completed_witness(program, witness@) is None ==> r is Err,
        witness_len_ok(program, witness@) && completed_witness(program, witness@) is Some ==> (r matches Ok(v)
            && program_shape(v.0, program) && v.1@ == completed_witness(program, witness@)->Some_0),
{
    let ghost original = witness@;
    let (circuit, constant_map, symbol_table) = program_circuit(program);
    let last = symbol_table.last_index();
    let made = symbol_table.variable_count();
    if last < made || witness.len() != last - made {
        return Err("invalid witness length");
    }
    let witness = generate_intermediate_witness_values(witness, &symbol_table)?;
    let constrained = constrain_witness(witness, &constant_map);
    Ok((circuit, constrained))
}

/// Whether every layer of `evaluations` has an extension `interpolate` can build.
fn layers_fit_check<const P: u64>(evaluations: &Vec<Vec<Fp<P>>>) -> (r: bool)
    ensures
        r == layers_fit(evaluations@),
{
    let mut i: usize = 0;
    while i < evaluations.len()
        invariant
            i <= evaluations@.len(),
            forall|j: int|
                0 <= j < i ==> (#[trigger] evaluations@[j])@.len() == 0 || bit_len(
                    (evaluations@[j]@.len() - 1) as nat,
                ) < usize::BITS,
        decreases evaluations@.len() - i,
    {
        let len = evaluations[i].len();
        if len > 0 && bit_count_for_n_elem(len) >= usize::BITS as usize {
            return false;
        }
        i = i + 1;
    }
    true
}

/// `evaluations` are the values of every level of `c` run on `w`, output first.
pub open spec fn circuit_values<const P: u64>(c: Circuit, w: Seq<Fp<P>>, evaluations: Seq<Vec<Fp<P>>>) -> bool {
    &&& evaluations.len() == c.layers_spec().len() + 1
    &&& forall|i: int| 0 <= i < evaluations.len() ==> (#[trigger] evaluations[i])@ == c.values_at(w, i)
}

/// What proving the circuit `c` on `w` with layer values `evaluations`
/// gives: an error when the polynomials cannot be built, else the result of `prove` (the honest
/// proof when it succeeds, and success when the sizes match).
pub open spec fn circom_prove_outcome<const P: u64>(
    c: Circuit,
    w: Seq<Fp<P>>,
    evaluations: Seq<Vec<Fp<P>>>,
    r: Result<GkrProof<P>, &'static str>,
) -> bool {
    &&& !(gkr_ready(c) && layers_fit(evaluations)) ==> r == Err::<GkrProof<P>, &'static str>(
        "the circuit's polynomials cannot be built",
    )
    &&& gkr_ready(c) && layers_fit(evaluations) ==> {
        &&& r matches Ok(p) ==> p.honest_for(c, evaluations)
        &&& sizes_match(c, evaluations) && P > 64 ==> r is Ok
    }
}

/// Prove with GKR that the witness satisfies the program: the program's
/// circuit is evaluated on the completed witness and the evaluation proved.
/// Fails when the witness has the wrong length or its made variables cannot
/// be computed, when it does not fit the circuit, when the circuit's wiring
/// polynomials cannot be built, or when the proof cannot be formed.
pub fn prove_circom_gkr<const P: u64>(program: R1CSProgram<P>, witness: Vec<Fp<P>>) -> (r: Result<
    GkrProof<P>,
    &'static str,
>)
    requires
        is_prime(P as nat),
        program_fits(program),
    ensures
        !witness_len_ok(program, witness@) ==> r == Err::<GkrProof<P>, &'static str>("invalid witness length"),
        witness_len_ok(program, witness@) && completed_witness(program, witness@) is None ==> r is Err,
        witness_len_ok(program, witness@) && completed_witness(program, witness@) is Some ==> exists|c: Circuit|
            #![trigger program_shape(c, program)]
            program_shape(c, program) && {
                let w = completed_witness(program, witness@)->Some_0;
                &&& !c.wired(w.len()) ==> r == Err::<GkrProof<P>, &'static str>("the witness does not fit the circuit")
                &&& c.wired(w.len()) ==> exists|evaluations: Seq<Vec<Fp<P>>>|
                    #![trigger circuit_values(c, w, evaluations)]
                    circuit_values(c, w, evaluations) && circom_prove_outcome(c, w, evaluations, r)
            },
{
    proof {
        assert(P > 1) by {
            assert(is_prime(P as nat));
        }
    }
    let (circuit, constrained) = compile_program_and_constrain_witness(program, witness)?;
    let ghost w = constrained@;
    if !circuit.wired_check(constrained.len()) {
        proof {
            assert(program_shape(circuit, program));
        }
        return Err("the witness does not fit the circuit");
    }
    let evaluations = circuit.evaluate(constrained)?;
    proof {
        assert(circuit_values(circuit, w, evaluations@));
        assert(program_shape(circuit, program));
    }
    if !gkr_ready_check(&circuit) || !layers_fit_check(&evaluations) {
        proof {
            assert(circom_prove_outcome(circuit, w, evaluations@, Err::<GkrProof<P>, &'static str>("the circuit's polynomials cannot be built")));
        }
        return Err("the circuit's polynomials cannot be built");
    }
    let ghost evals = evaluations@;
    let res = prove(&circuit, evaluations);
    proof {
        assert(circom_prove_outcome(circuit, w, evals, res));
        assert(circuit_values(circuit, w, evals));
    }
    res
}

/// Verify a GKR proof that the witness satisfies the program: the claimed
/// sum of the first layer must be zero (every constraint holds), then the
/// proof is checked against the program's circuit and the completed witness
/// (see `gkr_verdict`).
pub fn verify_circom_gkr<const P: u64>(program: R1CSProgram<P>, witness: Vec<Fp<P>>, proof: GkrProof<P>) -> (r: Result<
    bool,
    &'static str,
>)
    requires
        1 < P,
        program_fits(program),
        proof.proofs_spec().len() > 0,
        proof.output_spec().wf(),
    ensures
        !witness_len_ok(program, witness@) ==> r == Err::<bool, &'static str>("invalid witness length"),
        witness_len_ok(program, witness@) && completed_witness(program, witness@) is None ==> r is Err,
        witness_len_ok(program, witness@) && completed_witness(program, witness@) is Some
            && proof.proofs_spec()[0].sum_spec() != Fp::<P>::spec_zero() ==> r == Ok::<bool, &'static str>(false),
        witness_len_ok(program, witness@) && completed_witness(program, witness@) is Some
            && proof.proofs_spec()[0].sum_spec() == Fp::<P>::spec_zero() ==> exists|c: Circuit|
            #![trigger program_shape(c, program)]
            program_shape(c, program) && {
                let w = completed_witness(program, witness@)->Some_0;
                &&& !gkr_ready(c) ==> r == Err::<bool, &'static str>("the circuit's polynomials cannot be built")
                &&& gkr_ready(c) && w.len() > 0 && bit_len((w.len() - 1) as nat) >= usize::BITS ==> r == Err::<
                    bool,
                    &'static str,
                >("the witness is too long")
                &&& gkr_ready(c) && (w.len() == 0 || bit_len((w.len() - 1) as nat) < usize::BITS) ==> r
                    == gkr_verdict(c, w, proof)
            },
{
    let (circuit, constrained) = compile_program_and_constrain_witness(program, witness)?;
    if !proof.sumcheck_proofs()[0].sum().equals(&Fp::zero()) {
        return Ok(false);
    }
    proof {
        assert(proof.proofs_spec()[0].sum_spec() == Fp::<P>::spec_zero());
    }
    if !gkr_ready_check(&circuit) {
        proof {
            assert(program_shape(circuit, program));
        }
        return Err("the circuit's polynomials cannot be built");
    }
    if constrained.len() > 0 && bit_count_for_n_elem(constrained.len()) >= usize::BITS as usize {
        proof {
            assert(program_shape(circuit, program));
        }
        return Err("the witness is too long");
    }
    let res = verify(&circuit, &constrained, proof);
    proof {
        assert(program_shape(circuit, program));
    }
    res
}

} // verus!
