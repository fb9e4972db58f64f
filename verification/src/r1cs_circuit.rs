//! Turning reduced R1CS constraints into a layered circuit whose outputs are
//! all zero exactly when every constraint holds.
use crate::circuit::{apply_gates, Circuit, Gate, Layer};
use crate::field::Fp;
use crate::r1cs::{
    compile_fold, program_max_index, total_terms, Operation, R1CSProgram, ReducedConstraint,
    SymbolTable, Term, };
use std::collections::HashMap;
use vstd::prelude::*;

verus! {

/// The depth of the circuit that checks one constraint.
pub const CIRCUIT_DEPTH: usize = 3;

/// The witness positions of the constants, keyed by the constant's value.
pub struct ConstantMap<const P: u64> {
    map: HashMap<u64, usize>,
    order: Vec<Fp<P>>,
}

impl<const P: u64> ConstantMap<P> {
    /// The positions, keyed by the constant's value.
    pub closed spec fn entries(self) -> Map<u64, usize> {
        self.map@
    }

    /// The constants in the order they were recorded.
    pub closed spec fn order_spec(self) -> Seq<Fp<P>> {
        self.order@
    }

    /// An empty map.
    pub fn new() -> (r: Self)
        ensures
            r.entries() == Map::<u64, usize>::empty(),
            r.order_spec() == Seq::<Fp<P>>::empty(),
    {
        ConstantMap { map: HashMap::new(), order: Vec::new() }
    }

    /// Record `index` as the position of constant `value`.
    pub fn insert(&mut self, value: Fp<P>, index: usize)
        ensures
            final(self).entries() == old(self).entries().insert(value.value() as u64, index),
            final(self).order_spec() == old(self).order_spec().push(value),
    {
        self.map.insert(value.to_u64(), index);
        self.order.push(value);
    }

    /// The constants in the order they were recorded.
    pub fn in_order(&self) -> (r: &Vec<Fp<P>>)
        ensures
            r@ == self.order_spec(),
    {
        &self.order
    }

    /// The position of constant `value`, if recorded.
    pub fn get(&self, value: &Fp<P>) -> (r: Option<usize>)
        ensures
            r == if self.entries().contains_key(value.value() as u64) {
                Some(self.entries()[value.value() as u64])
            } else {
                None
            },
    {
        let key = value.to_u64();
        match self.map.get(&key) {
            Some(i) => Some(*i),
            None => None,
        }
    }

    /// The number of recorded constants.
    pub fn len(&self) -> (r: usize)
        ensures
            r == self.entries().len(),
    {
        self.map.len()
    }
}

/// The key of a constant.
pub open spec fn key<const P: u64>(v: Fp<P>) -> u64 {
    v.value() as u64
}

/// The constant map with `v` given the next position, unless it is there already.
pub open spec fn add_constant<const P: u64>(st: (Map<u64, usize>, nat), v: Fp<P>) -> (Map<u64, usize>, nat) {
    if st.0.contains_key(key(v)) {
        st
    } else {
        (st.0.insert(key(v), (st.1 + 1) as usize), st.1 + 1)
    }
}

/// `add_constant` for the scale of a term that may be missing.
pub open spec fn add_term_constant<const P: u64>(st: (Map<u64, usize>, nat), t: Option<Term<P>>) -> (
    Map<u64, usize>,
    nat,
) {
    match t {
        Some(term) => add_constant(st, term.1),
        None => st,
    }
}

/// The constants of the first `k` reduced constraints added in order (a, b, c).
pub open spec fn constants_fold<const P: u64>(
    rs: Seq<ReducedConstraint<P>>,
    st: (Map<u64, usize>, nat),
    k: nat,
) -> (Map<u64, usize>, nat)
    decreases k,
{
    if k == 0 {
        st
    } else {
        let r = rs[k - 1];
        add_term_constant(
            add_term_constant(add_term_constant(constants_fold(rs, st, (k - 1) as nat), r.a), r.b),
            r.c,
        )
    }
}

/// The constants in the order `add_constant` first records them: `v` joins
/// `ord` when the map `st` does not hold it yet.
pub open spec fn order_add<const P: u64>(st: (Map<u64, usize>, nat), ord: Seq<Fp<P>>, v: Fp<P>) -> Seq<Fp<P>> {
    if st.0.contains_key(key(v)) {
        ord
    } else {
        ord.push(v)
    }
}

/// `order_add` for the scale of a term that may be missing.
pub open spec fn order_term<const P: u64>(st: (Map<u64, usize>, nat), ord: Seq<Fp<P>>, t: Option<Term<P>>) -> Seq<
    Fp<P>,
> {
    match t {
        Some(term) => order_add(st, ord, term.1),
        None => ord,
    }
}

/// The order in which `constants_fold` records constants, after `ord`.
pub open spec fn order_fold<const P: u64>(
    rs: Seq<ReducedConstraint<P>>,
    st: (Map<u64, usize>, nat),
    ord: Seq<Fp<P>>,
    k: nat,
) -> Seq<Fp<P>>
    decreases k,
{
    if k == 0 {
        ord
    } else {
        let r = rs[k - 1];
        let s0 = constants_fold(rs, st, (k - 1) as nat);
        let o0 = order_fold(rs, st, ord, (k - 1) as nat);
        let s1 = add_term_constant(s0, r.a);
        let s2 = add_term_constant(s1, r.b);
        order_term(s2, order_term(s1, order_term(s0, o0, r.a), r.b), r.c)
    }
}

/// The order of the constants before any constraint: one, zero, minus one.
pub open spec fn initial_order<const P: u64>() -> Seq<Fp<P>> {
    seq![Fp::<P>::spec_one(), Fp::<P>::spec_zero(), Fp::<P>::spec_one().spec_neg()]
}

/// The constant map before any constraint: one at position zero, then zero and
/// minus one after the last variable.
pub open spec fn initial_constants<const P: u64>(last: nat) -> (Map<u64, usize>, nat) {
    (
        Map::<u64, usize>::empty().insert(key(Fp::<P>::spec_one()), 0).insert(
            key(Fp::<P>::spec_zero()),
            (last + 1) as usize,
        ).insert(key(Fp::<P>::spec_one().spec_neg()), (last + 2) as usize),
        last + 2,
    )
}

/// Positions for the constants of the reduced constraints. The witness is laid
/// out as `[1, ...variables..., ...constants...]`: one is at position zero, the
/// other constants follow the last variable in the order they are first met.
pub fn generate_constant_map<const P: u64>(
    reduced_constraints: &[ReducedConstraint<P>],
    last_variable_index: usize,
) -> (r: ConstantMap<P>)
    requires
        1 < P,
        last_variable_index + 2 + 3 * reduced_constraints@.len() <= usize::MAX,
    ensures
        r.entries() == constants_fold(
            reduced_constraints@,
            initial_constants::<P>(last_variable_index as nat),
            reduced_constraints@.len(),
        ).0,
        r.order_spec() == order_fold(
            reduced_constraints@,
            initial_constants::<P>(last_variable_index as nat),
            initial_order::<P>(),
            reduced_constraints@.len(),
        ),
{
    let mut last = last_variable_index;
    let mut constant_map = ConstantMap::new();
    constant_map.insert(Fp::one(), 0);
    last = last + 1;
    constant_map.insert(Fp::zero(), last);
    last = last + 1;
    constant_map.insert(Fp::one().neg(), last);
    proof {
        assert(constant_map.order_spec() =~= initial_order::<P>());
    }
    let mut i: usize = 0;
    while i < reduced_constraints.len()
        invariant
            1 < P,
            constant_map.order_spec() == order_fold(
                reduced_constraints@,
                initial_constants::<P>(last_variable_index as nat),
                initial_order::<P>(),
                i as nat,
            ),
            i <= reduced_constraints@.len(),
            last_variable_index + 2 + 3 * reduced_constraints@.len() <= usize::MAX,
            last <= last_variable_index + 2 + 3 * i,
            (constant_map.entries(), last as nat) == constants_fold(
                reduced_constraints@,
                initial_constants::<P>(last_variable_index as nat),
                i as nat,
            ),
        decreases reduced_constraints@.len() - i,
    {
        let constraint = &reduced_constraints[i];
        if let Some(term) = constraint.a {
            if constant_map.get(&term.1).is_none() {
                last = last + 1;
                constant_map.insert(term.1, last);
            }
        }
        if let Some(term) = constraint.b {
            if constant_map.get(&term.1).is_none() {
                last = last + 1;
                constant_map.insert(term.1, last);
            }
        }
        if let Some(term) = constraint.c {
            if constant_map.get(&term.1).is_none() {
                last = last + 1;
                constant_map.insert(term.1, last);
            }
        }
        i = i + 1;
    }
    constant_map
}

/// The witness positions `(variable, scale)` of a term.
pub open spec fn term_positions<const P: u64>(t: Term<P>, m: Map<u64, usize>) -> (usize, usize) {
    (t.0, m[key(t.1)])
}

/// The three position pairs of a reduced constraint; a missing `a` or `b` becomes
/// the operation's identity (zero for addition, one for multiplication) and a
/// missing `c` becomes zero.
pub open spec fn circuit_input_spec<const P: u64>(r: ReducedConstraint<P>, m: Map<u64, usize>) -> [(
    usize,
    usize,
); 3] {
    let zero = m[key(Fp::<P>::spec_zero())];
    let one = m[key(Fp::<P>::spec_one())];
    let default = match r.operation {
        Operation::Add => (zero, zero),
        Operation::Mul => (one, one),
    };
    [
        match r.a {
            Some(t) => term_positions(t, m),
            None => default,
        },
        match r.b {
            Some(t) => term_positions(t, m),
            None => default,
        },
        match r.c {
            Some(t) => term_positions(t, m),
            None => (zero, zero),
        },
    ]
}

/// Every constant the circuit input of `r` needs has a position.
pub open spec fn constants_known<const P: u64>(r: ReducedConstraint<P>, m: Map<u64, usize>) -> bool {
    &&& m.contains_key(key(Fp::<P>::spec_zero()))
    &&& m.contains_key(key(Fp::<P>::spec_one()))
    &&& m.contains_key(key(Fp::<P>::spec_one().spec_neg()))
    &&& (r.a matches Some(t) ==> m.contains_key(key(t.1)))
    &&& (r.b matches Some(t) ==> m.contains_key(key(t.1)))
    &&& (r.c matches Some(t) ==> m.contains_key(key(t.1)))
}

/// Replace the optional terms of a reduced constraint by position pairs for the circuit.
pub fn reduced_constraint_to_circuit_input<const P: u64>(
    constraint: &ReducedConstraint<P>,
    constant_map: &ConstantMap<P>,
) -> (r: [(usize, usize); 3])
    requires
        1 < P,
        constants_known(*constraint, constant_map.entries()),
    ensures
        r == circuit_input_spec(*constraint, constant_map.entries()),
{
    let zero_index = constant_map.get(&Fp::zero()).unwrap();
    let zero_value = (zero_index, zero_index);
    let one_index = constant_map.get(&Fp::one()).unwrap();
    let one_value = (one_index, one_index);
    let default_value = match constraint.operation {
        Operation::Add => zero_value,
        Operation::Mul => one_value,
    };
    let a_value = match constraint.a {
        Some(t) => (t.0, constant_map.get(&t.1).unwrap()),
        None => default_value,
    };
    let b_value = match constraint.b {
        Some(t) => (t.0, constant_map.get(&t.1).unwrap()),
        None => default_value,
    };
    let c_value = match constraint.c {
        Some(t) => (t.0, constant_map.get(&t.1).unwrap()),
        None => zero_value,
    };
    [a_value, b_value, c_value]
}

/// The product-layer gates of the circuit for constraint `idx`: each of A, B
/// and C times its scale, and one times minus one.
pub open spec fn product_gates<const P: u64>(r: ReducedConstraint<P>, m: Map<u64, usize>, idx: nat) -> Seq<Gate> {
    let input = circuit_input_spec(r, m);
    let p = 4 * idx;
    seq![
        Gate { out: p as usize, in_a: input[0].0, in_b: input[0].1 },
        Gate { out: (p + 1) as usize, in_a: input[1].0, in_b: input[1].1 },
        Gate { out: (p + 2) as usize, in_a: input[2].0, in_b: input[2].1 },
        Gate {
            out: (p + 3) as usize,
            in_a: m[key(Fp::<P>::spec_one())],
            in_b: m[key(Fp::<P>::spec_one().spec_neg())],
        }
    ]
}

/// The compute-layer gate `A op B` of the circuit for constraint `idx`.
pub open spec fn op_gate(idx: nat) -> Gate {
    Gate { out: (2 * idx) as usize, in_a: (4 * idx) as usize, in_b: (4 * idx + 1) as usize }
}

/// The compute-layer gate `C * -1` of the circuit for constraint `idx`.
pub open spec fn negate_c_gate(idx: nat) -> Gate {
    Gate { out: (2 * idx + 1) as usize, in_a: (4 * idx + 2) as usize, in_b: (4 * idx + 3) as usize }
}

/// The output gate `(A op B) + (-C)` of the circuit for constraint `idx`.
pub open spec fn output_gate(idx: nat) -> Gate {
    Gate { out: idx as usize, in_a: (2 * idx) as usize, in_b: (2 * idx + 1) as usize }
}

/// The add and mul gates of layer `j` of the circuit for constraint `idx`.
pub open spec fn constraint_layer<const P: u64>(r: ReducedConstraint<P>, m: Map<u64, usize>, idx: nat, j: int) -> (
    Seq<Gate>,
    Seq<Gate>,
) {
    if j == 0 {
        (seq![output_gate(idx)], Seq::empty())
    } else if j == 1 {
        match r.operation {
            Operation::Add => (seq![op_gate(idx)], seq![negate_c_gate(idx)]),
            Operation::Mul => (Seq::empty(), seq![op_gate(idx), negate_c_gate(idx)]),
        }
    } else {
        (Seq::empty(), product_gates(r, m, idx))
    }
}

/// Layer `layer` of `c` holds exactly the given gates, in order.
pub open spec fn layer_is(c: Circuit, layer: int, gates: (Seq<Gate>, Seq<Gate>)) -> bool {
    &&& c.layers_spec()[layer].adds() == gates.0
    &&& c.layers_spec()[layer].muls() == gates.1
    &&& c.layers_spec()[layer].len_spec() == gates.0.len() + gates.1.len()
}

/// The circuit that checks `A op B = C` for a reduced constraint, placed at
/// offset `constraint_index` so that circuits of several constraints can be added.
pub fn constraint_circuit<const P: u64>(
    constraint: &ReducedConstraint<P>,
    constant_map: &ConstantMap<P>,
    constraint_index: usize,
) -> (r: Circuit)
    requires
        1 < P,
        constants_known(*constraint, constant_map.entries()),
        4 * constraint_index + 3 <= usize::MAX,
    ensures
        r.layers_spec().len() == CIRCUIT_DEPTH,
        forall|j: int|
            0 <= j < 3 ==> layer_is(
                r,
                j,
                constraint_layer(*constraint, constant_map.entries(), constraint_index as nat, j),
            ),
{
    let output_layer_offset = constraint_index;
    let compute_layer_offset = output_layer_offset * 2;
    let product_layer_offset = compute_layer_offset * 2;
    let circuit_input = reduced_constraint_to_circuit_input(constraint, constant_map);
    let one_index = constant_map.get(&Fp::one()).unwrap();
    let minus_one_index = constant_map.get(&Fp::one().neg()).unwrap();
    let a_mul_gate = Gate::new(product_layer_offset, circuit_input[0].0, circuit_input[0].1);
    let b_mul_gate = Gate::new(1 + product_layer_offset, circuit_input[1].0, circuit_input[1].1);
    let c_mul_gate = Gate::new(2 + product_layer_offset, circuit_input[2].0, circuit_input[2].1);
    let minus_1_gate = Gate::new(3 + product_layer_offset, one_index, minus_one_index);
    let mut sign_gates: Vec<Gate> = Vec::new();
    sign_gates.push(a_mul_gate);
    sign_gates.push(b_mul_gate);
    sign_gates.push(c_mul_gate);
    sign_gates.push(minus_1_gate);
    let sign_layer = Layer::new(Vec::new(), sign_gates);
    let a_op_b_gate = Gate::new(compute_layer_offset, product_layer_offset, 1 + product_layer_offset);
    let c_mul_minus_1 = Gate::new(1 + compute_layer_offset, 2 + product_layer_offset, 3 + product_layer_offset);
    let compute_layer = match constraint.operation {
        Operation::Add => {
            let mut adds: Vec<Gate> = Vec::new();
            adds.push(a_op_b_gate);
            let mut muls: Vec<Gate> = Vec::new();
            muls.push(c_mul_minus_1);
            Layer::new(adds, muls)
        },
        Operation::Mul => {
            let mut muls: Vec<Gate> = Vec::new();
            muls.push(a_op_b_gate);
            muls.push(c_mul_minus_1);
            Layer::new(Vec::new(), muls)
        },
    };
    let output_gate = Gate::new(output_layer_offset, compute_layer_offset, 1 + compute_layer_offset);
    let mut out_adds: Vec<Gate> = Vec::new();
    out_adds.push(output_gate);
    let output_layer = Layer::new(out_adds, Vec::new());
    let mut layers: Vec<Layer> = Vec::new();
    layers.push(output_layer);
    layers.push(compute_layer);
    layers.push(sign_layer);
    proof {
        let m = constant_map.entries();
        let idx = constraint_index as nat;
        assert(layers@[0].adds() =~= constraint_layer(*constraint, m, idx, 0).0);
        assert(layers@[0].muls() =~= constraint_layer(*constraint, m, idx, 0).1);
        assert(layers@[1].adds() =~= constraint_layer(*constraint, m, idx, 1).0);
        assert(layers@[1].muls() =~= constraint_layer(*constraint, m, idx, 1).1);
        assert(layers@[2].adds() =~= constraint_layer(*constraint, m, idx, 2).0);
        assert(layers@[2].muls() =~= constraint_layer(*constraint, m, idx, 2).1);
    }
    Circuit::new(layers).unwrap()
}

/// The gates of layer `j` over the circuits of the first `k` constraints, in order.
pub open spec fn program_layer<const P: u64>(rs: Seq<ReducedConstraint<P>>, m: Map<u64, usize>, j: int, k: nat) -> (
    Seq<Gate>,
    Seq<Gate>,
)
    decreases k,
{
    if k == 0 {
        (Seq::empty(), Seq::empty())
    } else {
        let prev = program_layer(rs, m, j, (k - 1) as nat);
        let here = constraint_layer(rs[k - 1], m, (k - 1) as nat, j);
        (prev.0 + here.0, prev.1 + here.1)
    }
}

/// Every constant of every reduced constraint has a position.
pub open spec fn all_constants_known<const P: u64>(rs: Seq<ReducedConstraint<P>>, m: Map<u64, usize>) -> bool {
    forall|i: int| 0 <= i < rs.len() ==> constants_known(#[trigger] rs[i], m)
}

/// The layer sizes of the first `k` constraint circuits.
proof fn lemma_program_layer_len<const P: u64>(rs: Seq<ReducedConstraint<P>>, m: Map<u64, usize>, j: int, k: nat)
    requires
        0 <= j < 3,
        k <= rs.len(),
    ensures
        program_layer(rs, m, j, k).0.len() + program_layer(rs, m, j, k).1.len() == k * (if j == 0 {
            1nat
        } else if j == 1 {
            2nat
        } else {
            4nat
        }),
    decreases k,
{
    if k > 0 {
        lemma_program_layer_len(rs, m, j, (k - 1) as nat);
    }
}

/// The sum of the circuits of the reduced constraints, the constant map and the
/// symbol table of a compiled program.
#[verifier::spinoff_prover]
pub fn program_circuit<const P: u64>(program: R1CSProgram<P>) -> (r: (Circuit, ConstantMap<P>, SymbolTable<P>))
    requires
        1 < P,
        program_max_index(program.constraints_spec()) + total_terms(program.constraints_spec())
            <= usize::MAX,
        ({
            let (rs, t) = compile_fold(
                program.constraints_spec(),
                (Seq::<((Term<P>, Term<P>), usize)>::empty(), program_max_index(program.constraints_spec())),
            );
            &&& t.1 + 2 + 3 * rs.len() <= usize::MAX
            &&& 4 * rs.len() + 3 <= usize::MAX
        }),
    ensures
        ({
            let (rs, t) = compile_fold(
                program.constraints_spec(),
                (Seq::<((Term<P>, Term<P>), usize)>::empty(), program_max_index(program.constraints_spec())),
            );
            let m = r.1.entries();
            &&& r.2.state() == t
            &&& r.1.order_spec() == order_fold(rs, initial_constants::<P>(t.1 as nat), initial_order::<P>(), rs.len())
            &&& m == constants_fold(rs, initial_constants::<P>(t.1 as nat), rs.len()).0
            &&& r.0.layers_spec().len() == CIRCUIT_DEPTH
            &&& forall|j: int| 0 <= j < 3 ==> layer_is(r.0, j, program_layer(rs, m, j, rs.len()))
        }),
{
    let (compiled_program, symbol_table) = program.compile();
    let constant_map = generate_constant_map(compiled_program.as_slice(), symbol_table.last_index());
    proof {
        lemma_constants_known(compiled_program@, initial_constants::<P>(symbol_table.state().1 as nat));
    }
    let mut program_circuit = Circuit::additive_identity(CIRCUIT_DEPTH);
    proof {
        assert forall|j: int| 0 <= j < 3 implies layer_is(
            program_circuit,
            j,
            program_layer(compiled_program@, constant_map.entries(), j, 0),
        ) by {
            assert(program_circuit.layers_spec()[j].adds() =~= Seq::<Gate>::empty());
            assert(program_circuit.layers_spec()[j].muls() =~= Seq::<Gate>::empty());
        }
    }
    let mut circuit_index: usize = 0;
    while circuit_index < compiled_program.len()
        invariant
            1 < P,
            circuit_index <= compiled_program@.len(),
            4 * compiled_program@.len() + 3 <= usize::MAX,
            all_constants_known(compiled_program@, constant_map.entries()),
            program_circuit.layers_spec().len() == CIRCUIT_DEPTH,
            forall|j: int|
                0 <= j < 3 ==> layer_is(
                    program_circuit,
                    j,
                    program_layer(compiled_program@, constant_map.entries(), j, circuit_index as nat),
                ),
        decreases compiled_program@.len() - circuit_index,
    {
        let constraint = &compiled_program[circuit_index];
        proof {
            assert(constants_known(compiled_program@[circuit_index as int], constant_map.entries()));
        }
        let piece = constraint_circuit(constraint, &constant_map, circuit_index);
        proof {
            assert forall|j: int| 0 <= j < 3 implies (#[trigger] program_circuit.layers_spec()[j]).adds().len()
                + program_circuit.layers_spec()[j].muls().len() + piece.layers_spec()[j].adds().len()
                + piece.layers_spec()[j].muls().len() <= usize::MAX by {
                let k = circuit_index as nat;
                lemma_program_layer_len(compiled_program@, constant_map.entries(), j, k);
                assert(layer_is(program_circuit, j, program_layer(compiled_program@, constant_map.entries(), j, k)));
                assert(layer_is(piece, j, constraint_layer(compiled_program@[k as int], constant_map.entries(), k, j)));
                if j == 0 {
                    assert(k * 1 <= 4 * k);
                } else if j == 1 {
                    assert(k * 2 <= 4 * k);
                } else {
                    assert(k * 4 <= 4 * k);
                }
            }
        }
        let ghost before = program_circuit;
        let sum = program_circuit.add(piece);
        program_circuit = sum.unwrap();
        proof {
            assert forall|j: int| 0 <= j < 3 implies #[trigger] layer_is(
                program_circuit,
                j,
                program_layer(compiled_program@, constant_map.entries(), j, (circuit_index + 1) as nat),
            ) by {
                let k = circuit_index as nat;
                assert(layer_is(before, j, program_layer(compiled_program@, constant_map.entries(), j, k)));
                assert(layer_is(piece, j, constraint_layer(compiled_program@[k as int], constant_map.entries(), k, j)));
            }
        }
        circuit_index = circuit_index + 1;
    }
    (program_circuit, constant_map, symbol_table)
}

/// After adding the constants of every reduced constraint, each of them has a position.
proof fn lemma_constants_known<const P: u64>(rs: Seq<ReducedConstraint<P>>, st: (Map<u64, usize>, nat))
    requires
        st.0.contains_key(key(Fp::<P>::spec_zero())),
        st.0.contains_key(key(Fp::<P>::spec_one())),
        st.0.contains_key(key(Fp::<P>::spec_one().spec_neg())),
    ensures
        all_constants_known(rs, constants_fold(rs, st, rs.len()).0),
{
    lemma_constants_grow(rs, st, rs.len());
}

/// Adding constants keeps the ones there and records the ones met.
proof fn lemma_constants_grow<const P: u64>(rs: Seq<ReducedConstraint<P>>, st: (Map<u64, usize>, nat), k: nat)
    requires
        k <= rs.len(),
        st.0.contains_key(key(Fp::<P>::spec_zero())),
        st.0.contains_key(key(Fp::<P>::spec_one())),
        st.0.contains_key(key(Fp::<P>::spec_one().spec_neg())),
    ensures
        forall|x: u64| st.0.contains_key(x) ==> #[trigger] constants_fold(rs, st, k).0.contains_key(x),
        forall|i: int| 0 <= i < k ==> constants_known(#[trigger] rs[i], constants_fold(rs, st, k).0),
    decreases k,
{
    if k > 0 {
        lemma_constants_grow(rs, st, (k - 1) as nat);
        let prev = constants_fold(rs, st, (k - 1) as nat);
        let now = constants_fold(rs, st, k);
        assert forall|x: u64| prev.0.contains_key(x) implies #[trigger] now.0.contains_key(x) by {
        }
        assert forall|i: int| 0 <= i < k implies constants_known(#[trigger] rs[i], now.0) by {
            if i < k - 1 {
                assert(constants_known(rs[i], prev.0));
            }
        }
    }
}

/// The value gate `g` computes from `input`.
pub open spec fn gate_value<const P: u64>(g: Gate, input: Seq<Fp<P>>, is_add: bool) -> Fp<P> {
    if is_add {
        input[g.in_a as int].spec_add(input[g.in_b as int])
    } else {
        input[g.in_a as int].spec_mul(input[g.in_b as int])
    }
}

/// Gates whose outputs are their own indexes fill those positions.
proof fn lemma_apply_indexed<const P: u64>(acc: Seq<Fp<P>>, gs: Seq<Gate>, input: Seq<Fp<P>>, is_add: bool)
    requires
        gs.len() <= acc.len(),
        forall|j: int| 0 <= j < gs.len() ==> (#[trigger] gs[j]).out == j,
    ensures
        apply_gates(acc, gs, input, is_add).len() == acc.len(),
        forall|p: int|
            0 <= p < acc.len() ==> #[trigger] apply_gates(acc, gs, input, is_add)[p] == if p < gs.len() {
                gate_value(gs[p], input, is_add)
            } else {
                acc[p]
            },
    decreases gs.len(),
{
    if gs.len() > 0 {
        lemma_apply_indexed(acc, gs.drop_last(), input, is_add);
    }
}

/// A position that no gate writes keeps its value; one that only copies of
/// `g0` write gets `g0`'s value.
proof fn lemma_apply_at<const P: u64>(
    acc: Seq<Fp<P>>,
    gs: Seq<Gate>,
    input: Seq<Fp<P>>,
    is_add: bool,
    p: int,
    g0: Gate,
)
    requires
        0 <= p < acc.len(),
        forall|j: int| 0 <= j < gs.len() ==> (#[trigger] gs[j]).out < acc.len(),
        forall|j: int| 0 <= j < gs.len() && (#[trigger] gs[j]).out == p ==> gs[j] == g0,
    ensures
        apply_gates(acc, gs, input, is_add).len() == acc.len(),
        apply_gates(acc, gs, input, is_add)[p] == if exists|j: int| 0 <= j < gs.len() && (#[trigger] gs[j]).out == p {
            gate_value(g0, input, is_add)
        } else {
            acc[p]
        },
    decreases gs.len(),
{
    if gs.len() > 0 {
        let prev = gs.drop_last();
        lemma_apply_at(acc, prev, input, is_add, p, g0);
        let g = gs.last();
        if g.out != p {
            if exists|j: int| 0 <= j < gs.len() && (#[trigger] gs[j]).out == p {
                let j = choose|j: int| 0 <= j < gs.len() && (#[trigger] gs[j]).out == p;
                assert(j < prev.len());
                assert(prev[j].out == p);
            }
            if exists|j: int| 0 <= j < prev.len() && (#[trigger] prev[j]).out == p {
                let j = choose|j: int| 0 <= j < prev.len() && (#[trigger] prev[j]).out == p;
                assert(gs[j].out == p);
            }
        } else {
            assert(gs[gs.len() - 1].out == p);
        }
    }
}


/// The product layer of the program circuit: gate `4 i + q` is gate `q` of
/// the product gates of constraint `i`.
proof fn lemma_product_layer<const P: u64>(rs: Seq<ReducedConstraint<P>>, m: Map<u64, usize>, k: nat)
    requires
        k <= rs.len(),
    ensures
        program_layer(rs, m, 2, k).0.len() == 0,
        program_layer(rs, m, 2, k).1.len() == 4 * k,
        forall|i: int, q: int|
            0 <= i < k && 0 <= q < 4 ==> #[trigger] program_layer(rs, m, 2, k).1[4 * i + q] == product_gates(
                rs[i],
                m,
                i as nat,
            )[q],
    decreases k,
{
    if k > 0 {
        lemma_product_layer(rs, m, (k - 1) as nat);
        let prev = program_layer(rs, m, 2, (k - 1) as nat);
        let here = product_gates(rs[k - 1], m, (k - 1) as nat);
        assert(program_layer(rs, m, 2, k).1 == prev.1 + here);
        assert forall|i: int, q: int| 0 <= i < k && 0 <= q < 4 implies #[trigger] program_layer(
            rs,
            m,
            2,
            k,
        ).1[4 * i + q] == product_gates(rs[i], m, i as nat)[q] by {
            if i < k - 1 {
                assert(4 * i + q < 4 * (k - 1));
                assert((prev.1 + here)[4 * i + q] == prev.1[4 * i + q]);
            } else {
                assert((prev.1 + here)[4 * i + q] == here[q]);
            }
        }
    }
}

/// The output layer of the program circuit: add gate `i` is the output gate of constraint `i`.
proof fn lemma_output_layer<const P: u64>(rs: Seq<ReducedConstraint<P>>, m: Map<u64, usize>, k: nat)
    requires
        k <= rs.len(),
    ensures
        program_layer(rs, m, 0, k).0.len() == k,
        program_layer(rs, m, 0, k).1.len() == 0,
        forall|i: int| 0 <= i < k ==> #[trigger] program_layer(rs, m, 0, k).0[i] == output_gate(i as nat),
    decreases k,
{
    if k > 0 {
        lemma_output_layer(rs, m, (k - 1) as nat);
        let prev = program_layer(rs, m, 0, (k - 1) as nat);
        assert(program_layer(rs, m, 0, k).0 == prev.0 + seq![output_gate((k - 1) as nat)]);
    }
}

/// Every add gate of the compute layer of the program circuit is the `A + B`
/// gate of an addition constraint.
proof fn lemma_compute_adds<const P: u64>(rs: Seq<ReducedConstraint<P>>, m: Map<u64, usize>, k: nat)
    requires
        k <= rs.len(),
    ensures
        forall|j: int|
            0 <= j < program_layer(rs, m, 1, k).0.len() ==> exists|i: int|
                0 <= i < k && #[trigger] program_layer(rs, m, 1, k).0[j] == op_gate(i as nat)
                    && rs[i].operation == Operation::Add,
    decreases k,
{
    if k > 0 {
        let k1 = (k - 1) as nat;
        lemma_compute_adds(rs, m, k1);
        let prev = program_layer(rs, m, 1, k1).0;
        let here = constraint_layer(rs[k - 1], m, k1, 1).0;
        let cur = program_layer(rs, m, 1, k).0;
        assert(cur == prev + here);
        assert forall|j: int| 0 <= j < cur.len() implies exists|i: int|
            0 <= i < k && #[trigger] cur[j] == op_gate(i as nat) && rs[i].operation == Operation::Add by {
            if j < prev.len() {
                assert(cur[j] == prev[j]);
                let i = choose|i: int| 0 <= i < k1 && #[trigger] prev[j] == op_gate(i as nat) && rs[i].operation == Operation::Add;
                assert(cur[j] == op_gate(i as nat));
            } else {
                assert(cur[j] == here[j - prev.len()]);
                assert(cur[j] == op_gate(k1));
            }
        }
    }
}

/// The add gates of the compute layer of the program circuit include the
/// `A + B` gate of every addition constraint.
proof fn lemma_compute_sums<const P: u64>(rs: Seq<ReducedConstraint<P>>, m: Map<u64, usize>, k: nat)
    requires
        k <= rs.len(),
    ensures
        forall|i: int|
            #![trigger rs[i]]
            0 <= i < k && rs[i].operation == Operation::Add ==> exists|j: int|
                0 <= j < program_layer(rs, m, 1, k).0.len() && #[trigger] program_layer(rs, m, 1, k).0[j]
                    == op_gate(i as nat),
    decreases k,
{
    if k > 0 {
        let k1 = (k - 1) as nat;
        lemma_compute_sums(rs, m, k1);
        let prev = program_layer(rs, m, 1, k1).0;
        let here = constraint_layer(rs[k - 1], m, k1, 1).0;
        let cur = program_layer(rs, m, 1, k).0;
        assert(cur == prev + here);
        assert forall|i: int| #![trigger rs[i]] 0 <= i < k && rs[i].operation == Operation::Add implies exists|j: int|
            0 <= j < cur.len() && #[trigger] cur[j] == op_gate(i as nat) by {
            if i < k1 {
                let j = choose|j: int| 0 <= j < prev.len() && #[trigger] prev[j] == op_gate(i as nat);
                assert(cur[j] == prev[j]);
            } else {
                assert(cur[prev.len() as int] == here[0]);
            }
        }
    }
}

/// Every mul gate of the compute layer of the program circuit is the `C * -1`
/// gate of a constraint or the `A * B` gate of a multiplication constraint.
proof fn lemma_compute_muls<const P: u64>(rs: Seq<ReducedConstraint<P>>, m: Map<u64, usize>, k: nat)
    requires
        k <= rs.len(),
    ensures
        forall|j: int|
            0 <= j < program_layer(rs, m, 1, k).1.len() ==> exists|i: int|
                0 <= i < k && (#[trigger] program_layer(rs, m, 1, k).1[j] == negate_c_gate(i as nat) || (
                program_layer(rs, m, 1, k).1[j] == op_gate(i as nat) && rs[i].operation == Operation::Mul)),
    decreases k,
{
    if k > 0 {
        let k1 = (k - 1) as nat;
        lemma_compute_muls(rs, m, k1);
        let prev = program_layer(rs, m, 1, k1).1;
        let here = constraint_layer(rs[k - 1], m, k1, 1).1;
        let cur = program_layer(rs, m, 1, k).1;
        assert(cur == prev + here);
        assert forall|j: int| 0 <= j < cur.len() implies exists|i: int|
            0 <= i < k && (#[trigger] cur[j] == negate_c_gate(i as nat) || (cur[j] == op_gate(i as nat)
                && rs[i].operation == Operation::Mul)) by {
            if j < prev.len() {
                assert(cur[j] == prev[j]);
                let i = choose|i: int| 0 <= i < k1 && (#[trigger] prev[j] == negate_c_gate(i as nat) || (
                    prev[j] == op_gate(i as nat) && rs[i].operation == Operation::Mul));
                assert(cur[j] == negate_c_gate(i as nat) || (cur[j] == op_gate(i as nat)
                    && rs[i].operation == Operation::Mul));
            } else {
                assert(cur[j] == here[j - prev.len()]);
                assert(cur[j] == negate_c_gate(k1) || (cur[j] == op_gate(k1) && rs[k - 1].operation
                    == Operation::Mul));
            }
        }
    }
}

/// The compute layer of the program circuit holds the `C * -1` gate of every constraint.
proof fn lemma_compute_negations<const P: u64>(rs: Seq<ReducedConstraint<P>>, m: Map<u64, usize>, k: nat)
    requires
        k <= rs.len(),
    ensures
        forall|i: int|
            #![trigger negate_c_gate(i as nat)]
            0 <= i < k ==> exists|j: int|
                0 <= j < program_layer(rs, m, 1, k).1.len() && #[trigger] program_layer(rs, m, 1, k).1[j]
                    == negate_c_gate(i as nat),
    decreases k,
{
    if k > 0 {
        let k1 = (k - 1) as nat;
        lemma_compute_negations(rs, m, k1);
        let prev = program_layer(rs, m, 1, k1).1;
        let here = constraint_layer(rs[k - 1], m, k1, 1).1;
        let cur = program_layer(rs, m, 1, k).1;
        assert(cur == prev + here);
        assert forall|i: int| #![trigger negate_c_gate(i as nat)] 0 <= i < k implies exists|j: int|
            0 <= j < cur.len() && #[trigger] cur[j] == negate_c_gate(i as nat) by {
            if i < k1 {
                let j = choose|j: int| 0 <= j < prev.len() && #[trigger] prev[j] == negate_c_gate(i as nat);
                assert(cur[j] == prev[j]);
            } else {
                let last = here.len() - 1;
                assert(cur[prev.len() + last] == here[last]);
            }
        }
    }
}

/// The compute layer of the program circuit holds the `A * B` gate of every
/// multiplication constraint among its mul gates.
proof fn lemma_compute_products<const P: u64>(rs: Seq<ReducedConstraint<P>>, m: Map<u64, usize>, k: nat)
    requires
        k <= rs.len(),
    ensures
        forall|i: int|
            #![trigger rs[i]]
            0 <= i < k && rs[i].operation == Operation::Mul ==> exists|j: int|
                0 <= j < program_layer(rs, m, 1, k).1.len() && #[trigger] program_layer(rs, m, 1, k).1[j]
                    == op_gate(i as nat),
    decreases k,
{
    if k > 0 {
        let k1 = (k - 1) as nat;
        lemma_compute_products(rs, m, k1);
        let prev = program_layer(rs, m, 1, k1).1;
        let here = constraint_layer(rs[k - 1], m, k1, 1).1;
        let cur = program_layer(rs, m, 1, k).1;
        assert(cur == prev + here);
        assert forall|i: int| #![trigger rs[i]] 0 <= i < k && rs[i].operation == Operation::Mul implies exists|j: int|
            0 <= j < cur.len() && #[trigger] cur[j] == op_gate(i as nat) by {
            if i < k1 {
                let j = choose|j: int| 0 <= j < prev.len() && #[trigger] prev[j] == op_gate(i as nat);
                assert(cur[j] == prev[j]);
            } else {
                assert(cur[prev.len() as int] == here[0]);
            }
        }
    }
}


/// What the circuit of reduced constraint `r` outputs on witness `w`:
/// `(A op B) + C * (1 * -1)`, each of `A`, `B`, `C` the product of the two
/// witness positions the circuit input gives it.
pub open spec fn residual<const P: u64>(r: ReducedConstraint<P>, m: Map<u64, usize>, w: Seq<Fp<P>>) -> Fp<P> {
    let input = circuit_input_spec(r, m);
    let a = w[input[0].0 as int].spec_mul(w[input[0].1 as int]);
    let b = w[input[1].0 as int].spec_mul(w[input[1].1 as int]);
    let c = w[input[2].0 as int].spec_mul(w[input[2].1 as int]);
    let sign = w[m[key(Fp::<P>::spec_one())] as int].spec_mul(w[m[key(Fp::<P>::spec_one().spec_neg())] as int]);
    let lhs = match r.operation {
        Operation::Add => a.spec_add(b),
        Operation::Mul => a.spec_mul(b),
    };
    lhs.spec_add(c.spec_mul(sign))
}

/// The values of the product layer of the program circuit.
proof fn lemma_product_values<const P: u64>(c: Circuit, rs: Seq<ReducedConstraint<P>>, m: Map<u64, usize>, w: Seq<Fp<P>>)
    requires
        c.layers_spec().len() == CIRCUIT_DEPTH,
        layer_is(c, 2, program_layer(rs, m, 2, rs.len())),
        4 * rs.len() + 3 <= usize::MAX,
    ensures
        c.values_at(w, 2).len() == 4 * rs.len(),
        forall|i: int, q: int|
            0 <= i < rs.len() && 0 <= q < 4 ==> #[trigger] c.values_at(w, 2)[4 * i + q] == gate_value(
                product_gates(rs[i], m, i as nat)[q],
                w,
                false,
            ),
{
    let k = rs.len();
    lemma_product_layer(rs, m, k);
    let layer = c.layers_spec()[2];
    let gs = layer.muls();
    assert(c.values_at(w, 3) == w);
    assert forall|j: int| 0 <= j < gs.len() implies (#[trigger] gs[j]).out == j by {
        let i = j / 4;
        let q = j % 4;
        assert(j == 4 * i + q);
        assert(gs[4 * i + q] == product_gates(rs[i], m, i as nat)[q]);
    }
    let zeros = Seq::new(layer.len_spec(), |i: int| Fp::<P>::spec_zero());
    assert(layer.adds().len() == 0);
    assert(apply_gates(zeros, layer.adds(), w, true) == zeros);
    lemma_apply_indexed(zeros, gs, w, false);
}

/// Every gate of the compute layer writes below `2 k`.
proof fn lemma_compute_bounds<const P: u64>(rs: Seq<ReducedConstraint<P>>, m: Map<u64, usize>)
    requires
        4 * rs.len() + 3 <= usize::MAX,
    ensures
        forall|j: int|
            0 <= j < program_layer(rs, m, 1, rs.len()).0.len() ==> (#[trigger] program_layer(
                rs,
                m,
                1,
                rs.len(),
            ).0[j]).out < 2 * rs.len(),
        forall|j: int|
            0 <= j < program_layer(rs, m, 1, rs.len()).1.len() ==> (#[trigger] program_layer(
                rs,
                m,
                1,
                rs.len(),
            ).1[j]).out < 2 * rs.len(),
{
    let k = rs.len();
    let adds = program_layer(rs, m, 1, k).0;
    let muls = program_layer(rs, m, 1, k).1;
    lemma_compute_adds(rs, m, k);
    lemma_compute_muls(rs, m, k);
    assert forall|j: int| 0 <= j < adds.len() implies (#[trigger] adds[j]).out < 2 * k by {
        let i = choose|i: int| 0 <= i < k && #[trigger] adds[j] == op_gate(i as nat) && rs[i].operation == Operation::Add;
    }
    assert forall|j: int| 0 <= j < muls.len() implies (#[trigger] muls[j]).out < 2 * k by {
        let i = choose|i: int| 0 <= i < k && (#[trigger] muls[j] == negate_c_gate(i as nat) || (muls[j] == op_gate(i as nat) && rs[i].operation == Operation::Mul));
    }
}

/// Every gate of the compute layer comes from a constraint: its add gates are
/// `A + B` gates of addition constraints, its mul gates `C * -1` gates or
/// `A * B` gates of multiplication constraints.
pub open spec fn compute_gates_known<const P: u64>(rs: Seq<ReducedConstraint<P>>, adds: Seq<Gate>, muls: Seq<Gate>) -> bool {
    &&& forall|j: int|
        0 <= j < adds.len() ==> exists|i: int|
            0 <= i < rs.len() && #[trigger] adds[j] == op_gate(i as nat) && rs[i].operation == Operation::Add
    &&& forall|j: int|
        0 <= j < muls.len() ==> exists|i: int|
            0 <= i < rs.len() && (#[trigger] muls[j] == negate_c_gate(i as nat) || (muls[j] == op_gate(i as nat)
                && rs[i].operation == Operation::Mul))
}

/// Where the gates of constraint `i` stand in the compute layer: the `A op B`
/// gate (among the add gates for an addition, the mul gates for a
/// multiplication) and the `C * -1` gate among the mul gates.
proof fn lemma_compute_positions<const P: u64>(rs: Seq<ReducedConstraint<P>>, m: Map<u64, usize>, i: int) -> (r: (int, int))
    requires
        0 <= i < rs.len(),
    ensures
        rs[i].operation == Operation::Add ==> 0 <= r.0 < program_layer(rs, m, 1, rs.len()).0.len()
            && program_layer(rs, m, 1, rs.len()).0[r.0] == op_gate(i as nat),
        rs[i].operation == Operation::Mul ==> 0 <= r.0 < program_layer(rs, m, 1, rs.len()).1.len()
            && program_layer(rs, m, 1, rs.len()).1[r.0] == op_gate(i as nat),
        0 <= r.1 < program_layer(rs, m, 1, rs.len()).1.len() && program_layer(rs, m, 1, rs.len()).1[r.1]
            == negate_c_gate(i as nat),
{
    let k = rs.len();
    let adds = program_layer(rs, m, 1, k).0;
    let muls = program_layer(rs, m, 1, k).1;
    lemma_compute_sums(rs, m, k);
    lemma_compute_products(rs, m, k);
    lemma_compute_negations(rs, m, k);
    assert(negate_c_gate(i as nat) == negate_c_gate(i as nat));
    let jn = choose|j: int| 0 <= j < muls.len() && #[trigger] muls[j] == negate_c_gate(i as nat);
    if rs[i].operation == Operation::Add {
        assert(rs[i] == rs[i]);
        let ja = choose|j: int| 0 <= j < adds.len() && #[trigger] adds[j] == op_gate(i as nat);
        (ja, jn)
    } else {
        assert(rs[i] == rs[i]);
        let jm = choose|j: int| 0 <= j < muls.len() && #[trigger] muls[j] == op_gate(i as nat);
        (jm, jn)
    }
}

/// Only the `A op B` gate of constraint `i` writes position `2 i` of the
/// compute layer: an add gate for an addition, a mul gate for a multiplication.
proof fn lemma_compute_even<const P: u64>(rs: Seq<ReducedConstraint<P>>, adds: Seq<Gate>, muls: Seq<Gate>, i: int, ja: int)
    requires
        4 * rs.len() + 3 <= usize::MAX,
        0 <= i < rs.len(),
        compute_gates_known(rs, adds, muls),
        rs[i].operation == Operation::Add ==> 0 <= ja < adds.len() && adds[ja] == op_gate(i as nat),
        rs[i].operation == Operation::Mul ==> 0 <= ja < muls.len() && muls[ja] == op_gate(i as nat),
    ensures
        forall|j: int| 0 <= j < adds.len() && (#[trigger] adds[j]).out == 2 * i ==> adds[j] == op_gate(i as nat),
        forall|j: int| 0 <= j < muls.len() && (#[trigger] muls[j]).out == 2 * i ==> muls[j] == op_gate(i as nat),
        (exists|j: int| 0 <= j < adds.len() && (#[trigger] adds[j]).out == 2 * i) <==> rs[i].operation
            == Operation::Add,
        (exists|j: int| 0 <= j < muls.len() && (#[trigger] muls[j]).out == 2 * i) <==> rs[i].operation
            == Operation::Mul,
{
    let k = rs.len();
    let p = 2 * i;
    assert forall|j: int| 0 <= j < adds.len() && (#[trigger] adds[j]).out == p implies adds[j] == op_gate(i as nat)
        && rs[i].operation == Operation::Add by {
        let i2 = choose|i2: int| 0 <= i2 < k && #[trigger] adds[j] == op_gate(i2 as nat) && rs[i2].operation == Operation::Add;
    }
    assert forall|j: int| 0 <= j < muls.len() && (#[trigger] muls[j]).out == p implies muls[j] == op_gate(i as nat)
        && rs[i].operation == Operation::Mul by {
        let i2 = choose|i2: int| 0 <= i2 < k && (#[trigger] muls[j] == negate_c_gate(i2 as nat) || (muls[j] == op_gate(i2 as nat) && rs[i2].operation == Operation::Mul));
    }
    if rs[i].operation == Operation::Add {
        assert(adds[ja].out == p);
    } else {
        assert(muls[ja].out == p);
    }
}

/// Only the `C * -1` gate of constraint `i` writes position `2 i + 1` of the
/// compute layer, and it is a mul gate.
proof fn lemma_compute_odd<const P: u64>(rs: Seq<ReducedConstraint<P>>, adds: Seq<Gate>, muls: Seq<Gate>, i: int, jn: int)
    requires
        4 * rs.len() + 3 <= usize::MAX,
        0 <= i < rs.len(),
        compute_gates_known(rs, adds, muls),
        0 <= jn < muls.len() && muls[jn] == negate_c_gate(i as nat),
    ensures
        !exists|j: int| 0 <= j < adds.len() && (#[trigger] adds[j]).out == 2 * i + 1,
        forall|j: int|
            0 <= j < muls.len() && (#[trigger] muls[j]).out == 2 * i + 1 ==> muls[j] == negate_c_gate(i as nat),
        exists|j: int| 0 <= j < muls.len() && (#[trigger] muls[j]).out == 2 * i + 1,
{
    let k = rs.len();
    let p = 2 * i + 1;
    assert forall|j: int| 0 <= j < adds.len() implies (#[trigger] adds[j]).out != p by {
        let i2 = choose|i2: int| 0 <= i2 < k && #[trigger] adds[j] == op_gate(i2 as nat) && rs[i2].operation == Operation::Add;
    }
    assert forall|j: int| 0 <= j < muls.len() && (#[trigger] muls[j]).out == p implies muls[j] == negate_c_gate(i as nat) by {
        let i2 = choose|i2: int| 0 <= i2 < k && (#[trigger] muls[j] == negate_c_gate(i2 as nat) || (muls[j] == op_gate(i2 as nat) && rs[i2].operation == Operation::Mul));
    }
    assert(muls[jn].out == p);
}

/// Applying gates that write inside `acc` keeps its length.
proof fn lemma_apply_len<const P: u64>(acc: Seq<Fp<P>>, gs: Seq<Gate>, input: Seq<Fp<P>>, is_add: bool)
    requires
        forall|j: int| 0 <= j < gs.len() ==> (#[trigger] gs[j]).out < acc.len(),
    ensures
        apply_gates(acc, gs, input, is_add).len() == acc.len(),
    decreases gs.len(),
{
    if gs.len() > 0 {
        lemma_apply_len(acc, gs.drop_last(), input, is_add);
    }
}

/// The values of the compute layer of the program circuit: `A op B` at `2 i`
/// and `C * -1` at `2 i + 1`, from the values of the product layer.
proof fn lemma_compute_values<const P: u64>(c: Circuit, rs: Seq<ReducedConstraint<P>>, m: Map<u64, usize>, w: Seq<Fp<P>>)
    requires
        c.layers_spec().len() == CIRCUIT_DEPTH,
        layer_is(c, 1, program_layer(rs, m, 1, rs.len())),
        4 * rs.len() + 3 <= usize::MAX,
    ensures
        c.values_at(w, 1).len() == 2 * rs.len(),
        forall|i: int|
            0 <= i < rs.len() ==> #[trigger] c.values_at(w, 1)[2 * i] == gate_value(
                op_gate(i as nat),
                c.values_at(w, 2),
                rs[i].operation == Operation::Add,
            ),
        forall|i: int|
            0 <= i < rs.len() ==> #[trigger] c.values_at(w, 1)[2 * i + 1] == gate_value(
                negate_c_gate(i as nat),
                c.values_at(w, 2),
                false,
            ),
{
    let k = rs.len();
    let layer = c.layers_spec()[1];
    let v2 = c.values_at(w, 2);
    let adds = layer.adds();
    let muls = layer.muls();
    lemma_program_layer_len(rs, m, 1, k);
    lemma_compute_bounds(rs, m);
    lemma_compute_adds(rs, m, k);
    lemma_compute_muls(rs, m, k);
    assert(compute_gates_known(rs, adds, muls));
    let zeros = Seq::new(layer.len_spec(), |i: int| Fp::<P>::spec_zero());
    let mid = apply_gates(zeros, adds, v2, true);
    assert(layer.len_spec() == 2 * k);
    lemma_apply_len(zeros, adds, v2, true);
    lemma_apply_len(mid, muls, v2, false);
    assert forall|i: int| 0 <= i < k implies #[trigger] c.values_at(w, 1)[2 * i] == gate_value(
        op_gate(i as nat),
        v2,
        rs[i].operation == Operation::Add,
    ) by {
        let (ja, jn) = lemma_compute_positions(rs, m, i);
        lemma_compute_even(rs, adds, muls, i, ja);
        lemma_apply_at(zeros, adds, v2, true, 2 * i, op_gate(i as nat));
        lemma_apply_at(mid, muls, v2, false, 2 * i, op_gate(i as nat));
    }
    assert forall|i: int| 0 <= i < k implies #[trigger] c.values_at(w, 1)[2 * i + 1] == gate_value(
        negate_c_gate(i as nat),
        v2,
        false,
    ) by {
        let (ja, jn) = lemma_compute_positions(rs, m, i);
        lemma_compute_odd(rs, adds, muls, i, jn);
        lemma_apply_at(zeros, adds, v2, true, 2 * i + 1, negate_c_gate(i as nat));
        lemma_apply_at(mid, muls, v2, false, 2 * i + 1, negate_c_gate(i as nat));
    }
}

/// Run on a witness, the circuit built from reduced constraints `rs` outputs
/// one value per constraint: the residual of that constraint.
pub proof fn lemma_circuit_outputs<const P: u64>(c: Circuit, rs: Seq<ReducedConstraint<P>>, m: Map<u64, usize>, w: Seq<Fp<P>>)
    requires
        c.layers_spec().len() == CIRCUIT_DEPTH,
        forall|j: int| 0 <= j < 3 ==> layer_is(c, j, #[trigger] program_layer(rs, m, j, rs.len())),
        4 * rs.len() + 3 <= usize::MAX,
    ensures
        c.values_at(w, 0).len() == rs.len(),
        forall|i: int| 0 <= i < rs.len() ==> #[trigger] c.values_at(w, 0)[i] == residual(rs[i], m, w),
{
    let k = rs.len();
    assert(layer_is(c, 0, program_layer(rs, m, 0, k)));
    assert(layer_is(c, 1, program_layer(rs, m, 1, k)));
    assert(layer_is(c, 2, program_layer(rs, m, 2, k)));
    lemma_product_values(c, rs, m, w);
    lemma_compute_values(c, rs, m, w);
    lemma_output_layer(rs, m, k);
    let layer = c.layers_spec()[0];
    let v1 = c.values_at(w, 1);
    let zeros = Seq::new(layer.len_spec(), |i: int| Fp::<P>::spec_zero());
    lemma_apply_indexed(zeros, layer.adds(), v1, true);
    let mid = apply_gates(zeros, layer.adds(), v1, true);
    assert(layer.muls().len() == 0);
    assert(apply_gates(mid, layer.muls(), v1, false) == mid);
    let v2 = c.values_at(w, 2);
    assert forall|i: int| 0 <= i < k implies #[trigger] c.values_at(w, 0)[i] == residual(rs[i], m, w) by {
        assert(layer.adds()[i] == output_gate(i as nat));
        assert(v1[2 * i] == gate_value(op_gate(i as nat), v2, rs[i].operation == Operation::Add));
        assert(v1[2 * i + 1] == gate_value(negate_c_gate(i as nat), v2, false));
        assert(v2[4 * i + 0] == gate_value(product_gates(rs[i], m, i as nat)[0], w, false));
        assert(v2[4 * i + 1] == gate_value(product_gates(rs[i], m, i as nat)[1], w, false));
        assert(v2[4 * i + 2] == gate_value(product_gates(rs[i], m, i as nat)[2], w, false));
        assert(v2[4 * i + 3] == gate_value(product_gates(rs[i], m, i as nat)[3], w, false));
    }
}

/// The value of an optional term on witness `w` (its variable times its
/// scale), or `missing` where there is no term.
pub open spec fn term_value<const P: u64>(t: Option<Term<P>>, w: Seq<Fp<P>>, missing: Fp<P>) -> Fp<P> {
    match t {
        Some(t) => w[t.0 as int].spec_mul(t.1),
        None => missing,
    }
}

/// Reduced constraint `r` holds on witness `w`: `A op B = C`, where a missing
/// `A` or `B` stands for the identity of the operation and a missing `C` for zero.
pub open spec fn constraint_holds<const P: u64>(r: ReducedConstraint<P>, w: Seq<Fp<P>>) -> bool {
    let identity = match r.operation {
        Operation::Add => Fp::<P>::spec_zero(),
        Operation::Mul => Fp::<P>::spec_one(),
    };
    let a = term_value(r.a, w, identity);
    let b = term_value(r.b, w, identity);
    let c = term_value(r.c, w, Fp::<P>::spec_zero());
    match r.operation {
        Operation::Add => a.spec_add(b) == c,
        Operation::Mul => a.spec_mul(b) == c,
    }
}

/// Witness `w` holds, at the position `m` gives each constant that the
/// circuit of `r` reads, that constant: zero, one, minus one and the scales of `r`.
pub open spec fn constants_placed<const P: u64>(r: ReducedConstraint<P>, m: Map<u64, usize>, w: Seq<Fp<P>>) -> bool {
    &&& w[m[key(Fp::<P>::spec_zero())] as int] == Fp::<P>::spec_zero()
    &&& w[m[key(Fp::<P>::spec_one())] as int] == Fp::<P>::spec_one()
    &&& w[m[key(Fp::<P>::spec_one().spec_neg())] as int] == Fp::<P>::spec_one().spec_neg()
    &&& (r.a matches Some(t) ==> w[m[key(t.1)] as int] == t.1)
    &&& (r.b matches Some(t) ==> w[m[key(t.1)] as int] == t.1)
    &&& (r.c matches Some(t) ==> w[m[key(t.1)] as int] == t.1)
}

/// On a witness that holds the constants at their positions, the output of
/// the circuit of a reduced constraint is zero exactly when the constraint holds.
pub proof fn lemma_residual_zero<const P: u64>(r: ReducedConstraint<P>, m: Map<u64, usize>, w: Seq<Fp<P>>)
    requires
        1 < P,
        constants_placed(r, m, w),
    ensures
        residual(r, m, w) == Fp::<P>::spec_zero() <==> constraint_holds(r, w),
{
    let zero = Fp::<P>::spec_zero();
    let one = Fp::<P>::spec_one();
    Fp::<P>::lemma_sign_mul();
    Fp::<P>::lemma_ops_canonical(zero, zero);
    Fp::<P>::lemma_identities(zero);
    let identity = match r.operation {
        Operation::Add => zero,
        Operation::Mul => one,
    };
    let input = circuit_input_spec(r, m);
    let a = w[input[0].0 as int].spec_mul(w[input[0].1 as int]);
    let b = w[input[1].0 as int].spec_mul(w[input[1].1 as int]);
    let c = w[input[2].0 as int].spec_mul(w[input[2].1 as int]);
    assert(a == term_value(r.a, w, identity));
    assert(b == term_value(r.b, w, identity));
    assert(c == term_value(r.c, w, zero));
    let lhs = match r.operation {
        Operation::Add => a.spec_add(b),
        Operation::Mul => a.spec_mul(b),
    };
    Fp::<P>::lemma_ops_canonical(a, b);
    Fp::<P>::lemma_ops_canonical(w[input[2].0 as int], w[input[2].1 as int]);
    Fp::<P>::lemma_minus_zero(lhs, c);
}

/// Run on a witness that holds the constants at their positions, the circuit
/// built from reduced constraints `rs` outputs one value per constraint, and
/// value `i` is zero exactly when constraint `i` holds.
pub proof fn lemma_circuit_checks_constraints<const P: u64>(
    c: Circuit,
    rs: Seq<ReducedConstraint<P>>,
    m: Map<u64, usize>,
    w: Seq<Fp<P>>,
)
    requires
        1 < P,
        c.layers_spec().len() == CIRCUIT_DEPTH,
        forall|j: int| 0 <= j < 3 ==> layer_is(c, j, #[trigger] program_layer(rs, m, j, rs.len())),
        4 * rs.len() + 3 <= usize::MAX,
        forall|i: int| 0 <= i < rs.len() ==> constants_placed(#[trigger] rs[i], m, w),
    ensures
        c.values_at(w, 0).len() == rs.len(),
        forall|i: int|
            0 <= i < rs.len() ==> (#[trigger] c.values_at(w, 0)[i] == Fp::<P>::spec_zero() <==> constraint_holds(
                rs[i],
                w,
            )),
{
    lemma_circuit_outputs(c, rs, m, w);
    assert forall|i: int| 0 <= i < rs.len() implies (#[trigger] c.values_at(w, 0)[i] == Fp::<P>::spec_zero()
        <==> constraint_holds(rs[i], w)) by {
        lemma_residual_zero(rs[i], m, w);
    }
}

} // verus!
