//! Layered circuits with array-encoded gates, a builder that lays them out, and the
//! tables used by the Libra prover.
//!
//! A gate is `[out, left, right]`: it writes position `out` of its layer from positions
//! `left` and `right` of the layer below.
use crate::field::Fp;
use vstd::arithmetic::div_mod::*;
use vstd::arithmetic::mul::*;
use vstd::arithmetic::power2::*;
use vstd::prelude::*;

verus! {

/// The gates of one layer.
#[derive(Debug)]
pub struct LibraLayer {
    add_gates: Vec<[usize; 3]>,
    mul_gates: Vec<[usize; 3]>,
    len: usize,
}

impl LibraLayer {
    pub closed spec fn adds(self) -> Seq<[usize; 3]> {
        self.add_gates@
    }

    pub closed spec fn muls(self) -> Seq<[usize; 3]> {
        self.mul_gates@
    }

    pub closed spec fn len_spec(self) -> nat {
        self.len as nat
    }

    /// A layer holding the given gates; its length is its number of gates.
    pub fn new(add_gates: Vec<[usize; 3]>, mul_gates: Vec<[usize; 3]>) -> (r: Self)
        requires
            add_gates@.len() + mul_gates@.len() <= usize::MAX,
        ensures
            r.adds() == add_gates@,
            r.muls() == mul_gates@,
            r.len_spec() == add_gates@.len() + mul_gates@.len(),
    {
        let len = add_gates.len() + mul_gates.len();
        LibraLayer { add_gates, mul_gates, len }
    }

    /// The empty layer.
    pub fn empty() -> (r: Self)
        ensures
            r.adds().len() == 0,
            r.muls().len() == 0,
            r.len_spec() == 0,
    {
        LibraLayer { add_gates: Vec::new(), mul_gates: Vec::new(), len: 0 }
    }

    /// Append an add gate; the layer grows by one.
    pub fn add_gate(&mut self, gate_info: [usize; 3])
        requires
            old(self).len_spec() < usize::MAX,
        ensures
            final(self).adds() == old(self).adds().push(gate_info),
            final(self).muls() == old(self).muls(),
            final(self).len_spec() == old(self).len_spec() + 1,
    {
        self.add_gates.push(gate_info);
        self.len = self.len + 1;
    }

    /// Append a mul gate; the layer grows by one.
    pub fn mul_gate(&mut self, gate_info: [usize; 3])
        requires
            old(self).len_spec() < usize::MAX,
        ensures
            final(self).muls() == old(self).muls().push(gate_info),
            final(self).adds() == old(self).adds(),
            final(self).len_spec() == old(self).len_spec() + 1,
    {
        self.mul_gates.push(gate_info);
        self.len = self.len + 1;
    }

    pub fn len(&self) -> (r: usize)
        ensures
            r == self.len_spec(),
    {
        self.len
    }
}

/// Write each gate's result to its output position, in order (later gates win).
pub open spec fn apply_array_gates<const P: u64>(
    acc: Seq<Fp<P>>,
    gates: Seq<[usize; 3]>,
    input: Seq<Fp<P>>,
    is_add: bool,
) -> Seq<Fp<P>>
    decreases gates.len(),
{
    if gates.len() == 0 {
        acc
    } else {
        let g = gates.last();
        let prev = apply_array_gates(acc, gates.drop_last(), input, is_add);
        let v = if is_add {
            input[g[1] as int].spec_add(input[g[2] as int])
        } else {
            input[g[1] as int].spec_mul(input[g[2] as int])
        };
        prev.update(g[0] as int, v)
    }
}

/// The values a layer computes from the values below it.
pub open spec fn libra_layer_values<const P: u64>(layer: LibraLayer, input: Seq<Fp<P>>) -> Seq<Fp<P>> {
    let zeros = Seq::new(layer.len_spec(), |i: int| Fp::<P>::spec_zero());
    apply_array_gates(apply_array_gates(zeros, layer.adds(), input, true), layer.muls(), input, false)
}

/// Every gate writes below `out_len` and reads below `in_len`.
pub open spec fn array_gates_in_bounds(gates: Seq<[usize; 3]>, out_len: nat, in_len: nat) -> bool {
    forall|j: int|
        0 <= j < gates.len() ==> #[trigger] gates[j][0] < out_len && gates[j][1] < in_len
            && gates[j][2] < in_len
}

/// A layered circuit; the output layer is at index 0.
#[derive(Debug)]
pub struct LayeredCircuit {
    layers: Vec<LibraLayer>,
}

impl LayeredCircuit {
    pub closed spec fn layers_spec(self) -> Seq<LibraLayer> {
        self.layers@
    }

    /// A circuit made of the given layers (output layer first).
    pub fn new(layers: Vec<LibraLayer>) -> (r: Self)
        ensures
            r.layers_spec() == layers@,
    {
        LayeredCircuit { layers }
    }

    /// The number of values at level `i` (level `layers.len()` holds the inputs).
    pub open spec fn level_len(self, i: int, input_len: nat) -> nat {
        if i == self.layers_spec().len() {
            input_len
        } else {
            self.layers_spec()[i].len_spec()
        }
    }

    pub open spec fn wired(self, input_len: nat) -> bool {
        forall|i: int|
            0 <= i < self.layers_spec().len() ==> {
                &&& array_gates_in_bounds(
                    (#[trigger] self.layers_spec()[i]).adds(),
                    self.layers_spec()[i].len_spec(),
                    self.level_len(i + 1, input_len),
                )
                &&& array_gates_in_bounds(
                    self.layers_spec()[i].muls(),
                    self.layers_spec()[i].len_spec(),
                    self.level_len(i + 1, input_len),
                )
            }
    }

    /// The values at level `i` on `inputs`.
    pub open spec fn values_at<const P: u64>(self, inputs: Seq<Fp<P>>, i: int) -> Seq<Fp<P>>
        decreases self.layers_spec().len() - i,
    {
        if i >= self.layers_spec().len() || i < 0 {
            inputs
        } else {
            libra_layer_values(self.layers_spec()[i], self.values_at(inputs, i + 1))
        }
    }

    /// Evaluate the circuit: entry 0 holds the inputs, entry `k` the values of the
    /// `k`-th layer counted from the input side, the last entry the outputs.
    pub fn evaluate<const P: u64>(&self, inputs: &[Fp<P>]) -> (r: Vec<Vec<Fp<P>>>)
        requires
            0 < P,
            self.wired(inputs@.len()),
        ensures
            r@.len() == self.layers_spec().len() + 1,
            forall|k: int|
                0 <= k < r@.len() ==> (#[trigger] r@[k])@ == self.values_at(
                    inputs@,
                    self.layers_spec().len() - k,
                ),
    {
        let n = self.layers.len();
        let mut evaluations: Vec<Vec<Fp<P>>> = Vec::new();
        let mut current: Vec<Fp<P>> = crate::field::to_vec(inputs);
        let mut k: usize = 0;
        while k < n
            invariant
                0 < P,
                n == self.layers_spec().len(),
                self.wired(inputs@.len()),
                k <= n,
                evaluations@.len() == k,
                current@ == self.values_at(inputs@, n - k),
                current@.len() == self.level_len(n - k, inputs@.len()),
                forall|j: int| 0 <= j < k ==> (#[trigger] evaluations@[j])@ == self.values_at(inputs@, n - j),
            decreases n - k,
        {
            let layer = &self.layers[n - 1 - k];
            let next = eval_libra_layer(layer, &current);
            evaluations.push(current);
            current = next;
            k = k + 1;
        }
        evaluations.push(current);
        evaluations
    }

    /// The add gates of layer `layer_id`.
    pub fn addi(&self, layer_id: usize) -> (r: &Vec<[usize; 3]>)
        requires
            layer_id < self.layers_spec().len(),
        ensures
            r@ == self.layers_spec()[layer_id as int].adds(),
    {
        &self.layers[layer_id].add_gates
    }

    /// The mul gates of layer `layer_id`.
    pub fn muli(&self, layer_id: usize) -> (r: &Vec<[usize; 3]>)
        requires
            layer_id < self.layers_spec().len(),
        ensures
            r@ == self.layers_spec()[layer_id as int].muls(),
    {
        &self.layers[layer_id].mul_gates
    }
}

fn eval_libra_layer<const P: u64>(layer: &LibraLayer, input: &Vec<Fp<P>>) -> (r: Vec<Fp<P>>)
    requires
        0 < P,
        array_gates_in_bounds(layer.adds(), layer.len_spec(), input@.len()),
        array_gates_in_bounds(layer.muls(), layer.len_spec(), input@.len()),
    ensures
        r@ == libra_layer_values(*layer, input@),
        r@.len() == layer.len_spec(),
{
    let mut out: Vec<Fp<P>> = Vec::new();
    let mut i: usize = 0;
    while i < layer.len
        invariant
            0 < P,
            i <= layer.len_spec(),
            out@ == Seq::new(i as nat, |j: int| Fp::<P>::spec_zero()),
        decreases layer.len_spec() - i,
    {
        out.push(Fp::zero());
        i = i + 1;
    }
    let ghost zeros = out@;
    let mut j: usize = 0;
    while j < layer.add_gates.len()
        invariant
            j <= layer.adds().len(),
            array_gates_in_bounds(layer.adds(), layer.len_spec(), input@.len()),
            out@ == apply_array_gates(zeros, layer.adds().subrange(0, j as int), input@, true),
            out@.len() == layer.len_spec(),
        decreases layer.adds().len() - j,
    {
        let g = layer.add_gates[j];
        proof {
            assert(layer.adds()[j as int] == g);
            assert(layer.adds()[j as int][0] < layer.len_spec());
            assert(layer.adds().subrange(0, j + 1).drop_last() =~= layer.adds().subrange(0, j as int));
        }
        let v = input[g[1]].add(&input[g[2]]);
        out.set(g[0], v);
        j = j + 1;
    }
    proof {
        assert(layer.adds().subrange(0, layer.adds().len() as int) =~= layer.adds());
    }
    let ghost after_add = out@;
    let mut j: usize = 0;
    while j < layer.mul_gates.len()
        invariant
            j <= layer.muls().len(),
            array_gates_in_bounds(layer.muls(), layer.len_spec(), input@.len()),
            out@ == apply_array_gates(after_add, layer.muls().subrange(0, j as int), input@, false),
            out@.len() == layer.len_spec(),
        decreases layer.muls().len() - j,
    {
        let g = layer.mul_gates[j];
        proof {
            assert(layer.muls()[j as int] == g);
            assert(layer.muls()[j as int][0] < layer.len_spec());
            assert(layer.muls().subrange(0, j + 1).drop_last() =~= layer.muls().subrange(0, j as int));
        }
        let v = input[g[1]].mul(&input[g[2]]);
        out.set(g[0], v);
        j = j + 1;
    }
    proof {
        assert(layer.muls().subrange(0, layer.muls().len() as int) =~= layer.muls());
    }
    out
}

/// A node of the circuit under construction: (layer, position in the layer, validation id).
pub type Node = (usize, usize, usize);

/// The kind of gate to insert and its two input positions.
pub enum GateInfo {
    Add(usize, usize),
    Mul(usize, usize),
}

/// The position the next gate of builder layer `layer_id` gets.
pub open spec fn next_gate_id(layers: Seq<LibraLayer>, layer_id: int) -> nat {
    if layer_id - 1 == layers.len() {
        0
    } else {
        layers[layer_id - 1].len_spec()
    }
}

/// `after` is `before` with gate `[next id, a, b]` appended to builder layer `layer_id`
/// (a new layer when `layer_id` is one past the last).
pub open spec fn gate_inserted(
    before: Seq<LibraLayer>,
    after: Seq<LibraLayer>,
    layer_id: int,
    is_add: bool,
    a: usize,
    b: usize,
) -> bool {
    let is_new = layer_id - 1 == before.len();
    let id = next_gate_id(before, layer_id);
    let old_adds = if is_new {
        Seq::<[usize; 3]>::empty()
    } else {
        before[layer_id - 1].adds()
    };
    let old_muls = if is_new {
        Seq::<[usize; 3]>::empty()
    } else {
        before[layer_id - 1].muls()
    };
    let changed = after[layer_id - 1];
    &&& after.len() == if is_new {
        before.len() + 1
    } else {
        before.len()
    }
    &&& forall|i: int|
        0 <= i < before.len() && i != layer_id - 1 ==> #[trigger] after[i] == before[i]
    &&& changed.len_spec() == id + 1
    &&& if is_add {
        changed.adds() == old_adds.push([id as usize, a, b]) && changed.muls() == old_muls
    } else {
        changed.muls() == old_muls.push([id as usize, a, b]) && changed.adds() == old_adds
    }
}

/// Number of `false` entries.
pub open spec fn count_false(s: Seq<bool>) -> nat
    decreases s.len(),
{
    if s.len() == 0 {
        0
    } else {
        count_false(s.drop_last()) + if s.last() {
            0nat
        } else {
            1nat
        }
    }
}

/// Builds a layered circuit gate by gate. Inputs live on layer 0 of the builder;
/// a gate over nodes of layer `l` lands on layer `l + 1`. Every node gets a validation id
/// that records whether some gate consumed its output.
pub struct Builder {
    curr_input_id: usize,
    curr_validation_id: usize,
    output_consumed: Vec<bool>,
    layers: Vec<LibraLayer>,
}

impl Builder {
    pub closed spec fn input_count(self) -> nat {
        self.curr_input_id as nat
    }

    pub closed spec fn node_count(self) -> nat {
        self.curr_validation_id as nat
    }

    /// For each node (by validation id), whether a gate consumed it.
    pub closed spec fn consumed(self) -> Seq<bool> {
        self.output_consumed@
    }

    /// Layers of gates built so far; entry `l - 1` is builder layer `l`.
    pub closed spec fn built_layers(self) -> Seq<LibraLayer> {
        self.layers@
    }

    pub open spec fn wf(self) -> bool {
        self.consumed().len() == self.node_count()
    }

    /// An empty builder.
    pub fn new() -> (r: Self)
        ensures
            r.wf(),
            r.input_count() == 0,
            r.node_count() == 0,
            r.built_layers().len() == 0,
    {
        Builder { curr_input_id: 0, curr_validation_id: 0, output_consumed: Vec::new(), layers: Vec::new() }
    }

    /// Returns the next input position and advances the counter.
    pub fn next_input_id(&mut self) -> (r: usize)
        requires
            old(self).input_count() < usize::MAX,
        ensures
            r == old(self).input_count(),
            final(self).input_count() == old(self).input_count() + 1,
            final(self).node_count() == old(self).node_count(),
            final(self).consumed() == old(self).consumed(),
            final(self).built_layers() == old(self).built_layers(),
    {
        self.curr_input_id = self.curr_input_id + 1;
        self.curr_input_id - 1
    }

    /// Returns a fresh validation id, recorded as not yet consumed.
    pub fn next_validation_id(&mut self) -> (r: usize)
        requires
            old(self).node_count() < usize::MAX,
        ensures
            r == old(self).node_count(),
            final(self).node_count() == old(self).node_count() + 1,
            final(self).consumed() == old(self).consumed().push(false),
            final(self).input_count() == old(self).input_count(),
            final(self).built_layers() == old(self).built_layers(),
    {
        self.curr_validation_id = self.curr_validation_id + 1;
        self.output_consumed.push(false);
        self.curr_validation_id - 1
    }

    /// A new input node.
    pub fn input(&mut self) -> (r: Node)
        requires
            old(self).input_count() < usize::MAX,
            old(self).node_count() < usize::MAX,
        ensures
            r == (0usize, old(self).input_count() as usize, old(self).node_count() as usize),
            final(self).input_count() == old(self).input_count() + 1,
            final(self).node_count() == old(self).node_count() + 1,
            final(self).consumed() == old(self).consumed().push(false),
            final(self).built_layers() == old(self).built_layers(),
    {
        let id = self.next_input_id();
        let vid = self.next_validation_id();
        (0, id, vid)
    }

    /// `n` new input nodes.
    pub fn input_n(&mut self, n: usize) -> (r: Vec<Node>)
        requires
            old(self).input_count() + n <= usize::MAX,
            old(self).node_count() + n <= usize::MAX,
        ensures
            r@.len() == n,
            forall|i: int|
                0 <= i < n ==> #[trigger] r@[i] == (
                    0usize,
                    (old(self).input_count() + i) as usize,
                    (old(self).node_count() + i) as usize,
                ),
            final(self).input_count() == old(self).input_count() + n,
            final(self).node_count() == old(self).node_count() + n,
            final(self).consumed() == old(self).consumed() + Seq::new(n as nat, |i: int| false),
            final(self).built_layers() == old(self).built_layers(),
    {
        let mut out: Vec<Node> = Vec::new();
        let mut i: usize = 0;
        while i < n
            invariant
                i <= n,
                out@.len() == i,
                self.input_count() == old(self).input_count() + i,
                self.node_count() == old(self).node_count() + i,
                old(self).input_count() + n <= usize::MAX,
                old(self).node_count() + n <= usize::MAX,
                self.consumed() =~= old(self).consumed() + Seq::new(i as nat, |k: int| false),
                self.built_layers() == old(self).built_layers(),
                forall|k: int|
                    0 <= k < i ==> #[trigger] out@[k] == (
                        0usize,
                        (old(self).input_count() + k) as usize,
                        (old(self).node_count() + k) as usize,
                    ),
            decreases n - i,
        {
            let node = self.input();
            out.push(node);
            i = i + 1;
        }
        out
    }

    /// Insert a gate into builder layer `layer_id` (creating it if it is the next one);
    /// returns the new node.
    pub fn insert_in_layer(&mut self, layer_id: usize, gate_info: GateInfo) -> (r: Node)
        requires
            1 <= layer_id <= old(self).built_layers().len() + 1,
            old(self).node_count() < usize::MAX,
            layer_id - 1 < old(self).built_layers().len() ==> old(self).built_layers()[layer_id
                - 1].len_spec() < usize::MAX,
        ensures
            gate_inserted(
                old(self).built_layers(),
                final(self).built_layers(),
                layer_id as int,
                gate_info is Add,
                match gate_info {
                    GateInfo::Add(a, _) => a,
                    GateInfo::Mul(a, _) => a,
                },
                match gate_info {
                    GateInfo::Add(_, b) => b,
                    GateInfo::Mul(_, b) => b,
                },
            ),
            r == (layer_id, next_gate_id(old(self).built_layers(), layer_id as int) as usize, old(self).node_count() as usize),
            final(self).node_count() == old(self).node_count() + 1,
            final(self).consumed() == old(self).consumed().push(false),
            final(self).input_count() == old(self).input_count(),
    {
        let ghost orig = self.layers@;
        if layer_id - 1 == self.layers.len() {
            self.layers.push(LibraLayer::empty());
        }
        let id = self.layers[layer_id - 1].len();
        let ghost before = self.layers@;
        proof {
            if layer_id - 1 == orig.len() {
                assert(before[layer_id - 1].adds() =~= Seq::<[usize; 3]>::empty());
                assert(before[layer_id - 1].muls() =~= Seq::<[usize; 3]>::empty());
            }
            assert(forall|i: int| 0 <= i < orig.len() ==> before[i] == orig[i]);
        }
        let mut layer = self.layers.remove(layer_id - 1);
        match gate_info {
            GateInfo::Add(l, r) => {
                layer.add_gate([id, l, r]);
            },
            GateInfo::Mul(l, r) => {
                layer.mul_gate([id, l, r]);
            },
        }
        let ghost new_layer = layer;
        self.layers.insert(layer_id - 1, layer);
        proof {
            assert(self.layers@ =~= before.update(layer_id - 1, new_layer));
        }
        let vid = self.next_validation_id();
        (layer_id, id, vid)
    }

    /// An add gate over two nodes of the same layer; both nodes become consumed.
    pub fn add(&mut self, left: &Node, right: &Node) -> (r: Node)
        requires
            left.0 == right.0,
            left.2 < old(self).consumed().len(),
            right.2 < old(self).consumed().len(),
            left.0 <= old(self).built_layers().len(),
            left.0 < usize::MAX,
            old(self).node_count() < usize::MAX,
            left.0 < old(self).built_layers().len() ==> old(self).built_layers()[left.0 as int].len_spec()
                < usize::MAX,
        ensures
            r == ((left.0 + 1) as usize, next_gate_id(old(self).built_layers(), left.0 + 1) as usize, old(self).node_count() as usize),
            gate_inserted(old(self).built_layers(), final(self).built_layers(), left.0 + 1, true, left.1, right.1),
            final(self).node_count() == old(self).node_count() + 1,
            final(self).input_count() == old(self).input_count(),
            final(self).consumed() == old(self).consumed().update(left.2 as int, true).update(
                right.2 as int,
                true,
            ).push(false),
    {
        self.output_consumed.set(left.2, true);
        self.output_consumed.set(right.2, true);
        self.insert_in_layer(left.0 + 1, GateInfo::Add(left.1, right.1))
    }

    /// A mul gate over two nodes of the same layer; both nodes become consumed.
    pub fn mul(&mut self, left: &Node, right: &Node) -> (r: Node)
        requires
            left.0 == right.0,
            left.2 < old(self).consumed().len(),
            right.2 < old(self).consumed().len(),
            left.0 <= old(self).built_layers().len(),
            left.0 < usize::MAX,
            old(self).node_count() < usize::MAX,
            left.0 < old(self).built_layers().len() ==> old(self).built_layers()[left.0 as int].len_spec()
                < usize::MAX,
        ensures
            r == ((left.0 + 1) as usize, next_gate_id(old(self).built_layers(), left.0 + 1) as usize, old(self).node_count() as usize),
            gate_inserted(old(self).built_layers(), final(self).built_layers(), left.0 + 1, false, left.1, right.1),
            final(self).node_count() == old(self).node_count() + 1,
            final(self).input_count() == old(self).input_count(),
            final(self).consumed() == old(self).consumed().update(left.2 as int, true).update(
                right.2 as int,
                true,
            ).push(false),
    {
        self.output_consumed.set(left.2, true);
        self.output_consumed.set(right.2, true);
        self.insert_in_layer(left.0 + 1, GateInfo::Mul(left.1, right.1))
    }

    /// Finish the construction. The circuit is valid only if the unconsumed nodes are exactly
    /// the nodes of the last layer; then its layers are returned output layer first.
    pub fn to_layered_circuit(self) -> (r: Option<LayeredCircuit>)
        requires
            self.built_layers().len() > 0,
        ensures
            r is Some <==> self.built_layers().last().len_spec() == count_false(self.consumed()),
            r is Some ==> r->Some_0.layers_spec() == self.built_layers().reverse(),
    {
        let mut unused: usize = 0;
        let mut i: usize = 0;
        while i < self.output_consumed.len()
            invariant
                i <= self.consumed().len(),
                unused as nat == count_false(self.consumed().subrange(0, i as int)),
                unused <= i,
            decreases self.consumed().len() - i,
        {
            proof {
                assert(self.consumed().subrange(0, i + 1).drop_last() =~= self.consumed().subrange(0, i as int));
            }
            if !self.output_consumed[i] {
                unused = unused + 1;
            }
            i = i + 1;
        }
        proof {
            assert(self.consumed().subrange(0, self.consumed().len() as int) =~= self.consumed());
        }
        let last = self.layers.len() - 1;
        if self.layers[last].len() != unused {
            return None;
        }
        let ghost orig = self.layers@;
        let mut layers = self.layers;
        let mut reversed: Vec<LibraLayer> = Vec::new();
        while layers.len() > 0
            invariant
                reversed@.len() + layers@.len() == orig.len(),
                layers@ == orig.subrange(0, layers@.len() as int),
                forall|k: int| 0 <= k < reversed@.len() ==> #[trigger] reversed@[k] == orig[orig.len() - 1 - k],
            decreases layers@.len(),
        {
            let l = layers.pop().unwrap();
            reversed.push(l);
        }
        proof {
            assert(reversed@ =~= orig.reverse());
        }
        Some(LayeredCircuit { layers: reversed })
    }
}

impl Default for Builder {
    fn default() -> (r: Self)
        ensures
            r.wf(),
            r.input_count() == 0,
            r.node_count() == 0,
            r.built_layers().len() == 0,
    {
        Builder::new()
    }
}

} // verus!
