//! Layered arithmetic circuits made of fan-in-two addition and multiplication gates.
//!
//! Layer 0 is the output layer; the layer after the last one is the input.
use crate::bits::{binary_string, bit_count_for_n_elem, bit_len, lemma_bit_len_bound, padded_binary};
use crate::field::Fp;
use crate::multilinear::{
    add_terms, checker_terms, interpolation_terms, lemma_sum_maps_add_terms, MultiLinearPolynomial,
};
use vstd::arithmetic::power2::*;
use vstd::prelude::*;
use vstd::string::StringExecFns;

verus! {

/// A gate wiring: output position `out`, inputs `in_a` and `in_b` in the layer below.
#[derive(Clone, Copy, Debug, PartialEq, Eq, Structural)]
pub struct Gate {
    pub out: usize,
    pub in_a: usize,
    pub in_b: usize,
}

impl Gate {
    pub fn new(out: usize, in_a: usize, in_b: usize) -> (r: Self)
        ensures
            r == (Gate { out, in_a, in_b }),
    {
        Gate { out, in_a, in_b }
    }

    /// Binary string `out ++ in_a ++ in_b`, each part left-padded to the given width.
    pub fn to_bit_string(&self, out_var_count: usize, in_var_count: usize) -> (r: String)
        ensures
            r@ == padded_binary(self.out as nat, out_var_count as nat) + padded_binary(
                self.in_a as nat,
                in_var_count as nat,
            ) + padded_binary(self.in_b as nat, in_var_count as nat),
    {
        let out_binary_string = binary_string(self.out, out_var_count);
        let in_a_binary_string = binary_string(self.in_a, in_var_count);
        let in_b_binary_string = binary_string(self.in_b, in_var_count);
        let r = out_binary_string.concat(in_a_binary_string.as_str());
        r.concat(in_b_binary_string.as_str())
    }
}

/// The add and mul gates of one circuit layer.
#[derive(Clone, Debug, PartialEq)]
pub struct Layer {
    pub add_gates: Vec<Gate>,
    pub mul_gates: Vec<Gate>,
    len: usize,
}

/// The largest input index wired into any of `gates`, or -1 when there is none.
pub open spec fn max_input(gates: Seq<Gate>) -> int
    decreases gates.len(),
{
    if gates.len() == 0 {
        -1
    } else {
        let g = gates.last();
        let m = max_input(gates.drop_last());
        let here = if g.in_a >= g.in_b {
            g.in_a as int
        } else {
            g.in_b as int
        };
        if here > m {
            here
        } else {
            m
        }
    }
}

impl Layer {
    /// Number of gates recorded when the layer was built.
    pub closed spec fn len_spec(self) -> nat {
        self.len as nat
    }

    /// The add gates of the layer.
    pub closed spec fn adds(self) -> Seq<Gate> {
        self.add_gates@
    }

    /// The mul gates of the layer.
    pub closed spec fn muls(self) -> Seq<Gate> {
        self.mul_gates@
    }

    /// Instantiate a layer; its length is the total gate count.
    pub fn new(add_gates: Vec<Gate>, mul_gates: Vec<Gate>) -> (r: Self)
        requires
            add_gates@.len() + mul_gates@.len() <= usize::MAX,
        ensures
            r.adds() == add_gates@,
            r.muls() == mul_gates@,
            r.len_spec() == add_gates@.len() + mul_gates@.len(),
    {
        let len = add_gates.len() + mul_gates.len();
        Layer { len, add_gates, mul_gates }
    }

    pub fn len(&self) -> (r: usize)
        ensures
            r == self.len_spec(),
    {
        self.len
    }

    /// The add and mul wiring polynomials of the layer, over the bits of an output
    /// index followed by the bits of both input indexes in a next layer of
    /// `next_layer_count` values.
    pub fn add_mul_mle<const P: u64>(&self, next_layer_count: usize) -> (r: [MultiLinearPolynomial<P>; 2])
        requires
            1 < P,
            mle_ready(*self, next_layer_count as nat),
        ensures
            r[0].wf(),
            r[1].wf(),
            r[0].terms() == gates_mle::<P>(
                self.adds(),
                bit_len((self.len_spec() - 1) as nat),
                bit_len((next_layer_count - 1) as nat),
                self.adds().len(),
            ),
            r[1].terms() == gates_mle::<P>(
                self.muls(),
                bit_len((self.len_spec() - 1) as nat),
                bit_len((next_layer_count - 1) as nat),
                self.muls().len(),
            ),
            r[0].num_vars() == if self.adds().len() == 0 {
                0
            } else {
                bit_len((self.len_spec() - 1) as nat) + 2 * bit_len((next_layer_count - 1) as nat)
            },
            r[1].num_vars() == if self.muls().len() == 0 {
                0
            } else {
                bit_len((self.len_spec() - 1) as nat) + 2 * bit_len((next_layer_count - 1) as nat)
            },
    {
        let layer_var_count = bit_count_for_n_elem(self.len);
        let next_var_count = bit_count_for_n_elem(next_layer_count);
        proof {
            lemma_bit_len_bound((self.len - 1) as nat);
            lemma_bit_len_bound((next_layer_count - 1) as nat);
        }
        let add_mle = wiring_mle::<P>(&self.add_gates, layer_var_count, next_var_count);
        let mult_mle = wiring_mle::<P>(&self.mul_gates, layer_var_count, next_var_count);
        [add_mle, mult_mle]
    }

    /// Return the maximum index for an input wiring into any gate of the layer (-1 if none).
    pub fn max_input_index(&self) -> (r: isize)
        requires
            forall|i: int|
                0 <= i < self.adds().len() ==> #[trigger] self.adds()[i].in_a <= isize::MAX
                    && self.adds()[i].in_b <= isize::MAX,
            forall|i: int|
                0 <= i < self.muls().len() ==> #[trigger] self.muls()[i].in_a <= isize::MAX
                    && self.muls()[i].in_b <= isize::MAX,
        ensures
            r as int == if max_input(self.adds()) >= max_input(self.muls()) {
                max_input(self.adds())
            } else {
                max_input(self.muls())
            },
    {
        assert(forall|i: int| 0 <= i < self.add_gates@.len() ==> #[trigger] self.add_gates@[i].in_a <= isize::MAX && self.add_gates@[i].in_b <= isize::MAX) by {
            assert forall|i: int| 0 <= i < self.add_gates@.len() implies #[trigger] self.add_gates@[i].in_a <= isize::MAX && self.add_gates@[i].in_b <= isize::MAX by {
                assert(self.adds()[i] == self.add_gates@[i]);
            }
        }
        assert(forall|i: int| 0 <= i < self.mul_gates@.len() ==> #[trigger] self.mul_gates@[i].in_a <= isize::MAX && self.mul_gates@[i].in_b <= isize::MAX) by {
            assert forall|i: int| 0 <= i < self.mul_gates@.len() implies #[trigger] self.mul_gates@[i].in_a <= isize::MAX && self.mul_gates@[i].in_b <= isize::MAX by {
                assert(self.muls()[i] == self.mul_gates@[i]);
            }
        }
        let a = max_input_of(&self.add_gates);
        let m = max_input_of(&self.mul_gates);
        if a >= m {
            a
        } else {
            m
        }
    }
}

/// Whether every gate's output index is below `2^out_vars` and both input
/// indexes below `2^in_vars`.
fn gates_fit_check(gates: &Vec<Gate>, out_vars: usize, in_vars: usize) -> (r: bool)
    requires
        out_vars < usize::BITS,
        in_vars < usize::BITS,
    ensures
        r == gates_fit(gates@, out_vars as nat, in_vars as nat),
{
    proof {
        vstd::bits::lemma_usize_pow2_no_overflow(out_vars as nat);
        vstd::bits::lemma_usize_pow2_no_overflow(in_vars as nat);
        vstd::bits::lemma_usize_shl_is_mul(1, out_vars);
        vstd::bits::lemma_usize_shl_is_mul(1, in_vars);
    }
    let out_limit: usize = 1usize << out_vars;
    let in_limit: usize = 1usize << in_vars;
    let mut i: usize = 0;
    while i < gates.len()
        invariant
            i <= gates@.len(),
            out_limit == pow2(out_vars as nat),
            in_limit == pow2(in_vars as nat),
            forall|j: int|
                0 <= j < i ==> (#[trigger] gates@[j].out as nat) < pow2(out_vars as nat) && (
                gates@[j].in_a as nat) < pow2(in_vars as nat) && (gates@[j].in_b as nat) < pow2(in_vars as nat),
        decreases gates@.len() - i,
    {
        let g = gates[i];
        if g.out >= out_limit || g.in_a >= in_limit || g.in_b >= in_limit {
            return false;
        }
        i = i + 1;
    }
    true
}

impl Layer {
    /// Whether the layer's wiring polynomials can be built against a next
    /// layer of `next` values (see `mle_ready`).
    pub fn mle_ready_check(&self, next: usize) -> (r: bool)
        ensures
            r == mle_ready(*self, next as nat),
    {
        if self.len == 0 || next == 0 {
            return false;
        }
        let ov = bit_count_for_n_elem(self.len);
        let iv = bit_count_for_n_elem(next);
        let bits = usize::BITS as usize;
        if ov >= bits || iv >= bits || iv > (bits - ov) / 2 || ov + 2 * iv >= bits {
            return false;
        }
        gates_fit_check(&self.add_gates, ov, iv) && gates_fit_check(&self.mul_gates, ov, iv)
    }

    /// Whether every input index of the layer fits in an `isize`.
    pub fn inputs_fit_check(&self) -> (r: bool)
        ensures
            r == inputs_fit_isize(*self),
    {
        let limit = isize::MAX as usize;
        let mut i: usize = 0;
        while i < self.add_gates.len()
            invariant
                i <= self.add_gates@.len(),
                limit == isize::MAX,
                forall|j: int| 0 <= j < i ==> #[trigger] self.adds()[j].in_a <= isize::MAX && self.adds()[j].in_b <= isize::MAX,
            decreases self.add_gates@.len() - i,
        {
            if self.add_gates[i].in_a > limit || self.add_gates[i].in_b > limit {
                proof {
                    assert(self.adds()[i as int] == self.add_gates@[i as int]);
                    assert(!(self.adds()[i as int].in_a <= isize::MAX && self.adds()[i as int].in_b <= isize::MAX));
                }
                return false;
            }
            i = i + 1;
        }
        let mut k: usize = 0;
        while k < self.mul_gates.len()
            invariant
                k <= self.mul_gates@.len(),
                limit == isize::MAX,
                forall|j: int| 0 <= j < self.adds().len() ==> #[trigger] self.adds()[j].in_a <= isize::MAX && self.adds()[j].in_b <= isize::MAX,
                forall|j: int| 0 <= j < k ==> #[trigger] self.muls()[j].in_a <= isize::MAX && self.muls()[j].in_b <= isize::MAX,
            decreases self.mul_gates@.len() - k,
        {
            if self.mul_gates[k].in_a > limit || self.mul_gates[k].in_b > limit {
                proof {
                    assert(self.muls()[k as int] == self.mul_gates@[k as int]);
                    assert(!(self.muls()[k as int].in_a <= isize::MAX && self.muls()[k as int].in_b <= isize::MAX));
                }
                return false;
            }
            k = k + 1;
        }
        true
    }
}

/// Whether every gate writes below `out_len` and reads below `in_len`.
fn gates_in_bounds_check(gates: &Vec<Gate>, out_len: usize, in_len: usize) -> (r: bool)
    ensures
        r == gates_in_bounds(gates@, out_len as nat, in_len as nat),
{
    let mut i: usize = 0;
    while i < gates.len()
        invariant
            i <= gates@.len(),
            forall|j: int|
                0 <= j < i ==> #[trigger] gates@[j].out < out_len && gates@[j].in_a < in_len && gates@[j].in_b
                    < in_len,
        decreases gates@.len() - i,
    {
        let g = gates[i];
        if g.out >= out_len || g.in_a >= in_len || g.in_b >= in_len {
            return false;
        }
        i = i + 1;
    }
    true
}

fn max_input_of(gates: &Vec<Gate>) -> (r: isize)
    requires
        forall|i: int|
            0 <= i < gates@.len() ==> #[trigger] gates@[i].in_a <= isize::MAX && gates@[i].in_b
                <= isize::MAX,
    ensures
        r as int == max_input(gates@),
{
    let mut m: isize = -1;
    let mut i: usize = 0;
    while i < gates.len()
        invariant
            i <= gates@.len(),
            forall|j: int|
                0 <= j < gates@.len() ==> #[trigger] gates@[j].in_a <= isize::MAX && gates@[j].in_b
                    <= isize::MAX,
            m as int == max_input(gates@.subrange(0, i as int)),
        decreases gates.len() - i,
    {
        proof {
            assert(gates@.subrange(0, i + 1).drop_last() =~= gates@.subrange(0, i as int));
        }
        let g = gates[i];
        let here: isize = if g.in_a >= g.in_b {
            g.in_a as isize
        } else {
            g.in_b as isize
        };
        if here > m {
            m = here;
        }
        i = i + 1;
    }
    proof {
        assert(gates@.subrange(0, gates@.len() as int) =~= gates@);
    }
    m
}

/// Write each gate's result to its output position, in order (later gates win).
pub open spec fn apply_gates<const P: u64>(
    acc: Seq<Fp<P>>,
    gates: Seq<Gate>,
    input: Seq<Fp<P>>,
    is_add: bool,
) -> Seq<Fp<P>>
    decreases gates.len(),
{
    if gates.len() == 0 {
        acc
    } else {
        let g = gates.last();
        let prev = apply_gates(acc, gates.drop_last(), input, is_add);
        let v = if is_add {
            input[g.in_a as int].spec_add(input[g.in_b as int])
        } else {
            input[g.in_a as int].spec_mul(input[g.in_b as int])
        };
        prev.update(g.out as int, v)
    }
}

/// The values a layer computes from the values of the layer below:
/// all zero, then the add gates, then the mul gates.
pub open spec fn layer_values<const P: u64>(layer: Layer, input: Seq<Fp<P>>) -> Seq<Fp<P>> {
    let zeros = Seq::new(layer.len_spec(), |i: int| Fp::<P>::spec_zero());
    apply_gates(apply_gates(zeros, layer.adds(), input, true), layer.muls(), input, false)
}

/// Every gate of `gates` writes below `out_len` and reads below `in_len`.
pub open spec fn gates_in_bounds(gates: Seq<Gate>, out_len: nat, in_len: nat) -> bool {
    forall|j: int|
        0 <= j < gates.len() ==> #[trigger] gates[j].out < out_len && gates[j].in_a < in_len
            && gates[j].in_b < in_len
}

/// The bit string of a gate: output, then both inputs, each padded to its width.
pub open spec fn gate_bits(g: Gate, out_vars: nat, in_vars: nat) -> Seq<char> {
    padded_binary(g.out as nat, out_vars) + padded_binary(g.in_a as nat, in_vars) + padded_binary(
        g.in_b as nat,
        in_vars,
    )
}

/// The wiring polynomial of the first `k` gates: the sum of the checkers of their bit strings.
pub open spec fn gates_mle<const P: u64>(gates: Seq<Gate>, out_vars: nat, in_vars: nat, k: nat) -> Map<
    usize,
    Fp<P>,
>
    decreases k,
{
    if k == 0 {
        Map::empty()
    } else {
        add_terms(
            gates_mle::<P>(gates, out_vars, in_vars, (k - 1) as nat),
            checker_terms::<P>(gate_bits(gates[k - 1], out_vars, in_vars)),
        )
    }
}

/// Every gate's output fits in `out_vars` bits and its inputs in `in_vars` bits.
pub open spec fn gates_fit(gates: Seq<Gate>, out_vars: nat, in_vars: nat) -> bool {
    forall|j: int|
        0 <= j < gates.len() ==> (#[trigger] gates[j].out as nat) < pow2(out_vars) && (
        gates[j].in_a as nat) < pow2(in_vars) && (gates[j].in_b as nat) < pow2(in_vars)
}

/// A layer whose wiring polynomials can be built against a next layer of `next` values.
pub open spec fn mle_ready(layer: Layer, next: nat) -> bool {
    &&& layer.len_spec() > 0
    &&& next > 0
    &&& gates_fit(layer.adds(), bit_len((layer.len_spec() - 1) as nat), bit_len((next - 1) as nat))
    &&& gates_fit(layer.muls(), bit_len((layer.len_spec() - 1) as nat), bit_len((next - 1) as nat))
    &&& bit_len((layer.len_spec() - 1) as nat) + 2 * bit_len((next - 1) as nat) < usize::BITS
}

/// The wiring polynomial of `gates`.
fn wiring_mle<const P: u64>(gates: &Vec<Gate>, out_vars: usize, in_vars: usize) -> (r: MultiLinearPolynomial<P>)
    requires
        1 < P,
        out_vars > 0,
        in_vars > 0,
        gates_fit(gates@, out_vars as nat, in_vars as nat),
        out_vars + 2 * in_vars < usize::BITS,
    ensures
        r.wf(),
        r.num_vars() == if gates@.len() == 0 {
            0
        } else {
            out_vars + 2 * in_vars
        },
        r.terms() == gates_mle::<P>(gates@, out_vars as nat, in_vars as nat, gates@.len()),
{
    let mut acc = MultiLinearPolynomial::additive_identity();
    let mut i: usize = 0;
    while i < gates.len()
        invariant
            1 < P,
            out_vars > 0,
            in_vars > 0,
            gates_fit(gates@, out_vars as nat, in_vars as nat),
            out_vars + 2 * in_vars < usize::BITS,
            i <= gates@.len(),
            acc.wf(),
            acc.num_vars() == if i == 0 {
                0
            } else {
                out_vars + 2 * in_vars
            },
            acc.terms() == gates_mle::<P>(gates@, out_vars as nat, in_vars as nat, i as nat),
        decreases gates@.len() - i,
    {
        let g = &gates[i];
        let bits = g.to_bit_string(out_vars, in_vars);
        proof {
            assert((g.out as nat) < pow2(out_vars as nat));
            lemma_padded_len(g.out as nat, out_vars as nat);
            lemma_padded_len(g.in_a as nat, in_vars as nat);
            lemma_padded_len(g.in_b as nat, in_vars as nat);
        }
        let checker = MultiLinearPolynomial::bit_string_checker(bits);
        proof {
            acc.lemma_wf();
            checker.lemma_wf();
            lemma_sum_maps_add_terms(acc.terms(), checker.terms());
            if i == 0 {
                assert(acc.terms().len() == 0);
            }
            assert forall|k: usize| #[trigger] add_terms(acc.terms(), checker.terms()).contains_key(k)
                implies (k as nat) < pow2((out_vars + 2 * in_vars) as nat) by {
                MultiLinearPolynomial::lemma_wf_keys(acc, k);
                MultiLinearPolynomial::lemma_wf_keys(checker, k);
            }
        }
        let next = acc.add(&checker);
        acc = next.unwrap();
        i = i + 1;
    }
    acc
}

/// A value below `2^w` (`w > 0`) pads to exactly `w` digits.
proof fn lemma_padded_len(v: nat, w: nat)
    requires
        w > 0,
        v < pow2(w),
    ensures
        padded_binary(v, w).len() == w,
{
    lemma_bit_len_bound(v);
    lemma_bits_fit(v, w);
}

proof fn lemma_bits_fit(v: nat, w: nat)
    requires
        w > 0,
        v < pow2(w),
    ensures
        bit_len(v) <= w,
    decreases v,
{
    if v >= 2 {
        lemma_pow2_unfold(w);
        if w == 1 {
            lemma2_to64();
        }
        vstd::arithmetic::div_mod::lemma_div_is_ordered(v as int, (pow2(w) - 1) as int, 2);
        lemma_bits_fit(v / 2, (w - 1) as nat);
    }
}

/// Every input index of the layer fits in an `isize`.
pub open spec fn inputs_fit_isize(layer: Layer) -> bool {
    &&& forall|i: int|
        0 <= i < layer.adds().len() ==> #[trigger] layer.adds()[i].in_a <= isize::MAX
            && layer.adds()[i].in_b <= isize::MAX
    &&& forall|i: int|
        0 <= i < layer.muls().len() ==> #[trigger] layer.muls()[i].in_a <= isize::MAX
            && layer.muls()[i].in_b <= isize::MAX
}

/// A layered circuit; layer 0 is the output layer.
#[derive(Clone, Debug, PartialEq)]
pub struct Circuit {
    layers: Vec<Layer>,
}

/// Layer `i` of `c` holds the gates of layer `i` of `a` followed by those of
/// `b`, and its length is its number of gates.
pub open spec fn side_by_side(c: Circuit, a: Circuit, b: Circuit) -> bool {
    &&& c.layers_spec().len() == a.layers_spec().len()
    &&& forall|i: int|
        0 <= i < c.layers_spec().len() ==> {
            &&& (#[trigger] c.layers_spec()[i]).adds() == a.layers_spec()[i].adds()
                + b.layers_spec()[i].adds()
            &&& c.layers_spec()[i].muls() == a.layers_spec()[i].muls() + b.layers_spec()[i].muls()
            &&& c.layers_spec()[i].len_spec() == c.layers_spec()[i].adds().len()
                + c.layers_spec()[i].muls().len()
        }
}

/// Putting the empty circuit of the same depth beside `a` changes no layer of `a`
/// (for layers whose length is their number of gates, as `Layer::new` makes them).
pub proof fn lemma_add_empty(a: Circuit, empty: Circuit, c: Circuit)
    requires
        empty.layers_spec().len() == a.layers_spec().len(),
        forall|i: int|
            0 <= i < empty.layers_spec().len() ==> (#[trigger] empty.layers_spec()[i]).adds().len() == 0
                && empty.layers_spec()[i].muls().len() == 0,
        forall|i: int|
            0 <= i < a.layers_spec().len() ==> (#[trigger] a.layers_spec()[i]).len_spec()
                == a.layers_spec()[i].adds().len() + a.layers_spec()[i].muls().len(),
        side_by_side(c, a, empty),
    ensures
        c.layers_spec().len() == a.layers_spec().len(),
        forall|i: int|
            0 <= i < c.layers_spec().len() ==> (#[trigger] c.layers_spec()[i]).adds() == a.layers_spec()[i].adds()
                && c.layers_spec()[i].muls() == a.layers_spec()[i].muls()
                && c.layers_spec()[i].len_spec() == a.layers_spec()[i].len_spec(),
{
    assert forall|i: int| 0 <= i < c.layers_spec().len() implies (#[trigger] c.layers_spec()[i]).adds()
        == a.layers_spec()[i].adds() && c.layers_spec()[i].muls() == a.layers_spec()[i].muls()
        && c.layers_spec()[i].len_spec() == a.layers_spec()[i].len_spec() by {
        assert(empty.layers_spec()[i].adds().len() == 0);
        assert(a.layers_spec()[i].adds() + empty.layers_spec()[i].adds() =~= a.layers_spec()[i].adds());
        assert(a.layers_spec()[i].muls() + empty.layers_spec()[i].muls() =~= a.layers_spec()[i].muls());
    }
}

impl Circuit {
    pub closed spec fn layers_spec(self) -> Seq<Layer> {
        self.layers@
    }

    /// The number of values at level `i` (level `layers.len()` is the input).
    pub open spec fn level_len(self, i: int, input_len: nat) -> nat {
        if i == self.layers_spec().len() {
            input_len
        } else {
            self.layers_spec()[i].len_spec()
        }
    }

    /// Every gate reads and writes inside the layers it connects, given the input length.
    pub open spec fn wired(self, input_len: nat) -> bool {
        forall|i: int|
            0 <= i < self.layers_spec().len() ==> {
                &&& gates_in_bounds(
                    (#[trigger] self.layers_spec()[i]).adds(),
                    self.layers_spec()[i].len_spec(),
                    self.level_len(i + 1, input_len),
                )
                &&& gates_in_bounds(
                    self.layers_spec()[i].muls(),
                    self.layers_spec()[i].len_spec(),
                    self.level_len(i + 1, input_len),
                )
            }
    }

    /// The values at level `i` when the circuit runs on `input`.
    pub open spec fn values_at<const P: u64>(self, input: Seq<Fp<P>>, i: int) -> Seq<Fp<P>>
        decreases self.layers_spec().len() - i,
    {
        if i >= self.layers_spec().len() || i < 0 {
            input
        } else {
            layer_values(self.layers_spec()[i], self.values_at(input, i + 1))
        }
    }

    /// The multilinear extension of the values at layer `layer_index`.
    pub fn w<const P: u64>(evaluations: &[Vec<Fp<P>>], layer_index: usize) -> (r: Result<
        MultiLinearPolynomial<P>,
        &'static str,
    >)
        requires
            1 < P,
            layer_index >= evaluations@.len() || evaluations@[layer_index as int]@.len() == 0
                || bit_len((evaluations@[layer_index as int]@.len() - 1) as nat) < usize::BITS,
        ensures
            r is Err <==> layer_index >= evaluations@.len(),
            r matches Ok(p) ==> {
                let values = evaluations@[layer_index as int]@;
                &&& p.wf()
                &&& values.len() == 0 ==> p.num_vars() == 0 && p.terms() == Map::<usize, Fp<P>>::empty()
                &&& values.len() > 0 ==> p.num_vars() == bit_len((values.len() - 1) as nat)
                    && p.terms() == interpolation_terms(values, bit_len((values.len() - 1) as nat))
            },
    {
        if layer_index >= evaluations.len() {
            return Err("invalid layer index");
        }
        Ok(MultiLinearPolynomial::interpolate(evaluations[layer_index].as_slice()))
    }

    /// The number of values the layer below layer `i` holds: the next layer's
    /// length, or one past the largest input index for the last layer.
    pub open spec fn next_len(self, i: int) -> int {
        if i == self.layers_spec().len() - 1 {
            let l = self.layers_spec()[i];
            (if max_input(l.adds()) >= max_input(l.muls()) {
                max_input(l.adds())
            } else {
                max_input(l.muls())
            }) + 1
        } else {
            self.layers_spec()[i + 1].len_spec() as int
        }
    }

    /// The add and mul wiring polynomials of layer `layer_index`.
    pub fn add_mul_mle<const P: u64>(&self, layer_index: usize) -> (r: Result<
        [MultiLinearPolynomial<P>; 2],
        &'static str,
    >)
        requires
            1 < P,
            layer_index >= self.layers_spec().len() || (0 <= self.next_len(layer_index as int) <= isize::MAX
                && mle_ready(self.layers_spec()[layer_index as int], self.next_len(layer_index as int) as nat)
                && (layer_index == self.layers_spec().len() - 1 ==> inputs_fit_isize(self.layers_spec()[layer_index as int]))),
        ensures
            r is Err <==> layer_index >= self.layers_spec().len(),
            r matches Ok(m) ==> {
                let layer = self.layers_spec()[layer_index as int];
                let ov = bit_len((layer.len_spec() - 1) as nat);
                let iv = bit_len((self.next_len(layer_index as int) - 1) as nat);
                &&& m[0].wf() && m[1].wf()
                &&& m[0].terms() == gates_mle::<P>(layer.adds(), ov, iv, layer.adds().len())
                &&& m[1].terms() == gates_mle::<P>(layer.muls(), ov, iv, layer.muls().len())
                &&& m[0].num_vars() == if layer.adds().len() == 0 { 0 } else { ov + 2 * iv }
                &&& m[1].num_vars() == if layer.muls().len() == 0 { 0 } else { ov + 2 * iv }
            },
    {
        if layer_index >= self.layers.len() {
            return Err("invalid layer index");
        }
        let next_layer_len: usize = if layer_index == self.layers.len() - 1 {
            let m = self.layers[layer_index].max_input_index();
            (m + 1) as usize
        } else {
            self.layers[layer_index + 1].len()
        };
        Ok(self.layers[layer_index].add_mul_mle::<P>(next_layer_len))
    }

    /// Whether every gate reads and writes inside the layers it connects,
    /// given `input_len` input values (see `wired`).
    pub fn wired_check(&self, input_len: usize) -> (r: bool)
        ensures
            r == self.wired(input_len as nat),
    {
        let n = self.layers.len();
        let mut i: usize = 0;
        while i < n
            invariant
                n == self.layers_spec().len(),
                i <= n,
                forall|j: int|
                    0 <= j < i ==> {
                        &&& gates_in_bounds(
                            (#[trigger] self.layers_spec()[j]).adds(),
                            self.layers_spec()[j].len_spec(),
                            self.level_len(j + 1, input_len as nat),
                        )
                        &&& gates_in_bounds(
                            self.layers_spec()[j].muls(),
                            self.layers_spec()[j].len_spec(),
                            self.level_len(j + 1, input_len as nat),
                        )
                    },
            decreases n - i,
        {
            let next: usize = if i + 1 == n {
                input_len
            } else {
                self.layers[i + 1].len()
            };
            let layer = &self.layers[i];
            if !gates_in_bounds_check(&layer.add_gates, layer.len, next) || !gates_in_bounds_check(
                &layer.mul_gates,
                layer.len,
                next,
            ) {
                proof {
                    assert(self.layers_spec()[i as int] == self.layers@[i as int]);
                }
                return false;
            }
            proof {
                assert(self.layers_spec()[i as int] == self.layers@[i as int]);
            }
            i = i + 1;
        }
        true
    }

    /// Create a circuit from its layers; fails when there is none.
    pub fn new(layers: Vec<Layer>) -> (r: Result<Self, &'static str>)
        ensures
            r is Err <==> layers@.len() == 0,
            r is Ok ==> r->Ok_0.layers_spec() == layers@,
    {
        if layers.len() == 0 {
            return Err("cannot create circuit with no layers");
        }
        Ok(Circuit { layers })
    }

    /// The layers of the circuit, output layer first.
    pub fn layers(&self) -> (r: &Vec<Layer>)
        ensures
            r@ == self.layers_spec(),
    {
        &self.layers
    }

    /// A circuit of `no_of_layers` empty layers.
    pub fn additive_identity(no_of_layers: usize) -> (r: Self)
        requires
            no_of_layers > 0,
        ensures
            r.layers_spec().len() == no_of_layers,
            forall|i: int|
                0 <= i < no_of_layers ==> (#[trigger] r.layers_spec()[i]).adds().len() == 0
                    && r.layers_spec()[i].muls().len() == 0 && r.layers_spec()[i].len_spec()
                    == 0,
    {
        let mut layers: Vec<Layer> = Vec::new();
        let mut i: usize = 0;
        while i < no_of_layers
            invariant
                i <= no_of_layers,
                layers@.len() == i,
                forall|j: int|
                    0 <= j < i ==> (#[trigger] layers@[j]).adds().len() == 0
                        && layers@[j].muls().len() == 0 && layers@[j].len_spec() == 0,
            decreases no_of_layers - i,
        {
            layers.push(Layer::new(Vec::new(), Vec::new()));
            i = i + 1;
        }
        Circuit { layers }
    }

    /// Put two circuits of the same depth side by side: layer `i` of the result holds the
    /// gates of layer `i` of `self` followed by those of `rhs`.
    pub fn add(self, rhs: Self) -> (r: Result<Self, &'static str>)
        requires
            forall|i: int|
                0 <= i < self.layers_spec().len() && i < rhs.layers_spec().len() ==> (#[trigger] self.layers_spec()[i]).adds().len()
                    + self.layers_spec()[i].muls().len() + rhs.layers_spec()[i].adds().len()
                    + rhs.layers_spec()[i].muls().len() <= usize::MAX,
        ensures
            r is Err <==> self.layers_spec().len() != rhs.layers_spec().len()
                || self.layers_spec().len() == 0,
            r is Ok ==> side_by_side(r->Ok_0, self, rhs),
    {
        if self.layers.len() != rhs.layers.len() {
            return Err("can only add circuits that have the same depth");
        }
        let n = self.layers.len();
        let mut combined: Vec<Layer> = Vec::new();
        assert(forall|k: int|
            0 <= k < n ==> (#[trigger] self.layers@[k]).adds().len() + self.layers@[k].muls().len()
                + rhs.layers@[k].adds().len() + rhs.layers@[k].muls().len() <= usize::MAX) by {
            assert forall|k: int| 0 <= k < n implies (#[trigger] self.layers@[k]).adds().len()
                + self.layers@[k].muls().len() + rhs.layers@[k].adds().len()
                + rhs.layers@[k].muls().len() <= usize::MAX by {
                assert(self.layers_spec()[k] == self.layers@[k]);
            }
        }
        let mut i: usize = 0;
        while i < n
            invariant
                n == self.layers@.len(),
                n == rhs.layers@.len(),
                i <= n,
                combined@.len() == i,
                forall|k: int|
                    0 <= k < n ==> (#[trigger] self.layers@[k]).adds().len()
                        + self.layers@[k].muls().len() + rhs.layers@[k].adds().len()
                        + rhs.layers@[k].muls().len() <= usize::MAX,
                forall|k: int|
                    0 <= k < i ==> {
                        &&& (#[trigger] combined@[k]).adds() == self.layers@[k].adds()
                            + rhs.layers@[k].adds()
                        &&& combined@[k].muls() == self.layers@[k].muls()
                            + rhs.layers@[k].muls()
                        &&& combined@[k].len_spec() == combined@[k].adds().len()
                            + combined@[k].muls().len()
                    },
            decreases n - i,
        {
            let mut add_gates = self.layers[i].add_gates.clone();
            let mut more_add = rhs.layers[i].add_gates.clone();
            add_gates.append(&mut more_add);
            let mut mul_gates = self.layers[i].mul_gates.clone();
            let mut more_mul = rhs.layers[i].mul_gates.clone();
            mul_gates.append(&mut more_mul);
            combined.push(Layer::new(add_gates, mul_gates));
            i = i + 1;
        }
        Circuit::new(combined)
    }

    /// Evaluate the circuit on `input`: entry `i` of the result holds the values of
    /// level `i` (entry 0 the output layer, the last entry the input itself).
    pub fn evaluate<const P: u64>(&self, input: Vec<Fp<P>>) -> (r: Result<Vec<Vec<Fp<P>>>, &'static str>)
        requires
            0 < P,
            self.wired(input@.len()),
        ensures
            r is Err <==> self.layers_spec().len() == 0,
            r is Ok ==> r->Ok_0@.len() == self.layers_spec().len() + 1,
            r is Ok ==> forall|i: int|
                0 <= i <= self.layers_spec().len() ==> (#[trigger] r->Ok_0@[i])@ == self.values_at(input@, i),
    {
        if self.layers.len() == 0 {
            return Err("cannot evaluate circuit is empty");
        }
        let n = self.layers.len();
        // levels[k] holds the values of level n - k
        let mut levels: Vec<Vec<Fp<P>>> = Vec::new();
        let mut current: Vec<Fp<P>> = input;
        let ghost inp = current@;
        let mut k: usize = 0;
        while k < n
            invariant
                0 < P,
                n == self.layers_spec().len(),
                self.wired(inp.len()),
                k <= n,
                levels@.len() == k,
                current@ == self.values_at(inp, n - k),
                current@.len() == self.level_len(n - k, inp.len()),
                forall|j: int| 0 <= j < k ==> (#[trigger] levels@[j])@ == self.values_at(inp, n - j),
            decreases n - k,
        {
            let layer = &self.layers[n - 1 - k];
            let next = eval_layer(layer, &current);
            levels.push(current);
            current = next;
            k = k + 1;
        }
        levels.push(current);
        let total = levels.len();
        // reverse: result[i] = levels[n - i]
        let mut result: Vec<Vec<Fp<P>>> = Vec::new();
        let mut i: usize = 0;
        while i < total
            invariant
                total == n + 1,
                i <= n + 1,
                levels@.len() == n + 1 - i,
                result@.len() == i,
                forall|j: int| 0 <= j < levels@.len() ==> (#[trigger] levels@[j])@ == self.values_at(inp, n - j),
                forall|j: int| 0 <= j < i ==> (#[trigger] result@[j])@ == self.values_at(inp, j),
            decreases total - i,
        {
            let v = levels.pop().unwrap();
            result.push(v);
            i = i + 1;
        }
        Ok(result)
    }
}

/// Compute the values of one layer from those of the layer below.
fn eval_layer<const P: u64>(layer: &Layer, input: &Vec<Fp<P>>) -> (r: Vec<Fp<P>>)
    requires
        0 < P,
        gates_in_bounds(layer.adds(), layer.len_spec(), input@.len()),
        gates_in_bounds(layer.muls(), layer.len_spec(), input@.len()),
    ensures
        r@ == layer_values(*layer, input@),
        r@.len() == layer.len_spec(),
{
    let mut out: Vec<Fp<P>> = Vec::new();
    let mut i: usize = 0;
    while i < layer.len()
        invariant
            0 < P,
            i <= layer.len_spec(),
            out@ == Seq::new(i as nat, |j: int| Fp::<P>::spec_zero()),
        decreases layer.len_spec() - i,
    {
        out.push(Fp::zero());
        i = i + 1;
    }
    let ghost zeros = out@;
    let mut j: usize = 0;
    while j < layer.add_gates.len()
        invariant
            j <= layer.adds().len(),
            gates_in_bounds(layer.adds(), layer.len_spec(), input@.len()),
            out@ == apply_gates(zeros, layer.adds().subrange(0, j as int), input@, true),
            out@.len() == layer.len_spec(),
        decreases layer.adds().len() - j,
    {
        let g = layer.add_gates[j];
        proof {
            assert(layer.adds()[j as int] == g);
            assert(layer.adds()[j as int].out < layer.len_spec());
        }
        let v = input[g.in_a].add(&input[g.in_b]);
        proof {
            assert(layer.adds().subrange(0, j + 1).drop_last() =~= layer.adds().subrange(0, j as int));
        }
        out.set(g.out, v);
        j = j + 1;
    }
    proof {
        assert(layer.adds().subrange(0, layer.adds().len() as int) =~= layer.adds());
    }
    let ghost after_add = out@;
    let mut j: usize = 0;
    while j < layer.mul_gates.len()
        invariant
            j <= layer.muls().len(),
            gates_in_bounds(layer.muls(), layer.len_spec(), input@.len()),
            out@ == apply_gates(after_add, layer.muls().subrange(0, j as int), input@, false),
            out@.len() == layer.len_spec(),
        decreases layer.muls().len() - j,
    {
        let g = layer.mul_gates[j];
        proof {
            assert(layer.muls()[j as int] == g);
            assert(layer.muls()[j as int].out < layer.len_spec());
        }
        let v = input[g.in_a].mul(&input[g.in_b]);
        proof {
            assert(layer.muls().subrange(0, j + 1).drop_last() =~= layer.muls().subrange(0, j as int));
        }
        out.set(g.out, v);
        j = j + 1;
    }
    proof {
        assert(layer.muls().subrange(0, layer.muls().len() as int) =~= layer.muls());
    }
    out
}

} // verus!
