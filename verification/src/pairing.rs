//! Pairing of boolean hypercube entries that differ in a single variable.
//!
//! Entries of an `n`-variable hypercube are numbered `0..2^n`, the first
//! variable being the most significant bit. Fixing a variable position, every
//! entry whose bit for that variable is 0 pairs with the entry that has the
//! bit set.
use crate::bits::{bit_of, insert_bit, spec_insert_bit};
use vstd::arithmetic::div_mod::*;
use vstd::arithmetic::mul::*;
use vstd::arithmetic::power2::*;
use vstd::bits::*;
use vstd::prelude::*;

verus! {

/// The `j`-th entry whose bit `k` is clear, i.e. `j` with a 0 inserted at position `k`.
pub open spec fn low_entry(j: nat, k: nat) -> nat {
    spec_insert_bit(j, k, 0)
}

proof fn lemma_insert_bit_bound(j: nat, k: nat, n: nat, b: nat)
    requires
        k < n,
        j < pow2((n - 1) as nat),
        b < 2,
    ensures
        spec_insert_bit(j, k, b) < pow2(n),
        spec_insert_bit(j, k, 1) == spec_insert_bit(j, k, 0) + pow2(k),
{
    let s = pow2(k);
    let t = pow2((n - 1 - k) as nat);
    lemma_pow2_pos(k);
    lemma_pow2_adds(k, (n - 1 - k) as nat);
    lemma_pow2_unfold(k + 1);
    lemma_pow2_adds(k + 1, (n - 1 - k) as nat);
    lemma_fundamental_div_mod(j as int, s as int);
    lemma_mod_bound(j as int, s as int);
    let q = j / s;
    let r = j % s;
    assert(q < t) by (nonlinear_arith)
        requires
            j == s * q + r,
            j < s * t,
            0 <= r,
            s > 0,
    ;
    assert(q * (2 * s) + b * s + r < (2 * s) * t) by (nonlinear_arith)
        requires
            q < t,
            r < s,
            b < 2,
            s > 0,
    ;
    assert(spec_insert_bit(j, k, 1) == spec_insert_bit(j, k, 0) + pow2(k)) by (nonlinear_arith)
        requires
            spec_insert_bit(j, k, 1) == q * pow2(k + 1) + 1 * s + r,
            spec_insert_bit(j, k, 0) == q * pow2(k + 1) + 0 * s + r,
            s == pow2(k),
    ;
}

/// Returns, for each of the `2^(n_vars - 1)` pairs in direction `index`, the two
/// hypercube entries that differ only in the variable at `index`.
pub fn index_pair(n_vars: u8, index: u8) -> (r: Vec<(usize, usize)>)
    requires
        1 <= n_vars,
        index < n_vars,
        (n_vars as u32) < usize::BITS,
    ensures
        r@.len() == pow2((n_vars - 1) as nat),
        forall|j: int|
            0 <= j < r@.len() ==> #[trigger] r@[j] == (
                spec_insert_bit(j as nat, (n_vars - 1 - index) as nat, 0) as usize,
                spec_insert_bit(j as nat, (n_vars - 1 - index) as nat, 1) as usize,
            ),
{
    let base_no_of_vars: u8 = n_vars - 1;
    let k: u8 = base_no_of_vars - index;
    proof {
        lemma_usize_pow2_no_overflow(n_vars as nat);
        lemma_usize_pow2_no_overflow(base_no_of_vars as nat);
        lemma_usize_shl_is_mul(1, base_no_of_vars as usize);
    }
    let no_of_pairs: usize = 1usize << base_no_of_vars;
    let mut result: Vec<(usize, usize)> = Vec::new();
    let mut val: usize = 0;
    while val < no_of_pairs
        invariant
            no_of_pairs as nat == pow2(base_no_of_vars as nat),
            base_no_of_vars == n_vars - 1,
            k == base_no_of_vars - index,
            index < n_vars,
            pow2(n_vars as nat) < usize::MAX,
            (n_vars as u32) < usize::BITS,
            val <= no_of_pairs,
            result@.len() == val,
            forall|j: int|
                0 <= j < val ==> #[trigger] result@[j] == (
                    spec_insert_bit(j as nat, k as nat, 0) as usize,
                    spec_insert_bit(j as nat, k as nat, 1) as usize,
                ),
        decreases no_of_pairs - val,
    {
        proof {
            lemma_insert_bit_bound(val as nat, k as nat, n_vars as nat, 0);
            lemma_insert_bit_bound(val as nat, k as nat, n_vars as nat, 1);
        }
        let l = insert_bit(val, k, 0);
        let h = insert_bit(val, k, 1);
        result.push((l, h));
        val = val + 1;
    }
    result
}

/// State for the pairing index iterator: yields, in increasing order, the hypercube
/// entries whose bit for a chosen variable is 0; `index + shift_value` is the paired entry.
pub struct PairingIndex {
    evaluation_len: usize,
    shift_value: usize,
    current_index: usize,
    counter: usize,
}

impl PairingIndex {
    #[verifier::type_invariant]
    spec fn well_formed(self) -> bool {
        &&& 1 <= self.shift_value <= self.evaluation_len
        &&& self.current_index <= self.evaluation_len
        &&& self.counter <= self.current_index
    }

    pub closed spec fn len_spec(self) -> nat {
        self.evaluation_len as nat
    }

    pub closed spec fn shift_spec(self) -> nat {
        self.shift_value as nat
    }

    pub closed spec fn current_spec(self) -> nat {
        self.current_index as nat
    }

    pub closed spec fn counter_spec(self) -> nat {
        self.counter as nat
    }

    /// Instantiates a pairing index over an `n_vars`-variable hypercube for the variable
    /// at `position` (0 is the first variable); fails if `position >= n_vars`.
    pub fn new(n_vars: usize, position: usize) -> (r: Result<Self, &'static str>)
        requires
            n_vars < usize::BITS,
        ensures
            r is Err <==> position >= n_vars,
            r is Ok ==> {
                let p = r->Ok_0;
                &&& p.len_spec() == pow2(n_vars as nat)
                &&& p.shift_spec() == pow2((n_vars - position - 1) as nat)
                &&& p.current_spec() == 0
                &&& p.counter_spec() == 0
            },
    {
        if position >= n_vars {
            return Err("pairing variable must be less than number of variables (zero indexed)");
        }
        proof {
            lemma_usize_pow2_no_overflow(n_vars as nat);
            lemma_usize_pow2_no_overflow((position + 1) as nat);
            lemma_usize_shl_is_mul(1, n_vars);
            lemma_usize_shl_is_mul(1, (position + 1) as usize);
            lemma_pow2_subtracts((position + 1) as nat, n_vars as nat);
            lemma_pow2_pos((n_vars - position - 1) as nat);
            if position + 1 < n_vars {
                lemma_pow2_strictly_increases((n_vars - position - 1) as nat, n_vars as nat);
            }
        }
        let evaluation_len: usize = 1usize << n_vars;
        let divisor: usize = 1usize << (position + 1);
        Ok(PairingIndex { evaluation_len, shift_value: evaluation_len / divisor, counter: 0, current_index: 0 })
    }

    /// The distance between an entry and its pair.
    pub fn shift_value(&self) -> (r: usize)
        ensures
            r == self.shift_spec(),
    {
        self.shift_value
    }

    /// Returns the next entry with a clear bit, or `None` once every pair has been visited.
    pub fn next(&mut self) -> (r: Option<usize>)
        ensures
            final(self).len_spec() == old(self).len_spec(),
            final(self).shift_spec() == old(self).shift_spec(),
            old(self).current_spec() + old(self).shift_spec() >= old(self).len_spec() ==> {
                &&& r is None
                &&& final(self).current_spec() == old(self).current_spec()
                &&& final(self).counter_spec() == old(self).counter_spec()
            },
            old(self).current_spec() + old(self).shift_spec() < old(self).len_spec() ==> {
                &&& r == Some(old(self).current_spec() as usize)
                &&& final(self).counter_spec() == old(self).counter_spec() + 1
                &&& final(self).current_spec() == old(self).current_spec() + 1 + if (old(
                    self,
                ).counter_spec() + 1) % old(self).shift_spec() == 0 {
                    old(self).shift_spec()
                } else {
                    0
                }
            },
    {
        proof {
            use_type_invariant(&*self);
        }
        if self.current_index >= self.evaluation_len - self.shift_value {
            return None;
        }
        let index = self.current_index;
        let bump: usize = if (self.counter + 1) % self.shift_value == 0 {
            self.shift_value
        } else {
            0
        };
        self.current_index = self.current_index + 1 + bump;
        self.counter = self.counter + 1;
        Some(index)
    }

    /// The exponent of the shift value (a power of two for every index that `new` builds).
    pub open spec fn shift_exponent(self) -> nat {
        choose|k: nat| pow2(k) == self.shift_spec()
    }

    /// Drains the iterator, returning every remaining entry in order.
    ///
    /// For a freshly created index over `n` variables and a variable at `position`,
    /// these are the `2^(n-1)` entries with a clear bit at `position`, in increasing order.
    pub fn remaining(self) -> (r: Vec<usize>)
        requires
            self.current_spec() == 0,
            self.counter_spec() == 0,
            exists|k: nat, m: nat|
                self.shift_spec() == #[trigger] pow2(k) && self.len_spec() == #[trigger] pow2(
                    k + 1 + m,
                ),
        ensures
            r@.len() == self.len_spec() / 2,
            forall|j: int|
                0 <= j < r@.len() ==> #[trigger] r@[j] == low_entry(j as nat, self.shift_exponent()),
    {
        let ghost (k0, m) = choose|k: nat, m: nat|
            self.shift_spec() == #[trigger] pow2(k) && self.len_spec() == #[trigger] pow2(k + 1 + m);
        let ghost k = self.shift_exponent();
        let mut it = self;
        let mut out: Vec<usize> = Vec::new();
        let ghost s = self.shift_spec();
        let ghost len = self.len_spec();
        let ghost blocks = pow2(m);
        proof {
            assert(pow2(k0) == self.shift_spec());
            assert(pow2(k) == self.shift_spec());
            lemma_pow2_pos(k);
            lemma_pow2_pos(m);
            lemma_pow2_adds(k + 1, m);
            lemma_pow2_unfold(k + 1);
            if k != k0 {
                if k < k0 {
                    lemma_pow2_strictly_increases(k, k0);
                } else {
                    lemma_pow2_strictly_increases(k0, k);
                }
            }
            assert(k == k0);
            assert(blocks * (2 * s) == len) by (nonlinear_arith)
                requires
                    len == pow2(k + 1) * blocks,
                    pow2(k + 1) == 2 * s,
            ;
            assert(len >= 2 * s) by (nonlinear_arith)
                requires
                    len == blocks * (2 * s),
                    blocks >= 1,
                    s >= 1,
            ;
            lemma_step_start(k);
            lemma_half(blocks, s);
        }
        loop
            invariant
                s == pow2(k),
                s >= 1,
                blocks >= 1,
                it.shift_spec() == s,
                it.len_spec() == len,
                blocks * (2 * s) == len,
                len / 2 == blocks * s,
                it.counter_spec() <= len / 2,
                it.current_spec() == low_entry(it.counter_spec(), k),
                out@.len() == it.counter_spec(),
                forall|j: int| 0 <= j < out@.len() ==> #[trigger] out@[j] == low_entry(j as nat, k),
            ensures
                out@.len() == len / 2,
                forall|j: int| 0 <= j < out@.len() ==> #[trigger] out@[j] == low_entry(j as nat, k),
            decreases len / 2 - it.counter_spec(),
        {
            let ghost j = it.counter_spec();
            proof {
                lemma_termination(j, k, blocks);
                lemma_step(j, k);
            }
            match it.next() {
                Some(v) => {
                    out.push(v);
                },
                None => {
                    break;
                },
            }
        }
        out
    }
}

proof fn lemma_half(blocks: nat, s: nat)
    ensures
        (blocks * (2 * s)) / 2 == blocks * s,
{
    assert(blocks * (2 * s) == (blocks * s) * 2) by (nonlinear_arith);
    lemma_div_multiples_vanish((blocks * s) as int, 2);
    lemma_mul_is_commutative((blocks * s) as int, 2);
}

proof fn lemma_step_start(k: nat)
    ensures
        low_entry(0, k) == 0,
{
    lemma_pow2_pos(k);
    lemma_basic_div(0, pow2(k) as int);
    lemma_small_mod(0, pow2(k));
}

proof fn lemma_step(j: nat, k: nat)
    ensures
        low_entry(j + 1, k) == low_entry(j, k) + 1 + if (j + 1) % pow2(k) == 0 {
            pow2(k)
        } else {
            0
        },
{
    let s = pow2(k);
    lemma_pow2_pos(k);
    lemma_pow2_unfold(k + 1);
    lemma_fundamental_div_mod(j as int, s as int);
    lemma_mod_bound(j as int, s as int);
    let q = j / s;
    let r = j % s;
    if r + 1 < s {
        lemma_fundamental_div_mod_converse((j + 1) as int, s as int, q as int, (r + 1) as int);
        assert((j + 1) % s != 0);
    } else {
        assert((j + 1) as int == (q + 1) * (s as int) + 0) by (nonlinear_arith)
            requires
                j == s * q + r,
                r + 1 == s,
        ;
        lemma_fundamental_div_mod_converse((j + 1) as int, s as int, (q + 1) as int, 0);
        assert((q + 1) * pow2(k + 1) == q * pow2(k + 1) + r + 1 + s) by (nonlinear_arith)
            requires
                pow2(k + 1) == 2 * s,
                r + 1 == s,
        ;
    }
}

proof fn lemma_termination(j: nat, k: nat, blocks: nat)
    requires
        j <= (blocks * (2 * pow2(k))) / 2,
        blocks >= 1,
    ensures
        j < (blocks * (2 * pow2(k))) / 2 ==> low_entry(j, k) + pow2(k) < blocks * (2 * pow2(k)),
        j == (blocks * (2 * pow2(k))) / 2 ==> low_entry(j, k) + pow2(k) >= blocks * (2 * pow2(k)),
{
    let s = pow2(k);
    lemma_pow2_pos(k);
    lemma_pow2_unfold(k + 1);
    lemma_fundamental_div_mod(j as int, s as int);
    lemma_mod_bound(j as int, s as int);
    let q = j / s;
    let r = j % s;
    lemma_half(blocks, s);
    assert(low_entry(j, k) == q * (2 * s) + r);
    if j < blocks * s {
        assert(q < blocks) by (nonlinear_arith)
            requires
                j == s * q + r,
                j < blocks * s,
                r >= 0,
                s > 0,
        ;
        assert(q * (2 * s) + r + s < blocks * (2 * s)) by (nonlinear_arith)
            requires
                q < blocks,
                r < s,
                s > 0,
        ;
    } else {
        lemma_fundamental_div_mod_converse(j as int, s as int, blocks as int, 0);
        assert(blocks * (2 * s) + s >= blocks * (2 * s));
    }
}

/// The `j`-th entry with a clear bit `k` pairs with the entry one shift
/// (`2^k`) above it, which is the entry with bit `k` set: `e + 2^k == e | 2^k`.
/// Both lie in the hypercube of `n` variables, and they agree on every other bit.
pub proof fn lemma_pair_entries(j: nat, k: nat, n: nat)
    requires
        k < n,
        j < pow2((n - 1) as nat),
    ensures
        low_entry(j, k) + pow2(k) < pow2(n),
        !bit_of(low_entry(j, k), k),
        bit_of(low_entry(j, k) + pow2(k), k),
        forall|i: nat| i < k ==> #[trigger] bit_of(low_entry(j, k) + pow2(k), i) == bit_of(low_entry(j, k), i),
        (low_entry(j, k) + pow2(k)) / pow2(k + 1) == low_entry(j, k) / pow2(k + 1),
{
    lemma_insert_bit_bound(j, k, n, 1);
    let s = pow2(k);
    let e = low_entry(j, k);
    lemma_pow2_pos(k);
    lemma_pow2_unfold(k + 1);
    let q = j / s;
    let r = j % s;
    lemma_mod_bound(j as int, s as int);
    assert(e == q * pow2(k + 1) + r);
    assert(e == (2 * q) * s + r) by (nonlinear_arith)
        requires
            e == q * pow2(k + 1) + r,
            pow2(k + 1) == 2 * s,
    ;
    assert(e + s == (2 * q + 1) * s + r) by (nonlinear_arith)
        requires
            e == (2 * q) * s + r,
    ;
    lemma_fundamental_div_mod_converse(e as int, s as int, (2 * q) as int, r as int);
    lemma_fundamental_div_mod_converse((e + s) as int, s as int, (2 * q + 1) as int, r as int);
    lemma_mod_multiples_basic(q as int, 2);
    lemma_mod_multiples_vanish(q as int, 1, 2);
    assert(!bit_of(e, k));
    assert(bit_of(e + s, k));
    lemma_fundamental_div_mod_converse(e as int, pow2(k + 1) as int, q as int, r as int);
    lemma_fundamental_div_mod_converse((e + s) as int, pow2(k + 1) as int, q as int, (r + s) as int);
    assert forall|i: nat| i < k implies #[trigger] bit_of(e + pow2(k), i) == bit_of(e, i) by {
        crate::evaluation::lemma_bit_shift(e, k, i);
    }
}

} // verus!
