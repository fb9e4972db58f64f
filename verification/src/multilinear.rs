//! Sparse multilinear polynomials over `Fp<P>`.
//!
//! A polynomial in `n` variables is a map from monomial index to coefficient.
//! Variable `i` has weight `2^i`; a monomial's index is the sum of the weights
//! of the variables it holds (so `ab` over `[a, b, c]` has index `1 + 2 = 3`).
use crate::bits::{
    binary_string, bit_count_for_n_elem, bit_len, lemma_bit_len_bound, bit_of, lemma_selector_value_lt, padded_binary, selector_from_position, selector_from_usize, selector_to_index, selector_value,
    single_selector,
};
use crate::extension::MultiLinearExtension;
use crate::field::{be_encoding, u64_to_be_bytes, Fp};
use std::collections::BTreeMap;
use vstd::arithmetic::power2::*;
use vstd::bits::*;
use vstd::prelude::*;
use vstd::std_specs::btree::{increasing_seq, spec_keys_iter};
use vstd::laws_cmp::obeys_cmp;
use vstd::std_specs::cmp::OrdSpec;
use vstd::std_specs::iter::IteratorSpec;
use vstd::string::StrSliceExecFns;

verus! {

/// A coefficient given as a field element and the selector of its monomial.
pub type PolynomialTerm<const P: u64> = (Fp<P>, Vec<bool>);

/// The coefficient at `k`, or zero where `m` holds none.
pub open spec fn coeff_or_zero<const P: u64>(m: Map<usize, Fp<P>>, k: usize) -> Fp<P> {
    if m.contains_key(k) {
        m[k]
    } else {
        Fp::<P>::spec_zero()
    }
}

/// `m` with `c` added into the coefficient at `k` (a missing coefficient counts as zero).
pub open spec fn add_into<const P: u64>(m: Map<usize, Fp<P>>, k: usize, c: Fp<P>) -> Map<
    usize,
    Fp<P>,
> {
    m.insert(k, coeff_or_zero(m, k).spec_add(c))
}

/// The coefficient map described by a list of terms: terms with the same
/// monomial are summed, in list order.
pub open spec fn terms_map<const P: u64>(terms: Seq<(Fp<P>, Vec<bool>)>) -> Map<usize, Fp<P>>
    decreases terms.len(),
{
    if terms.len() == 0 {
        Map::empty()
    } else {
        add_into(
            terms_map(terms.drop_last()),
            selector_value(terms.last().1@) as usize,
            terms.last().0,
        )
    }
}

/// Coefficient-wise sum of `a` and `b`: every key of either map; where `b`
/// holds a coefficient it is added to `a`'s (a missing one counting as zero).
pub open spec fn sum_maps<const P: u64>(a: Map<usize, Fp<P>>, b: Map<usize, Fp<P>>) -> Map<
    usize,
    Fp<P>,
> {
    Map::new(
        |k: usize| a.contains_key(k) || b.contains_key(k),
        |k: usize|
            if b.contains_key(k) {
                coeff_or_zero(a, k).spec_add(b[k])
            } else {
                a[k]
            },
    )
}

/// The product of `a` (in `n` variables) and `b` over disjoint variables:
/// monomial `i` of `a` times monomial `j` of `b` lands on `i + j * 2^n`;
/// pairs with a zero coefficient contribute nothing.
pub open spec fn product_terms<const P: u64>(a: Map<usize, Fp<P>>, n: nat, b: Map<usize, Fp<P>>) -> Map<
    usize,
    Fp<P>,
> {
    Map::new(
        |k: usize|
            {
                let i = (k as nat % pow2(n)) as usize;
                let j = (k as nat / pow2(n)) as usize;
                a.contains_key(i) && b.contains_key(j) && a[i].value() != 0 && b[j].value() != 0
            },
        |k: usize| a[(k as nat % pow2(n)) as usize].spec_mul(b[(k as nat / pow2(n)) as usize]),
    )
}

/// The number of selected positions in a selector.
pub open spec fn count_true(s: Seq<bool>) -> nat
    decreases s.len(),
{
    if s.len() == 0 {
        0
    } else {
        count_true(s.drop_last()) + if s.last() {
            1nat
        } else {
            0nat
        }
    }
}

/// The selected position of a selector that selects exactly one variable.
pub open spec fn single_position(s: Seq<bool>) -> nat {
    choose|p: nat| p < s.len() && s[p as int]
}

/// `s` selects exactly one of `n` variables.
pub open spec fn valid_selector(s: Seq<bool>, n: nat) -> bool {
    s.len() == n && count_true(s) == 1
}

/// `m` holds a coefficient at `k + 2^p`: the monomial `k` multiplied by variable `p`.
pub open spec fn has_partner<const P: u64>(m: Map<usize, Fp<P>>, k: usize, p: nat) -> bool {
    k + pow2(p) <= usize::MAX && m.contains_key((k + pow2(p)) as usize)
}

/// Substituting `c` for variable `p`: each term holding `p` moves to the
/// monomial without it, scaled by `c`, and is added into the term already
/// there (a missing one counting as zero).
pub open spec fn fix_variable<const P: u64>(m: Map<usize, Fp<P>>, p: nat, c: Fp<P>) -> Map<
    usize,
    Fp<P>,
> {
    Map::new(
        |k: usize| !bit_of(k as nat, p) && (m.contains_key(k) || has_partner(m, k, p)),
        |k: usize|
            if has_partner(m, k, p) {
                coeff_or_zero(m, k).spec_add(m[(k + pow2(p)) as usize].spec_mul(c))
            } else {
                m[k]
            },
    )
}

/// Substituting each assignment's value for the variable its selector selects, in order.
pub open spec fn apply_assignments<const P: u64>(
    m: Map<usize, Fp<P>>,
    assignments: Seq<(Vec<bool>, Fp<P>)>,
) -> Map<usize, Fp<P>>
    decreases assignments.len(),
{
    if assignments.len() == 0 {
        m
    } else {
        fix_variable(
            apply_assignments(m, assignments.drop_last()),
            single_position(assignments.last().0@),
            assignments.last().1,
        )
    }
}

/// The selectors and values of a list of assignments, as sequences.
pub open spec fn selector_views<const P: u64>(a: Seq<(Vec<bool>, Fp<P>)>) -> Seq<(Seq<bool>, Fp<P>)> {
    a.map_values(|x: (Vec<bool>, Fp<P>)| (x.0@, x.1))
}

/// Substituting each value for the variable its selector selects, in order
/// (the same as `apply_assignments`, on selectors given as sequences).
pub open spec fn substitute<const P: u64>(m: Map<usize, Fp<P>>, s: Seq<(Seq<bool>, Fp<P>)>) -> Map<
    usize,
    Fp<P>,
>
    decreases s.len(),
{
    if s.len() == 0 {
        m
    } else {
        fix_variable(substitute(m, s.drop_last()), single_position(s.last().0), s.last().1)
    }
}

/// Every selector of `s` selects exactly one of `n` variables.
pub open spec fn selectors_valid<const P: u64>(s: Seq<(Seq<bool>, Fp<P>)>, n: nat) -> bool {
    forall|i: int| 0 <= i < s.len() ==> valid_selector(#[trigger] s[i].0, n)
}

/// `apply_assignments` depends on the selectors' contents only.
pub proof fn lemma_apply_views<const P: u64>(m: Map<usize, Fp<P>>, a: Seq<(Vec<bool>, Fp<P>)>)
    ensures
        apply_assignments(m, a) == substitute(m, selector_views(a)),
        selector_views(a).len() == a.len(),
        forall|i: int| 0 <= i < a.len() ==> #[trigger] selector_views(a)[i] == (a[i].0@, a[i].1),
    decreases a.len(),
{
    if a.len() > 0 {
        lemma_apply_views(m, a.drop_last());
        assert(selector_views(a).drop_last() =~= selector_views(a.drop_last()));
    }
}

/// Substituting `xs[i]` for variable `i`, for `i` from `0` up.
pub open spec fn fix_all<const P: u64>(m: Map<usize, Fp<P>>, xs: Seq<Fp<P>>) -> Map<usize, Fp<P>>
    decreases xs.len(),
{
    if xs.len() == 0 {
        m
    } else {
        fix_variable(fix_all(m, xs.drop_last()), (xs.len() - 1) as nat, xs.last())
    }
}

/// `presence[i]` holds when some monomial of `m` holds variable `i` (for `i < n`).
pub open spec fn presence_spec<const P: u64>(m: Map<usize, Fp<P>>, n: nat) -> Seq<bool> {
    Seq::new(n, |i: int| exists|k: usize| #[trigger] m.contains_key(k) && bit_of(k as nat, i as nat))
}

/// The bits of `k` at the positions `presence` marks, lowest first.
pub open spec fn kept_bits(k: nat, presence: Seq<bool>) -> Seq<bool>
    decreases presence.len(),
{
    if presence.len() == 0 {
        Seq::empty()
    } else if presence.last() {
        kept_bits(k, presence.drop_last()).push(bit_of(k, (presence.len() - 1) as nat))
    } else {
        kept_bits(k, presence.drop_last())
    }
}

/// The index of monomial `k` once the variables `presence` leaves out are removed
/// and the others renumbered in order.
pub open spec fn compress(k: nat, presence: Seq<bool>) -> nat {
    selector_value(kept_bits(k, presence))
}

/// The bits of `k` below position `n`, lowest first.
pub open spec fn bits_of(k: nat, n: nat) -> Seq<bool> {
    Seq::new(n, |i: int| bit_of(k, i as nat))
}

/// Renaming instructions for a presence vector: each present variable `i`
/// whose rank among the present ones differs from `i` moves to that rank.
pub open spec fn mapping_spec(presence: Seq<bool>) -> Seq<(usize, usize)>
    decreases presence.len(),
{
    if presence.len() == 0 {
        Seq::empty()
    } else {
        let prev = mapping_spec(presence.drop_last());
        let i = (presence.len() - 1) as nat;
        let rank = count_true(presence.drop_last());
        if presence.last() && rank != i {
            prev.push((i as usize, rank as usize))
        } else {
            prev
        }
    }
}

/// `r` holds the terms of `m` with every monomial renamed by `compress`.
pub open spec fn is_relabelling<const P: u64>(
    m: Map<usize, Fp<P>>,
    r: Map<usize, Fp<P>>,
    presence: Seq<bool>,
) -> bool {
    &&& forall|k: usize| #[trigger] m.contains_key(k) ==> r.contains_key(
        compress(k as nat, presence) as usize,
    ) && r[compress(k as nat, presence) as usize] == m[k]
    &&& forall|x: usize| #[trigger] r.contains_key(x) ==> exists|k: usize|
        #[trigger] m.contains_key(k) && compress(k as nat, presence) == x
}

/// One for an even count, minus one for an odd count.
pub open spec fn sign<const P: u64>(odd: bool) -> Fp<P> {
    if odd {
        Fp::<P>::spec_one().spec_neg()
    } else {
        Fp::<P>::spec_one()
    }
}

/// Whether monomial `k` holds an odd number of the variables that the bit
/// string `s` checks for zero (any character other than `'1'`).
pub open spec fn checker_parity(s: Seq<char>, k: nat) -> bool
    decreases s.len(),
{
    if s.len() == 0 {
        false
    } else {
        checker_parity(s.drop_last(), k) != (s.last() != '1' && bit_of(k, (s.len() - 1) as nat))
    }
}

/// Monomial `k` appears in the checker of `s`: it lies within `s.len()` variables
/// and holds every variable that `s` checks for one.
pub open spec fn checker_holds(s: Seq<char>, k: nat) -> bool {
    &&& k < pow2(s.len())
    &&& forall|i: int| 0 <= i < s.len() && s[i] == '1' ==> bit_of(k, i as nat)
}

/// The coefficients of `prod_i (x_i if s[i] == '1' else 1 - x_i)`: every
/// admissible monomial, with sign `(-1)^(number of zero-checked variables held)`.
pub open spec fn checker_terms<const P: u64>(s: Seq<char>) -> Map<usize, Fp<P>> {
    Map::new(|k: usize| checker_holds(s, k as nat), |k: usize| sign::<P>(checker_parity(s, k as nat)))
}

/// The coefficients of the one-variable checker for character `c`:
/// `x` for `'1'`, `1 - x` otherwise.
pub open spec fn check_terms<const P: u64>(c: char) -> Map<usize, Fp<P>> {
    if c == '1' {
        map![1usize => Fp::<P>::spec_one()]
    } else {
        map![0usize => Fp::<P>::spec_one(), 1usize => Fp::<P>::spec_one().spec_neg()]
    }
}

/// Coefficient-wise sum over the keys of either map (missing coefficients count as zero).
pub open spec fn add_terms<const P: u64>(a: Map<usize, Fp<P>>, b: Map<usize, Fp<P>>) -> Map<
    usize,
    Fp<P>,
> {
    Map::new(
        |k: usize| a.contains_key(k) || b.contains_key(k),
        |k: usize| coeff_or_zero(a, k).spec_add(coeff_or_zero(b, k)),
    )
}

/// The multilinear interpolation of `values` over `n` variables: the sum of
/// `values[i]` times the checker of the `n`-digit binary string of `i`.
pub open spec fn interpolation_terms<const P: u64>(values: Seq<Fp<P>>, n: nat) -> Map<usize, Fp<P>>
    decreases values.len(),
{
    if values.len() == 0 {
        Map::empty()
    } else {
        add_terms(
            interpolation_terms(values.drop_last(), n),
            checker_terms::<P>(padded_binary((values.len() - 1) as nat, n)).map_values(
                |c: Fp<P>| c.spec_mul(values.last()),
            ),
        )
    }
}

/// Every coefficient is held in canonical form.
pub open spec fn all_canonical<const P: u64>(m: Map<usize, Fp<P>>) -> bool {
    forall|k: usize| #[trigger] m.contains_key(k) ==> m[k].value() < P
}

/// A strictly increasing sequence of keys.
pub open spec fn strictly_increasing(s: Seq<usize>) -> bool {
    forall|a: int, b: int| 0 <= a < b < s.len() ==> s[a] < s[b]
}

/// The keys of `m` in increasing order.
pub open spec fn sorted_dom<const P: u64>(m: Map<usize, Fp<P>>) -> Seq<usize> {
    choose|s: Seq<usize>| strictly_increasing(s) && forall|k: usize| #[trigger] s.contains(k) <==> m.contains_key(k)
}

/// The encoding of the terms at `keys`: each key (eight bytes) followed by its
/// coefficient (eight bytes), big-endian.
pub open spec fn terms_bytes<const P: u64>(m: Map<usize, Fp<P>>, keys: Seq<usize>) -> Seq<u8>
    decreases keys.len(),
{
    if keys.len() == 0 {
        Seq::empty()
    } else {
        terms_bytes(m, keys.drop_last()) + be_encoding(keys.last() as nat, 8) + be_encoding(
            m[keys.last()].value(),
            8,
        )
    }
}

/// The terms of `m` with every monomial renamed by `compress`.
pub open spec fn relabelled_terms<const P: u64>(m: Map<usize, Fp<P>>, presence: Seq<bool>) -> Map<
    usize,
    Fp<P>,
> {
    Map::new(
        |x: usize| exists|k: usize| #[trigger] m.contains_key(k) && compress(k as nat, presence) == x,
        |x: usize| m[choose|k: usize| #[trigger] m.contains_key(k) && compress(k as nat, presence) == x],
    )
}

/// Every key of `m` is the index of a monomial in `n` variables.
pub open spec fn keys_below<const P: u64>(m: Map<usize, Fp<P>>, n: nat) -> bool {
    forall|k: usize| #[trigger] m.contains_key(k) ==> (k as nat) < pow2(n)
}

/// Extending a prefix by one element adds exactly that element.
proof fn lemma_prefix_contains<A>(s: Seq<A>, i: int)
    requires
        0 <= i < s.len(),
    ensures
        forall|x: A| #[trigger] s.subrange(0, i + 1).contains(x) <==> (s.subrange(0, i).contains(x) || x == s[i]),
{
    assert(s.subrange(0, i + 1) =~= s.subrange(0, i).push(s[i]));
    assert forall|x: A| #[trigger] s.subrange(0, i + 1).contains(x) <==> (s.subrange(0, i).contains(x) || x == s[i]) by {
        let p = s.subrange(0, i);
        if p.push(s[i]).contains(x) {
            let t = choose|t: int| 0 <= t < p.len() + 1 && #[trigger] p.push(s[i])[t] == x;
            if t < p.len() {
                assert(p[t] == x);
            }
        }
        if p.contains(x) {
            let t = choose|t: int| 0 <= t < p.len() && #[trigger] p[t] == x;
            assert(p.push(s[i])[t] == x);
        }
        if x == s[i] {
            assert(p.push(s[i])[i] == x);
        }
    }
}

/// A selector with exactly one selected position selects `single_position(s)`
/// only, and its index is `2^single_position(s)`.
pub proof fn lemma_single_selector(s: Seq<bool>)
    requires
        count_true(s) == 1,
    ensures
        single_position(s) < s.len(),
        s[single_position(s) as int],
        forall|q: int| 0 <= q < s.len() && q != single_position(s) ==> !#[trigger] s[q],
        selector_value(s) == pow2(single_position(s)),
    decreases s.len(),
{
    let d = s.drop_last();
    if s.last() {
        lemma_count_zero(d);
        let p = (s.len() - 1) as nat;
        assert(p < s.len() && s[p as int]);
        let c = single_position(s);
        assert(c == p) by {
            if c != p {
                assert(d[c as int] == s[c as int]);
            }
        }
        assert forall|q: int| 0 <= q < s.len() && q != single_position(s) implies !#[trigger] s[q] by {
            assert(d[q] == s[q]);
        }
    } else {
        lemma_single_selector(d);
        let p = single_position(d);
        assert(s[p as int]);
        let c = single_position(s);
        assert(c == p) by {
            if c != p {
                if c < d.len() {
                    assert(d[c as int] == s[c as int]);
                }
            }
        }
        assert forall|q: int| 0 <= q < s.len() && q != single_position(s) implies !#[trigger] s[q] by {
            if q < d.len() {
                assert(d[q] == s[q]);
            }
        }
    }
}

/// A selector with nothing selected has index zero.
proof fn lemma_count_zero(s: Seq<bool>)
    requires
        count_true(s) == 0,
    ensures
        selector_value(s) == 0,
        forall|q: int| 0 <= q < s.len() ==> !#[trigger] s[q],
    decreases s.len(),
{
    if s.len() > 0 {
        lemma_count_zero(s.drop_last());
        assert forall|q: int| 0 <= q < s.len() implies !#[trigger] s[q] by {
            if q < s.len() - 1 {
                assert(s.drop_last()[q] == s[q]);
            }
        }
    }
}

/// Adding `2^p` to an index without bit `p` sets that bit and leaves the others.
proof fn lemma_set_bit(k: nat, p: nat)
    requires
        !bit_of(k, p),
    ensures
        bit_of(k + pow2(p), p),
        (k + pow2(p)) / pow2(p) == k / pow2(p) + 1,
{
    lemma_pow2_pos(p);
    vstd::arithmetic::div_mod::lemma_div_plus_one(k as int, pow2(p) as int);
}

/// An index with bit `p` is at least `2^p`, and removing `2^p` clears that bit.
proof fn lemma_clear_bit(k: nat, p: nat)
    requires
        bit_of(k, p),
    ensures
        k >= pow2(p),
        !bit_of((k - pow2(p)) as nat, p),
{
    lemma_pow2_pos(p);
    if k < pow2(p) {
        vstd::arithmetic::div_mod::lemma_basic_div(k as int, pow2(p) as int);
    }
    vstd::arithmetic::div_mod::lemma_div_minus_one(k as int, pow2(p) as int);
}

/// A single selector of `size` positions selects exactly `position`.
pub proof fn lemma_single_selector_position(size: nat, position: nat)
    requires
        position < size,
    ensures
        count_true(single_selector(size, position)) == 1,
        single_position(single_selector(size, position)) == position,
{
    lemma_count_single(size, position);
    lemma_single_selector(single_selector(size, position));
}

proof fn lemma_count_single(size: nat, position: nat)
    ensures
        count_true(single_selector(size, position)) == if position < size {
            1nat
        } else {
            0nat
        },
    decreases size,
{
    if size > 0 {
        lemma_count_single((size - 1) as nat, position);
        assert(single_selector(size, position).drop_last() =~= single_selector(
            (size - 1) as nat,
            position,
        ));
    }
}

/// Assigning `xs[i]` to the selector of position `i`, for every `i` in order,
/// is substituting `xs` into the variables from `0` up.
proof fn lemma_apply_positions<const P: u64>(
    m: Map<usize, Fp<P>>,
    a: Seq<(Vec<bool>, Fp<P>)>,
    xs: Seq<Fp<P>>,
    n: nat,
)
    requires
        a.len() == xs.len(),
        xs.len() <= n,
        forall|i: int|
            0 <= i < a.len() ==> (#[trigger] a[i]).0@ == single_selector(n, i as nat) && a[i].1
                == xs[i],
    ensures
        apply_assignments(m, a) == fix_all(m, xs),
    decreases a.len(),
{
    if a.len() > 0 {
        let k = a.len() - 1;
        lemma_apply_positions(m, a.drop_last(), xs.drop_last(), n);
        assert(a[k].0@ == single_selector(n, k as nat));
        lemma_single_selector_position(n, k as nat);
    }
}

/// Substituting values for the first `xs.len()` variables of a nonempty map
/// leaves a nonempty map whose keys have those variables' bits clear.
pub proof fn lemma_fix_all_keys<const P: u64>(m: Map<usize, Fp<P>>, xs: Seq<Fp<P>>, n: nat)
    requires
        keys_below(m, n),
        xs.len() <= n,
        !m.dom().is_empty(),
    ensures
        keys_below(fix_all(m, xs), n),
        !fix_all(m, xs).dom().is_empty(),
        forall|k: usize| #[trigger] fix_all(m, xs).contains_key(k) ==> (k as nat) % pow2(xs.len()) == 0,
    decreases xs.len(),
{
    let t = xs.len();
    if t == 0 {
        assert forall|k: usize| #[trigger] fix_all(m, xs).contains_key(k) implies (k as nat) % pow2(t) == 0 by {
            lemma2_to64();
        }
    } else {
        let p = (t - 1) as nat;
        let prev = fix_all(m, xs.drop_last());
        lemma_fix_all_keys(m, xs.drop_last(), n);
        let r = fix_all(m, xs);
        assert(r == fix_variable(prev, p, xs.last()));
        lemma_pow2_pos(p);
        lemma_pow2_unfold(t);
        lemma_fix_step_keys(prev, p, xs.last(), n);
        let k0 = prev.dom().choose();
        assert(prev.contains_key(k0));
        if bit_of(k0 as nat, p) {
            lemma_clear_bit(k0 as nat, p);
            let k1 = (k0 - pow2(p)) as usize;
            assert(has_partner(prev, k1, p));
            assert(r.contains_key(k1));
        } else {
            assert(r.contains_key(k0));
        }
    }
}

/// An index below `2^n` that is a multiple of `2^n` is zero.
proof fn lemma_small_mod_zero(k: nat, n: nat)
    requires
        k < pow2(n),
        k % pow2(n) == 0,
    ensures
        k == 0,
{
    lemma_pow2_pos(n);
    vstd::arithmetic::div_mod::lemma_small_mod(k, pow2(n));
}

/// Bits below `m` survive reduction modulo `2^m`.
pub proof fn lemma_bit_of_mod(k: nat, m: nat, i: nat)
    requires
        i < m,
    ensures
        bit_of(k % pow2(m), i) == bit_of(k, i),
{
    let y = pow2(i);
    let z = pow2((m - i) as nat);
    lemma_pow2_pos(i);
    lemma_pow2_pos((m - i) as nat);
    lemma_pow2_adds(i, (m - i) as nat);
    vstd::arithmetic::div_mod::lemma_mod_breakdown(k as int, y as int, z as int);
    vstd::arithmetic::div_mod::lemma_mod_bound(k as int, y as int);
    vstd::arithmetic::div_mod::lemma_fundamental_div_mod_converse(
        (k % pow2(m)) as int,
        y as int,
        ((k / y) % z) as int,
        (k % y) as int,
    );
    vstd::arithmetic::mul::lemma_mul_is_commutative(y as int, ((k / y) % z) as int);
    lemma_pow2_unfold((m - i) as nat);
    lemma_pow2_pos((m - i - 1) as nat);
    vstd::arithmetic::div_mod::lemma_mod_mod((k / y) as int, 2, pow2((m - i - 1) as nat) as int);
}

/// A number below `2^n` is the index of its own bits.
pub proof fn lemma_bits_value(k: nat, n: nat)
    requires
        k < pow2(n),
    ensures
        selector_value(bits_of(k, n)) == k,
    decreases n,
{
    if n == 0 {
        lemma2_to64();
    } else {
        let h = (n - 1) as nat;
        let low = k % pow2(h);
        lemma_pow2_pos(h);
        vstd::arithmetic::div_mod::lemma_mod_bound(k as int, pow2(h) as int);
        lemma_bits_value(low, h);
        assert(bits_of(k, n).drop_last() =~= bits_of(low, h)) by {
            assert forall|i: int| 0 <= i < h implies bits_of(k, n).drop_last()[i] == bits_of(low, h)[i] by {
                lemma_bit_of_mod(k, h, i as nat);
            }
        }
        lemma_pow2_unfold(n);
        vstd::arithmetic::div_mod::lemma_fundamental_div_mod(k as int, pow2(h) as int);
        vstd::arithmetic::div_mod::lemma_mod_bound(k as int, pow2(h) as int);
        assert(k / pow2(h) < 2) by {
            if k / pow2(h) >= 2 {
                vstd::arithmetic::mul::lemma_mul_inequality(2, (k / pow2(h)) as int, pow2(h) as int);
                vstd::arithmetic::mul::lemma_mul_is_commutative(pow2(h) as int, (k / pow2(h)) as int);
            }
        }
        vstd::arithmetic::mul::lemma_mul_basics(pow2(h) as int);
    }
}

/// Two selectors of one length with the same index are the same.
proof fn lemma_selector_value_injective(s1: Seq<bool>, s2: Seq<bool>)
    requires
        s1.len() == s2.len(),
        selector_value(s1) == selector_value(s2),
    ensures
        s1 == s2,
    decreases s1.len(),
{
    if s1.len() > 0 {
        let h = (s1.len() - 1) as nat;
        lemma_selector_value_lt(s1.drop_last());
        lemma_selector_value_lt(s2.drop_last());
        lemma_selector_value_injective(s1.drop_last(), s2.drop_last());
        assert(s1 =~= s2) by {
            assert(s1.drop_last().push(s1.last()) =~= s1);
            assert(s2.drop_last().push(s2.last()) =~= s2);
        }
    } else {
        assert(s1 =~= s2);
    }
}

/// Equal kept bits mean equal bits at every kept position.
proof fn lemma_kept_bits_agree(k1: nat, k2: nat, presence: Seq<bool>, i: nat)
    requires
        kept_bits(k1, presence) == kept_bits(k2, presence),
        i < presence.len(),
        presence[i as int],
    ensures
        bit_of(k1, i) == bit_of(k2, i),
    decreases presence.len(),
{
    lemma_kept_bits_len(k1, presence.drop_last());
    lemma_kept_bits_len(k2, presence.drop_last());
    if presence.last() {
        let a = kept_bits(k1, presence.drop_last());
        let b = kept_bits(k2, presence.drop_last());
        assert(a.push(bit_of(k1, (presence.len() - 1) as nat)) == b.push(bit_of(k2, (presence.len() - 1) as nat)));
        assert(a =~= a.push(bit_of(k1, (presence.len() - 1) as nat)).drop_last());
        assert(b =~= b.push(bit_of(k2, (presence.len() - 1) as nat)).drop_last());
        if i < presence.len() - 1 {
            assert(presence.drop_last()[i as int] == presence[i as int]);
            lemma_kept_bits_agree(k1, k2, presence.drop_last(), i);
        } else {
            assert(a.push(bit_of(k1, i)).last() == b.push(bit_of(k2, i)).last());
        }
    } else {
        assert(i < presence.len() - 1);
        assert(presence.drop_last()[i as int] == presence[i as int]);
        lemma_kept_bits_agree(k1, k2, presence.drop_last(), i);
    }
}

/// One kept bit per marked position.
pub proof fn lemma_kept_bits_len(k: nat, presence: Seq<bool>)
    ensures
        kept_bits(k, presence).len() == count_true(presence),
    decreases presence.len(),
{
    if presence.len() > 0 {
        lemma_kept_bits_len(k, presence.drop_last());
    }
}

/// A number below `2^n` has at most `n` binary digits (`n > 0`).
pub proof fn lemma_bit_len_at_most(k: nat, n: nat)
    requires
        k < pow2(n),
        n > 0,
    ensures
        bit_len(k) <= n,
    decreases k,
{
    if k >= 2 {
        lemma_pow2_unfold(n);
        if n == 1 {
            lemma2_to64();
        }
        lemma_pow2_pos((n - 1) as nat);
        vstd::arithmetic::div_mod::lemma_div_is_ordered(k as int, (pow2(n) - 1) as int, 2);
        lemma_bit_len_at_most(k / 2, (n - 1) as nat);
    }
}

/// Monomials of a polynomial only hold present variables, and distinct
/// monomials keep distinct indexes once the absent variables are removed.
proof fn lemma_compress_injective<const P: u64>(m: Map<usize, Fp<P>>, n: nat, k1: usize, k2: usize)
    requires
        keys_below(m, n),
        m.contains_key(k1),
        m.contains_key(k2),
        compress(k1 as nat, presence_spec(m, n)) == compress(k2 as nat, presence_spec(m, n)),
    ensures
        k1 == k2,
{
    let pr = presence_spec(m, n);
    lemma_kept_bits_len(k1 as nat, pr);
    lemma_kept_bits_len(k2 as nat, pr);
    lemma_selector_value_injective(kept_bits(k1 as nat, pr), kept_bits(k2 as nat, pr));
    assert(bits_of(k1 as nat, n) =~= bits_of(k2 as nat, n)) by {
        assert forall|i: int| 0 <= i < n implies bits_of(k1 as nat, n)[i] == bits_of(k2 as nat, n)[i] by {
            if pr[i] {
                lemma_kept_bits_agree(k1 as nat, k2 as nat, pr, i as nat);
            } else {
                if bit_of(k1 as nat, i as nat) {
                    assert(m.contains_key(k1) && bit_of(k1 as nat, i as nat));
                }
                if bit_of(k2 as nat, i as nat) {
                    assert(m.contains_key(k2) && bit_of(k2 as nat, i as nat));
                }
            }
        }
    }
    lemma_bits_value(k1 as nat, n);
    lemma_bits_value(k2 as nat, n);
}

/// The checker parity only depends on the bits below `s.len()`.
proof fn lemma_parity_bits(s: Seq<char>, k1: nat, k2: nat)
    requires
        forall|t: nat| t < s.len() ==> bit_of(k1, t) == bit_of(k2, t),
    ensures
        checker_parity(s, k1) == checker_parity(s, k2),
    decreases s.len(),
{
    if s.len() > 0 {
        lemma_parity_bits(s.drop_last(), k1, k2);
        assert(bit_of(k1, (s.len() - 1) as nat) == bit_of(k2, (s.len() - 1) as nat));
    }
}

/// Multiplying the checker of `s` by the one-variable checker of `c` (as a new
/// top variable) gives the checker of `s` followed by `c`.
pub proof fn lemma_checker_step<const P: u64>(s: Seq<char>, c: char)
    requires
        1 < P,
        s.len() >= 1,
    ensures
        product_terms(checker_terms::<P>(s), s.len(), check_terms::<P>(c)) == checker_terms::<P>(s.push(c)),
{
    let n = s.len();
    let a = checker_terms::<P>(s);
    let b = check_terms::<P>(c);
    let t = s.push(c);
    Fp::<P>::lemma_sign_mul();
    lemma_pow2_pos(n);
    lemma_pow2_unfold(n + 1);
    assert forall|k: usize| #[trigger] product_terms(a, n, b).contains_key(k) <==> checker_terms::<P>(t).contains_key(k)
    by {
        let q = k as nat / pow2(n);
        let r = k as nat % pow2(n);
        lemma_index_join(k as nat, n);
        vstd::arithmetic::mul::lemma_mul_nonnegative(q as int, pow2(n) as int);
        vstd::arithmetic::mul::lemma_mul_inequality(1, pow2(n) as int, q as int);
        vstd::arithmetic::mul::lemma_mul_is_commutative(pow2(n) as int, q as int);
        assert(r <= k);
        assert(q <= k);
        let i = r as usize;
        let j = q as usize;
        assert(i as nat == r);
        assert(j as nat == q);
        assert forall|x: nat| x < n implies bit_of(i as nat, x) == bit_of(k as nat, x) by {
            lemma_bit_of_mod(k as nat, n, x);
        }
        if (k as nat) < pow2(n + 1) {
            lemma_quotient_bit(k as nat, n);
        } else {
            lemma_quotient_large(k as nat, n);
        }
        if checker_terms::<P>(t).contains_key(k) {
            assert forall|x: int| 0 <= x < s.len() && s[x] == '1' implies bit_of(i as nat, x as nat) by {
                assert(t[x] == s[x]);
            }
            assert(checker_holds(s, i as nat));
            assert(a.contains_key(i));
            assert(t[n as int] == c);
            assert(b.contains_key(j));
        }
        if product_terms(a, n, b).contains_key(k) {
            assert(a.contains_key(i));
            assert(b.contains_key(j));
            assert((k as nat) < pow2(n + 1));
            assert forall|x: int| 0 <= x < t.len() && t[x] == '1' implies bit_of(k as nat, x as nat) by {
                if x < n {
                    assert(t[x] == s[x]);
                }
            }
        }
    }
    assert forall|k: usize| #[trigger] product_terms(a, n, b).contains_key(k) implies product_terms(a, n, b)[k]
        == checker_terms::<P>(t)[k] by {
        let i = (k as nat % pow2(n)) as usize;
        lemma_index_join(k as nat, n);
        assert forall|x: nat| x < n implies bit_of(i as nat, x) == bit_of(k as nat, x) by {
            lemma_bit_of_mod(k as nat, n, x);
        }
        lemma_quotient_bit(k as nat, n);
        lemma_parity_bits(s, i as nat, k as nat);
        assert(t.drop_last() =~= s);
    }
    assert(product_terms(a, n, b) =~= checker_terms::<P>(t));
}

/// Below `2^(n+1)`, the quotient by `2^n` is bit `n`.
proof fn lemma_quotient_bit(k: nat, n: nat)
    requires
        k < pow2(n + 1),
    ensures
        k / pow2(n) < 2,
        bit_of(k, n) <==> k / pow2(n) == 1,
{
    lemma_pow2_pos(n);
    lemma_pow2_unfold(n + 1);
    if k / pow2(n) >= 2 {
        vstd::arithmetic::div_mod::lemma_fundamental_div_mod(k as int, pow2(n) as int);
        vstd::arithmetic::mul::lemma_mul_inequality(2, (k / pow2(n)) as int, pow2(n) as int);
        vstd::arithmetic::mul::lemma_mul_is_commutative(pow2(n) as int, (k / pow2(n)) as int);
        vstd::arithmetic::div_mod::lemma_mod_bound(k as int, pow2(n) as int);
    }
}

/// From `2^(n+1)` on, the quotient by `2^n` is at least two.
proof fn lemma_quotient_large(k: nat, n: nat)
    requires
        k >= pow2(n + 1),
    ensures
        k / pow2(n) >= 2,
{
    lemma_pow2_pos(n);
    lemma_pow2_unfold(n + 1);
    vstd::arithmetic::div_mod::lemma_div_is_ordered((2 * pow2(n)) as int, k as int, pow2(n) as int);
    vstd::arithmetic::div_mod::lemma_div_multiples_vanish(2, pow2(n) as int);
}

/// The checker of a single character, as the one-variable checker scaled by
/// the constant of the empty checker.
pub proof fn lemma_checker_base<const P: u64>(c: char)
    requires
        1 < P,
    ensures
        check_terms::<P>(c).map_values(
            |v: Fp<P>| v.spec_mul(coeff_or_zero(checker_terms::<P>(Seq::empty()), 0)),
        ) == checker_terms::<P>(seq![c]),
{
    Fp::<P>::lemma_sign_mul();
    lemma2_to64();
    let s = seq![c];
    let e = Seq::<char>::empty();
    assert(checker_terms::<P>(e).contains_key(0));
    assert(coeff_or_zero(checker_terms::<P>(e), 0) == Fp::<P>::spec_one());
    assert(s.drop_last() =~= e);
    assert(bit_of(0, 0) == false) by {
        assert(pow2(0) == 1);
    }
    assert(bit_of(1, 0) == true) by {
        assert(pow2(0) == 1);
    }
    assert(s[0] == c);
    assert(pow2(1) == 2);
    assert(c == '1' ==> !checker_holds(s, 0));
    assert(c != '1' ==> checker_holds(s, 0));
    assert(checker_holds(s, 1));
    assert forall|k: usize| #[trigger] checker_terms::<P>(s).contains_key(k) <==> check_terms::<P>(c).contains_key(k) by {
        if k >= 2 {
            assert(!checker_holds(s, k as nat));
        }
    }
    assert(checker_parity(e, 0) == false);
    assert(checker_parity(e, 1) == false);
    assert(s.last() == c);
    assert(checker_parity(s, 0) == false);
    assert(checker_parity(s, 1) == (c != '1'));
    let one = Fp::<P>::spec_one();
    let m = check_terms::<P>(c).map_values(|v: Fp<P>| v.spec_mul(coeff_or_zero(checker_terms::<P>(e), 0)));
    if c == '1' {
        assert(m[1] == one.spec_mul(one));
    } else {
        assert(m[0] == one.spec_mul(one));
        assert(m[1] == one.spec_neg().spec_mul(one));
    }
    assert(check_terms::<P>(c).map_values(
        |v: Fp<P>| v.spec_mul(coeff_or_zero(checker_terms::<P>(e), 0)),
    ) =~= checker_terms::<P>(s));
}

/// With canonical coefficients, the sum computed by addition (whichever operand
/// is taken as the base) is the coefficient-wise sum.
pub proof fn lemma_sum_maps_add_terms<const P: u64>(a: Map<usize, Fp<P>>, b: Map<usize, Fp<P>>)
    requires
        0 < P,
        all_canonical(a),
        all_canonical(b),
    ensures
        sum_maps(a, b) == add_terms(a, b),
        sum_maps(b, a) == add_terms(a, b),
        all_canonical(add_terms(a, b)),
{
    assert forall|k: usize| #[trigger] add_terms(a, b).contains_key(k) implies sum_maps(a, b)[k] == add_terms(a, b)[k]
        && sum_maps(b, a)[k] == add_terms(a, b)[k] && add_terms(a, b)[k].value() < P by {
        Fp::<P>::lemma_ops_canonical(coeff_or_zero(a, k), coeff_or_zero(b, k));
        if a.contains_key(k) {
            Fp::<P>::lemma_ops_canonical(a[k], a[k]);
            lemma_small_mod_canonical(a[k]);
        }
        if b.contains_key(k) {
            lemma_small_mod_canonical(b[k]);
        }
        Fp::<P>::lemma_value_injective(coeff_or_zero(a, k).spec_add(coeff_or_zero(b, k)), coeff_or_zero(b, k).spec_add(coeff_or_zero(a, k)));
    }
    assert(sum_maps(a, b) =~= add_terms(a, b));
    assert(sum_maps(b, a) =~= add_terms(a, b));
}

/// Adding zero on either side keeps a canonical element.
proof fn lemma_small_mod_canonical<const P: u64>(x: Fp<P>)
    requires
        x.value() < P,
    ensures
        Fp::<P>::spec_zero().spec_add(x) == x,
        x.spec_add(Fp::<P>::spec_zero()) == x,
{
    Fp::<P>::lemma_add_zero_left(x);
    Fp::<P>::lemma_ops_canonical(x, Fp::<P>::spec_zero());
    Fp::<P>::lemma_value_injective(x.spec_add(Fp::<P>::spec_zero()), Fp::<P>::spec_zero().spec_add(x));
}

/// Two strictly increasing sequences with the same elements are equal.
proof fn lemma_sorted_unique(a: Seq<usize>, b: Seq<usize>)
    requires
        strictly_increasing(a),
        strictly_increasing(b),
        forall|k: usize| #![trigger a.contains(k)] #![trigger b.contains(k)] a.contains(k) <==> b.contains(k),
    ensures
        a == b,
    decreases a.len() + b.len(),
{
    if a.len() == 0 || b.len() == 0 {
        if a.len() > 0 {
            assert(a.contains(a[0]));
        }
        if b.len() > 0 {
            assert(b.contains(b[0]));
        }
        assert(a =~= b);
    } else {
        let x = a.last();
        let y = b.last();
        assert(a.contains(x));
        assert(b.contains(y));
        let i = choose|i: int| 0 <= i < b.len() && b[i] == x;
        let j = choose|j: int| 0 <= j < a.len() && a[j] == y;
        assert(x == y) by {
            if x < y {
                assert(a[j] <= a[a.len() - 1]);
            } else if y < x {
                assert(b[i] <= b[b.len() - 1]);
            }
        }
        let a2 = a.drop_last();
        let b2 = b.drop_last();
        assert forall|k: usize| #![trigger a2.contains(k)] #![trigger b2.contains(k)] a2.contains(k) <==> b2.contains(k) by {
            if a2.contains(k) {
                let t = choose|t: int| 0 <= t < a2.len() && a2[t] == k;
                assert(a.contains(k)) by {
                    assert(a[t] == k);
                }
                let u = choose|u: int| 0 <= u < b.len() && b[u] == k;
                assert(u != b.len() - 1);
                assert(b2[u] == k);
            }
            if b2.contains(k) {
                let t = choose|t: int| 0 <= t < b2.len() && b2[t] == k;
                assert(b.contains(k)) by {
                    assert(b[t] == k);
                }
                let u = choose|u: int| 0 <= u < a.len() && a[u] == k;
                assert(u != a.len() - 1);
                assert(a2[u] == k);
            }
        }
        lemma_sorted_unique(a2, b2);
        assert(a =~= a2.push(x));
        assert(b =~= b2.push(y));
    }
}

/// One substitution step keeps the keys below `2^n` and, when the keys had their
/// bits below `p` clear, leaves the bits below `p + 1` clear.
proof fn lemma_fix_step_keys<const P: u64>(prev: Map<usize, Fp<P>>, p: nat, c: Fp<P>, n: nat)
    requires
        keys_below(prev, n),
        forall|k: usize| #[trigger] prev.contains_key(k) ==> (k as nat) % pow2(p) == 0,
    ensures
        forall|k: usize| #[trigger] fix_variable(prev, p, c).contains_key(k) ==> (k as nat) < pow2(n)
            && (k as nat) % pow2(p + 1) == 0,
{
    let r = fix_variable(prev, p, c);
    let w = pow2(p);
    lemma_pow2_pos(p);
    lemma_pow2_unfold(p + 1);
    assert forall|k: usize| #[trigger] r.contains_key(k) implies (k as nat) < pow2(n) && (k as nat) % pow2(p + 1) == 0 by {
        assert(pow2(p + 1) == w * 2);
        if !prev.contains_key(k) {
            let q = (k + w) as usize;
            assert(prev.contains_key(q));
            assert((q as nat) % w == 0);
            vstd::arithmetic::div_mod::lemma_mod_add_multiples_vanish(k as int, w as int);
        } else {
            assert((k as nat) % w == 0);
        }
        assert(!bit_of(k as nat, p));
        vstd::arithmetic::div_mod::lemma_mod_breakdown(k as int, w as int, 2);
    }
}

/// A relabelling of the terms of a polynomial is the one `relabelled_terms` describes.
pub proof fn lemma_relabelling_unique<const P: u64>(m: Map<usize, Fp<P>>, r: Map<usize, Fp<P>>, n: nat)
    requires
        keys_below(m, n),
        is_relabelling(m, r, presence_spec(m, n)),
    ensures
        r == relabelled_terms(m, presence_spec(m, n)),
{
    let pr = presence_spec(m, n);
    let t = relabelled_terms(m, pr);
    assert forall|x: usize| #[trigger] r.contains_key(x) <==> t.contains_key(x) by {
        if t.contains_key(x) {
            let k = choose|k: usize| #[trigger] m.contains_key(k) && compress(k as nat, pr) == x;
            assert(r.contains_key(compress(k as nat, pr) as usize));
        }
    }
    assert forall|x: usize| #[trigger] r.contains_key(x) implies r[x] == t[x] by {
        let k = choose|k: usize| #[trigger] m.contains_key(k) && compress(k as nat, pr) == x;
        let k2 = choose|k: usize| #[trigger] m.contains_key(k) && compress(k as nat, pr) == x;
        lemma_compress_injective(m, n, k, k2);
        assert(r.contains_key(compress(k as nat, pr) as usize));
    }
    assert(r =~= t);
}

/// The polynomial without terms is neutral for addition: `0 + p` is `p`, and
/// `p + 0` is `p` unless `p` has no terms (then the sum has no variables).
pub proof fn lemma_add_zero<const P: u64>(p: MultiLinearPolynomial<P>, zero: MultiLinearPolynomial<P>)
    requires
        p.wf(),
        zero.num_vars() == 0,
        zero.terms() == Map::<usize, Fp<P>>::empty(),
    ensures
        zero.sum_terms(p) == p.terms(),
        zero.sum_vars(p) == p.num_vars(),
        keys_below(zero.sum_terms(p), zero.sum_vars(p)),
        p.sum_terms(zero) == p.terms(),
        !p.terms().dom().is_empty() ==> p.sum_vars(zero) == p.num_vars(),
        keys_below(p.sum_terms(zero), p.sum_vars(zero)),
{
    assert(sum_maps(p.terms(), zero.terms()) =~= p.terms());
    if p.terms().dom().is_empty() {
        assert(p.terms() =~= Map::<usize, Fp<P>>::empty());
    } else {
        assert(p.terms().dom().len() > 0);
    }
    assert(p.terms().dom() =~= p.terms().dom());
}

/// The constant one is neutral for multiplication: `1 * p` is `p`, and
/// `p * 1` is `p` unless `p` is the constant without terms (then the product
/// holds the coefficient zero).
pub proof fn lemma_mul_one<const P: u64>(p: MultiLinearPolynomial<P>, one: MultiLinearPolynomial<P>)
    requires
        1 < P,
        p.wf(),
        one.num_vars() == 0,
        one.terms() == map![0usize => Fp::<P>::spec_one()],
    ensures
        one.product_vars(p) == p.num_vars(),
        one.product(p) == p.terms(),
        p.product_vars(one) == p.num_vars(),
        p.num_vars() > 0 || p.terms().contains_key(0) ==> p.product(one) == p.terms(),
{
    let c1 = coeff_or_zero(one.terms(), 0);
    assert(c1 == Fp::<P>::spec_one());
    p.lemma_wf();
    assert forall|k: usize| #[trigger] p.terms().contains_key(k) implies p.terms()[k].spec_mul(c1) == p.terms()[k]
        && c1.spec_mul(p.terms()[k]) == p.terms()[k] by {
        Fp::<P>::lemma_identities(p.terms()[k]);
    }
    assert(one.product(p) =~= p.terms());
    if p.num_vars() > 0 {
        assert(p.product(one) =~= p.terms());
    } else if p.terms().contains_key(0) {
        let c0 = coeff_or_zero(p.terms(), 0);
        Fp::<P>::lemma_identities(c0);
        assert forall|k: usize| #[trigger] p.terms().contains_key(k) implies k == 0 by {
            MultiLinearPolynomial::<P>::lemma_wf_keys(p, k);
            lemma2_to64();
        }
        assert(p.product(one) =~= p.terms());
    }
}

/// At most one selected position per position.
pub proof fn lemma_count_true_le(s: Seq<bool>)
    ensures
        count_true(s) <= s.len(),
    decreases s.len(),
{
    if s.len() > 0 {
        lemma_count_true_le(s.drop_last());
    }
}

/// Placing `j` above the `n` bits of `i`: the index `i + j * 2^n` splits back
/// into `i` and `j`, and stays below `2^(n + m)`.
proof fn lemma_index_split(i: nat, j: nat, n: nat, m: nat)
    requires
        i < pow2(n),
        j < pow2(m),
    ensures
        (i + j * pow2(n)) % pow2(n) == i,
        (i + j * pow2(n)) / pow2(n) == j,
        i + j * pow2(n) < pow2(n + m),
        i + j * pow2(n) <= i + j * pow2(n),
{
    lemma_pow2_pos(n);
    lemma_pow2_adds(n, m);
    vstd::arithmetic::div_mod::lemma_fundamental_div_mod_converse(
        (i + j * pow2(n)) as int,
        pow2(n) as int,
        j as int,
        i as int,
    );
    vstd::arithmetic::mul::lemma_mul_inequality(j as int, pow2(m) as int - 1, pow2(n) as int);
    vstd::arithmetic::mul::lemma_mul_is_distributive_sub_other_way(pow2(n) as int, pow2(m) as int, 1);
    vstd::arithmetic::mul::lemma_mul_is_commutative(pow2(n) as int, pow2(m) as int);
}

/// Every index is its low part plus its high part shifted up.
proof fn lemma_index_join(k: nat, n: nat)
    ensures
        k == k % pow2(n) + (k / pow2(n)) * pow2(n),
        k % pow2(n) < pow2(n),
{
    lemma_pow2_pos(n);
    vstd::arithmetic::div_mod::lemma_fundamental_div_mod(k as int, pow2(n) as int);
    vstd::arithmetic::mul::lemma_mul_is_commutative(pow2(n) as int, (k / pow2(n)) as int);
    vstd::arithmetic::div_mod::lemma_mod_bound(k as int, pow2(n) as int);
}

/// A sequence of keys that a `BTreeMap` yields in order is strictly increasing.
proof fn lemma_increasing_keys(s: Seq<&usize>)
    requires
        increasing_seq(s),
    ensures
        forall|a: int, b: int| 0 <= a < b < s.len() ==> *s[a] < *s[b],
{
    assert(obeys_cmp::<usize>());
    assert(obeys_cmp::<&usize>());
    vstd::std_specs::btree::axiom_increasing_seq_meaning::<&usize>(s);
    assert forall|a: int, b: int| 0 <= a < b < s.len() implies *s[a] < *s[b] by {
        assert((&s[a]).cmp_spec(&s[b]) is Less);
    }
}

/// The keys of `m` in increasing order.
fn sorted_keys<const P: u64>(m: &BTreeMap<usize, Fp<P>>) -> (r: Vec<usize>)
    ensures
        r@.to_set() == m@.dom(),
        r@.no_duplicates(),
        forall|a: int, b: int| 0 <= a < b < r@.len() ==> r@[a] < r@[b],
        forall|k: usize| #[trigger] m@.contains_key(k) <==> r@.contains(k),
{
    let mut out: Vec<usize> = Vec::new();
    for k in it: m.keys()
        invariant
            out@ == it.seq().take(it.index() as int).map_values(|x: &usize| *x),
            it.seq() == spec_keys_iter(m).remaining(),
    {
        out.push(*k);
    }
    proof {
        let s = spec_keys_iter(m).remaining();
        assert(out@ =~= s.unref());
        assert(s.unref().to_set() == m@.dom());
        lemma_increasing_keys(s);
        assert forall|k: usize| #[trigger] m@.contains_key(k) <==> out@.contains(k) by {
            if m@.contains_key(k) {
                assert(out@.to_set().contains(k));
            }
            if out@.contains(k) {
                assert(out@.to_set().contains(k));
            }
        }
    }
    out
}

/// Substitute `c` for variable `p` (of weight `w`) in the coefficient map `m`,
/// visiting the monomials that hold `p` in increasing order.
fn fix_in_map<const P: u64>(
    m: BTreeMap<usize, Fp<P>>,
    idx: &Vec<usize>,
    w: usize,
    c: Fp<P>,
    Ghost(p): Ghost<nat>,
    Ghost(n): Ghost<nat>,
) -> (r: BTreeMap<usize, Fp<P>>)
    requires
        0 < P,
        w as nat == pow2(p),
        p < n,
        pow2(n) <= usize::MAX,
        keys_below(m@, n),
        all_canonical(m@),
        forall|a: int, b: int| 0 <= a < b < idx@.len() ==> idx@[a] < idx@[b],
        forall|k: usize| #[trigger] idx@.contains(k) <==> ((k as nat) < pow2(n) && bit_of(k as nat, p)),
    ensures
        r@ == fix_variable(m@, p, c),
        keys_below(r@, n),
        all_canonical(r@),
{
    let ghost m0 = m@;
    let mut out = m;
    let mut t: usize = 0;
    proof {
        lemma_pow2_pos(p);
    }
    while t < idx.len()
        invariant
            0 < P,
            t <= idx@.len(),
            w as nat == pow2(p),
            0 < w,
            pow2(n) <= usize::MAX,
            keys_below(m0, n),
            forall|a: int, b: int| 0 <= a < b < idx@.len() ==> idx@[a] < idx@[b],
            forall|k: usize| #[trigger] idx@.contains(k) <==> ((k as nat) < pow2(n) && bit_of(k as nat, p)),
            forall|k: usize| bit_of(k as nat, p) ==> (#[trigger] out@.contains_key(k) <==> (
                m0.contains_key(k) && !idx@.subrange(0, t as int).contains(k))),
            forall|k: usize| bit_of(k as nat, p) && #[trigger] out@.contains_key(k) ==> out@[k] == m0[k],
            forall|k: usize| !bit_of(k as nat, p) ==> (#[trigger] out@.contains_key(k) <==> (
                m0.contains_key(k) || (has_partner(m0, k, p) && idx@.subrange(0, t as int).contains(
                    (k + pow2(p)) as usize)))),
            forall|k: usize| !bit_of(k as nat, p) && #[trigger] out@.contains_key(k) ==> out@[k] == (
                if has_partner(m0, k, p) && idx@.subrange(0, t as int).contains((k + pow2(p)) as usize) {
                    coeff_or_zero(m0, k).spec_add(m0[(k + pow2(p)) as usize].spec_mul(c))
                } else {
                    m0[k]
                }),
        decreases idx@.len() - t,
    {
        let i = idx[t];
        let ghost before = out@;
        proof {
            assert(idx@.contains(i));
            lemma_prefix_contains(idx@, t as int);
            lemma_clear_bit(i as nat, p);
            lemma_set_bit((i - w) as nat, p);
            if idx@.subrange(0, t as int).contains(i) {
                let a = choose|a: int| 0 <= a < t && #[trigger] idx@.subrange(0, t as int)[a] == i;
                assert(idx@[a] == idx@[t as int]);
            }
        }
        match out.remove(&i) {
            Some(old) => {
                let target: usize = i - w;
                let cur = match out.get(&target) {
                    Some(v) => *v,
                    None => Fp::zero(),
                };
                let moved = old.mul(&c);
                out.insert(target, cur.add(&moved));
            },
            None => {},
        }
        proof {
            let target = (i - w) as usize;
            assert forall|k: usize| !bit_of(k as nat, p) implies (#[trigger] out@.contains_key(k) <==> (
                m0.contains_key(k) || (has_partner(m0, k, p) && idx@.subrange(0, t + 1).contains(
                    (k + pow2(p)) as usize)))) by {
                if k != target && has_partner(m0, k, p) {
                    assert((k + pow2(p)) as usize != i);
                }
            }
            assert forall|k: usize| !bit_of(k as nat, p) && #[trigger] out@.contains_key(k) implies out@[k] == (
                if has_partner(m0, k, p) && idx@.subrange(0, t + 1).contains((k + pow2(p)) as usize) {
                    coeff_or_zero(m0, k).spec_add(m0[(k + pow2(p)) as usize].spec_mul(c))
                } else {
                    m0[k]
                }) by {
                if k != target && has_partner(m0, k, p) {
                    assert((k + pow2(p)) as usize != i);
                }
            }
        }
        t = t + 1;
    }
    proof {
        assert(idx@.subrange(0, idx@.len() as int) =~= idx@);
        assert forall|k: usize| #[trigger] out@.contains_key(k) <==> fix_variable(m0, p, c).contains_key(k) by {
            if bit_of(k as nat, p) && m0.contains_key(k) {
                assert(idx@.contains(k));
            }
            if !bit_of(k as nat, p) && has_partner(m0, k, p) {
                lemma_set_bit(k as nat, p);
                assert(idx@.contains((k + pow2(p)) as usize));
            }
        }
        assert forall|k: usize| #[trigger] out@.contains_key(k) implies out@[k] == fix_variable(m0, p, c)[k] by {
            if !bit_of(k as nat, p) && has_partner(m0, k, p) {
                lemma_set_bit(k as nat, p);
                assert(idx@.contains((k + pow2(p)) as usize));
            }
        }
        assert(out@ =~= fix_variable(m0, p, c));
        assert forall|k: usize| #[trigger] out@.contains_key(k) implies (k as nat) < pow2(n) by {
            if !m0.contains_key(k) {
                assert(m0.contains_key((k + pow2(p)) as usize));
            }
        }
        assert forall|k: usize| #[trigger] out@.contains_key(k) implies out@[k].value() < P by {
            if has_partner(m0, k, p) {
                Fp::<P>::lemma_ops_canonical(coeff_or_zero(m0, k), m0[(k + pow2(p)) as usize].spec_mul(c));
            }
        }
    }
    out
}

/// Renaming instructions that remove the gaps a presence vector shows:
/// e.g. `[t, f, t]` moves variable 2 to position 1, giving `[(2, 1)]`.
pub fn mapping_instruction_from_variable_presence(variable_presence_vector: &[bool]) -> (r: Vec<
    (usize, usize),
>)
    ensures
        r@ == mapping_spec(variable_presence_vector@),
{
    let mut next_var: usize = 0;
    let mut mapping_vector: Vec<(usize, usize)> = Vec::new();
    let mut index: usize = 0;
    while index < variable_presence_vector.len()
        invariant
            index <= variable_presence_vector@.len(),
            next_var as nat == count_true(variable_presence_vector@.subrange(0, index as int)),
            next_var <= index,
            mapping_vector@ == mapping_spec(variable_presence_vector@.subrange(0, index as int)),
        decreases variable_presence_vector@.len() - index,
    {
        proof {
            let s = variable_presence_vector@.subrange(0, index + 1);
            assert(s.drop_last() =~= variable_presence_vector@.subrange(0, index as int));
        }
        if variable_presence_vector[index] {
            if next_var != index {
                mapping_vector.push((index, next_var));
            }
            next_var = next_var + 1;
        }
        index = index + 1;
    }
    proof {
        assert(variable_presence_vector@.subrange(0, variable_presence_vector@.len() as int)
            =~= variable_presence_vector@);
    }
    mapping_vector
}

/// Replaces each pair of variable positions by the pair of their weights `2^i`.
pub fn to_power_of_two(instruction: Vec<(usize, usize)>) -> (r: Vec<(usize, usize)>)
    requires
        forall|i: int|
            0 <= i < instruction@.len() ==> (#[trigger] instruction@[i]).0 < usize::BITS
                && instruction@[i].1 < usize::BITS,
    ensures
        r@.len() == instruction@.len(),
        forall|i: int|
            0 <= i < r@.len() ==> (#[trigger] r@[i]).0 as nat == pow2(instruction@[i].0 as nat)
                && r@[i].1 as nat == pow2(instruction@[i].1 as nat),
{
    let mut out: Vec<(usize, usize)> = Vec::new();
    let mut i: usize = 0;
    while i < instruction.len()
        invariant
            i <= instruction@.len(),
            out@.len() == i,
            forall|t: int|
                0 <= t < instruction@.len() ==> (#[trigger] instruction@[t]).0 < usize::BITS
                    && instruction@[t].1 < usize::BITS,
            forall|t: int|
                0 <= t < i ==> (#[trigger] out@[t]).0 as nat == pow2(instruction@[t].0 as nat)
                    && out@[t].1 as nat == pow2(instruction@[t].1 as nat),
        decreases instruction@.len() - i,
    {
        let (a, b) = instruction[i];
        proof {
            assert(instruction@[i as int].0 < usize::BITS);
            lemma_usize_pow2_no_overflow(a as nat);
            lemma_usize_pow2_no_overflow(b as nat);
            lemma_usize_shl_is_mul(1, a);
            lemma_usize_shl_is_mul(1, b);
        }
        out.push((1usize << a, 1usize << b));
        i = i + 1;
    }
    out
}

/// The bits of `bits` at the positions `presence` marks, lowest first.
fn keep_marked(bits: &Vec<bool>, presence: &Vec<bool>, Ghost(k): Ghost<nat>) -> (r: Vec<bool>)
    requires
        bits@.len() == presence@.len(),
        forall|i: int| 0 <= i < bits@.len() ==> bits@[i] == bit_of(k, i as nat),
    ensures
        r@ == kept_bits(k, presence@),
{
    let mut out: Vec<bool> = Vec::new();
    let mut i: usize = 0;
    while i < presence.len()
        invariant
            i <= presence@.len(),
            bits@.len() == presence@.len(),
            forall|j: int| 0 <= j < bits@.len() ==> bits@[j] == bit_of(k, j as nat),
            out@ == kept_bits(k, presence@.subrange(0, i as int)),
        decreases presence@.len() - i,
    {
        proof {
            let s = presence@.subrange(0, i + 1);
            assert(s.drop_last() =~= presence@.subrange(0, i as int));
        }
        if presence[i] {
            out.push(bits[i]);
        }
        i = i + 1;
    }
    proof {
        assert(presence@.subrange(0, presence@.len() as int) =~= presence@);
    }
    out
}

/// A multilinear polynomial in `n_vars` variables, held sparsely.
#[derive(Clone, Debug, PartialEq)]
pub struct MultiLinearPolynomial<const P: u64> {
    n_vars: u32,
    coefficients: BTreeMap<usize, Fp<P>>,
}

impl<const P: u64> MultiLinearPolynomial<P> {
    /// Every key is the index of a monomial in `num_vars()` variables, and every
    /// coefficient is canonical.
    pub closed spec fn wf(self) -> bool {
        keys_below(self.coefficients@, self.n_vars as nat) && all_canonical(self.coefficients@)
    }

    /// The number of variables.
    pub closed spec fn num_vars(self) -> nat {
        self.n_vars as nat
    }

    /// The coefficient map, keyed by monomial index.
    pub closed spec fn terms(self) -> Map<usize, Fp<P>> {
        self.coefficients@
    }

    /// The bytes `to_bytes` gives.
    pub open spec fn encoding(self) -> Seq<u8> {
        be_encoding(self.num_vars(), 4) + terms_bytes(self.terms(), sorted_dom(self.terms()))
    }

    /// A key of a well-formed polynomial lies below `2^num_vars()`.
    pub proof fn lemma_wf_keys(p: Self, k: usize)
        requires
            p.wf(),
        ensures
            p.terms().contains_key(k) ==> (k as nat) < pow2(p.num_vars()),
    {
    }

    /// Well-formedness in terms of the model: keys below `2^num_vars()` and
    /// canonical coefficients; the variable count fits in 32 bits.
    pub proof fn lemma_wf_iff(self)
        ensures
            self.wf() <==> (keys_below(self.terms(), self.num_vars()) && all_canonical(self.terms())),
            self.num_vars() <= u32::MAX,
    {
    }

    /// A well-formed polynomial's keys are all below `2^num_vars()`.
    pub proof fn lemma_wf(self)
        requires
            self.wf(),
        ensures
            keys_below(self.terms(), self.num_vars()),
            all_canonical(self.terms()),
    {
    }

    /// Instantiate a polynomial directly from its coefficient map; fails when
    /// a key stands for a monomial beyond `number_of_variables` variables.
    pub fn new_with_coefficient(number_of_variables: u32, coefficients: BTreeMap<usize, Fp<P>>) -> (r:
        Result<Self, &'static str>)
        requires
            number_of_variables < usize::BITS || coefficients@.dom().is_empty(),
        ensures
            r is Ok <==> keys_below(coefficients@, number_of_variables as nat),
            r matches Ok(p) ==> p.wf() && p.num_vars() == number_of_variables && p.terms()
                == coefficients@,
    {
        let keys = sorted_keys(&coefficients);
        if keys.len() == 0 {
            return Ok(MultiLinearPolynomial { n_vars: number_of_variables, coefficients });
        }
        proof {
            assert(coefficients@.contains_key(keys@[0]));
            lemma_usize_pow2_no_overflow(number_of_variables as nat);
            lemma_usize_shl_is_mul(1, number_of_variables as usize);
        }
        let count: usize = 1usize << number_of_variables;
        let mut i: usize = 0;
        while i < keys.len()
            invariant
                i <= keys@.len(),
                count as nat == pow2(number_of_variables as nat),
                forall|k: usize| #[trigger] coefficients@.contains_key(k) <==> keys@.contains(k),
                forall|j: int| 0 <= j < i ==> (#[trigger] keys@[j] as nat) < pow2(
                    number_of_variables as nat,
                ),
                forall|j: int| 0 <= j < i ==> coefficients@[#[trigger] keys@[j]].value() < P,
            decreases keys@.len() - i,
        {
            if keys[i] >= count {
                proof {
                    assert(keys@.contains(keys@[i as int]));
                    assert(coefficients@.contains_key(keys@[i as int]));
                }
                return Err("coefficient map represents more than specificed number of variables");
            }
            proof {
                assert(keys@.contains(keys@[i as int]));
            }
            let v = *coefficients.get(&keys[i]).unwrap();
            proof {
                use_type_invariant(&v);
                Fp::<P>::lemma_canonical(v);
            }
            i = i + 1;
        }
        proof {
            assert forall|k: usize| #[trigger] coefficients@.contains_key(k) implies (k as nat)
                < pow2(number_of_variables as nat) && coefficients@[k].value() < P by {
                assert(keys@.contains(k));
                let j = choose|j: int| 0 <= j < keys@.len() && keys@[j] == k;
                assert(coefficients@[keys@[j]].value() < P);
            }
        }
        Ok(MultiLinearPolynomial { n_vars: number_of_variables, coefficients })
    }

    /// The coefficient map of the polynomial.
    pub fn coefficients(&self) -> (r: BTreeMap<usize, Fp<P>>)
        ensures
            r@ == self.terms(),
    {
        self.coefficients.clone()
    }

    /// A copy of the polynomial.
    pub fn duplicate(&self) -> (r: Self)
        ensures
            r.num_vars() == self.num_vars(),
            r.terms() == self.terms(),
            self.wf() ==> r.wf(),
    {
        MultiLinearPolynomial { n_vars: self.n_vars, coefficients: self.coefficients.clone() }
    }

    /// The number of variables.
    pub fn n_vars(&self) -> (r: usize)
        ensures
            r as nat == self.num_vars(),
    {
        self.n_vars as usize
    }

    /// Whether the polynomial holds a term.
    pub fn has_terms(&self) -> (r: bool)
        ensures
            r == !self.terms().dom().is_empty(),
    {
        let keys = sorted_keys(&self.coefficients);
        proof {
            if keys@.len() == 0 {
                assert forall|k: usize| !self.coefficients@.contains_key(k) by {
                    if self.coefficients@.contains_key(k) {
                        assert(keys@.contains(k));
                    }
                }
                assert(self.coefficients@.dom() =~= Set::<usize>::empty());
            } else {
                assert(keys@.contains(keys@[0]));
                assert(self.coefficients@.dom().contains(keys@[0]));
            }
        }
        keys.len() > 0
    }

    /// The zero polynomial (no variables, no terms).
    pub fn additive_identity() -> (r: Self)
        ensures
            r.wf(),
            r.num_vars() == 0,
            r.terms() == Map::<usize, Fp<P>>::empty(),
    {
        MultiLinearPolynomial { n_vars: 0, coefficients: BTreeMap::new() }
    }

    /// The constant polynomial one (no variables).
    pub fn multiplicative_identity() -> (r: Self)
        requires
            1 < P,
        ensures
            r.wf(),
            r.num_vars() == 0,
            r.terms() == map![0usize => Fp::<P>::spec_one()],
    {
        let mut coefficients: BTreeMap<usize, Fp<P>> = BTreeMap::new();
        coefficients.insert(0, Fp::one());
        proof {
            lemma2_to64();
        }
        MultiLinearPolynomial { n_vars: 0, coefficients }
    }

    /// Multiply every coefficient by `scalar`.
    pub fn scalar_multiply(&self, scalar: &Fp<P>) -> (r: Self)
        requires
            self.wf(),
        ensures
            r.wf(),
            r.num_vars() == self.num_vars(),
            r.terms() == self.terms().map_values(|c: Fp<P>| c.spec_mul(*scalar)),
    {
        let keys = sorted_keys(&self.coefficients);
        let mut out: BTreeMap<usize, Fp<P>> = BTreeMap::new();
        let mut i: usize = 0;
        while i < keys.len()
            invariant
                i <= keys@.len(),
                keys@.no_duplicates(),
                forall|k: usize| #[trigger] self.coefficients@.contains_key(k) <==> keys@.contains(k),
                forall|k: usize| #[trigger] out@.contains_key(k) <==> keys@.subrange(0, i as int).contains(k),
                forall|k: usize| #[trigger] out@.contains_key(k) ==> out@[k] == self.coefficients@[k].spec_mul(*scalar),
            decreases keys@.len() - i,
        {
            let k = keys[i];
            proof {
                assert(keys@.contains(k));
            }
            let c = *self.coefficients.get(&k).unwrap();
            out.insert(k, c.mul(scalar));
            proof {
                lemma_prefix_contains(keys@, i as int);
            }
            i = i + 1;
        }
        proof {
            assert(keys@.subrange(0, keys@.len() as int) =~= keys@);
            assert(out@ =~= self.coefficients@.map_values(|c: Fp<P>| c.spec_mul(*scalar)));
            use_type_invariant(scalar);
            Fp::<P>::lemma_canonical(*scalar);
            assert forall|k: usize| #[trigger] out@.contains_key(k) implies out@[k].value() < P by {
                Fp::<P>::lemma_ops_canonical(self.coefficients@[k], *scalar);
            }
        }
        MultiLinearPolynomial { n_vars: self.n_vars, coefficients: out }
    }

    /// The number of variables of `self + rhs`: that of the operand with more terms
    /// (`rhs` on a tie).
    pub open spec fn sum_vars(self, rhs: Self) -> nat {
        if self.terms().len() > rhs.terms().len() {
            self.num_vars()
        } else {
            rhs.num_vars()
        }
    }

    /// The coefficients of `self + rhs`: the operand with fewer terms is added into the other.
    pub open spec fn sum_terms(self, rhs: Self) -> Map<usize, Fp<P>> {
        if self.terms().len() > rhs.terms().len() {
            sum_maps(self.terms(), rhs.terms())
        } else {
            sum_maps(rhs.terms(), self.terms())
        }
    }

    /// Polynomial addition. The result takes the variable count of the operand with
    /// more terms, and fails when the other operand's monomials do not fit in it.
    pub fn add(&self, rhs: &Self) -> (r: Result<Self, &'static str>)
        requires
            0 < P,
            self.wf(),
            rhs.wf(),
            self.sum_vars(*rhs) < usize::BITS || self.sum_terms(*rhs).dom().is_empty(),
        ensures
            r is Ok <==> keys_below(self.sum_terms(*rhs), self.sum_vars(*rhs)),
            r matches Ok(p) ==> p.wf() && p.num_vars() == self.sum_vars(*rhs) && p.terms()
                == self.sum_terms(*rhs),
    {
        let (n_vars, longer, shorter) = if self.coefficients.len() > rhs.coefficients.len() {
            (self.n_vars, &self.coefficients, &rhs.coefficients)
        } else {
            (rhs.n_vars, &rhs.coefficients, &self.coefficients)
        };
        let mut out = longer.clone();
        let keys = sorted_keys(shorter);
        let mut i: usize = 0;
        while i < keys.len()
            invariant
                i <= keys@.len(),
                0 < P,
                keys@.no_duplicates(),
                forall|k: usize| #[trigger] shorter@.contains_key(k) <==> keys@.contains(k),
                forall|k: usize| #[trigger] out@.contains_key(k) <==> (longer@.contains_key(k)
                    || keys@.subrange(0, i as int).contains(k)),
                forall|k: usize| #[trigger] out@.contains_key(k) ==> out@[k] == (
                    if keys@.subrange(0, i as int).contains(k) {
                        coeff_or_zero(longer@, k).spec_add(shorter@[k])
                    } else {
                        longer@[k]
                    }),
            decreases keys@.len() - i,
        {
            let k = keys[i];
            proof {
                assert(keys@.contains(k));
                lemma_prefix_contains(keys@, i as int);
                if keys@.subrange(0, i as int).contains(k) {
                    let t = choose|t: int| 0 <= t < i && #[trigger] keys@.subrange(0, i as int)[t] == k;
                    assert(keys@[t] == keys@[i as int]);
                }
            }
            let c = *shorter.get(&k).unwrap();
            let current = match out.get(&k) {
                Some(v) => *v,
                None => Fp::zero(),
            };
            out.insert(k, current.add(&c));
            i = i + 1;
        }
        proof {
            assert(keys@.subrange(0, keys@.len() as int) =~= keys@);
            assert(out@ =~= sum_maps(longer@, shorter@));
        }
        Self::new_with_coefficient(n_vars, out)
    }

    /// The variable count of `self * rhs`: a constant operand scales the other;
    /// otherwise the variables of `rhs` follow those of `self`.
    pub open spec fn product_vars(self, rhs: Self) -> nat {
        if self.num_vars() == 0 {
            rhs.num_vars()
        } else if rhs.num_vars() == 0 {
            self.num_vars()
        } else {
            self.num_vars() + rhs.num_vars()
        }
    }

    /// The coefficients of `self * rhs`.
    pub open spec fn product(self, rhs: Self) -> Map<usize, Fp<P>> {
        if self.num_vars() == 0 {
            rhs.terms().map_values(|c: Fp<P>| c.spec_mul(coeff_or_zero(self.terms(), 0)))
        } else if rhs.num_vars() == 0 {
            self.terms().map_values(|c: Fp<P>| c.spec_mul(coeff_or_zero(rhs.terms(), 0)))
        } else {
            product_terms(self.terms(), self.num_vars(), rhs.terms())
        }
    }

    /// Multiplication of polynomials over disjoint variables: the variables of
    /// `rhs` are numbered after those of `self`. A polynomial without variables
    /// scales the other.
    pub fn mul(&self, rhs: &Self) -> (r: Self)
        requires
            0 < P,
            self.wf(),
            rhs.wf(),
            self.num_vars() == 0 || rhs.num_vars() == 0 || self.num_vars() + rhs.num_vars()
                < usize::BITS,
        ensures
            r.wf(),
            r.num_vars() == self.product_vars(*rhs),
            r.terms() == self.product(*rhs),
    {
        if self.n_vars == 0 {
            let c = match self.coefficients.get(&0) {
                Some(v) => *v,
                None => Fp::zero(),
            };
            return rhs.scalar_multiply(&c);
        } else if rhs.n_vars == 0 {
            let c = match rhs.coefficients.get(&0) {
                Some(v) => *v,
                None => Fp::zero(),
            };
            return self.scalar_multiply(&c);
        }
        let n1: u32 = self.n_vars;
        let n2: u32 = rhs.n_vars;
        proof {
            lemma_usize_pow2_no_overflow(n1 as nat);
            lemma_usize_shl_is_mul(1, n1 as usize);
            lemma_usize_pow2_no_overflow((n1 + n2) as nat);
            lemma_pow2_adds(n1 as nat, n2 as nat);
            lemma_pow2_pos(n1 as nat);
        }
        let shift: usize = 1usize << n1;
        let ghost pt = product_terms(self.coefficients@, n1 as nat, rhs.coefficients@);
        let keys1 = sorted_keys(&self.coefficients);
        let keys2 = sorted_keys(&rhs.coefficients);
        let mut out: BTreeMap<usize, Fp<P>> = BTreeMap::new();
        let mut t1: usize = 0;
        while t1 < keys1.len()
            invariant
                0 < P,
                t1 <= keys1@.len(),
                shift as nat == pow2(n1 as nat),
                pow2(n1 as nat) * pow2(n2 as nat) == pow2((n1 + n2) as nat),
                pow2((n1 + n2) as nat) <= usize::MAX,
                n1 == self.n_vars,
                n2 == rhs.n_vars,
                keys_below(self.coefficients@, n1 as nat),
                keys_below(rhs.coefficients@, n2 as nat),
                pt == product_terms(self.coefficients@, n1 as nat, rhs.coefficients@),
                keys1@.no_duplicates(),
                keys2@.no_duplicates(),
                forall|k: usize| #[trigger] self.coefficients@.contains_key(k) <==> keys1@.contains(k),
                forall|k: usize| #[trigger] rhs.coefficients@.contains_key(k) <==> keys2@.contains(k),
                forall|k: usize| #[trigger] out@.contains_key(k) <==> (pt.contains_key(k)
                    && keys1@.subrange(0, t1 as int).contains((k as nat % pow2(n1 as nat)) as usize)),
                forall|k: usize| #[trigger] out@.contains_key(k) ==> out@[k] == pt[k],
            decreases keys1@.len() - t1,
        {
            let i = keys1[t1];
            proof {
                assert(keys1@.contains(i));
                lemma_prefix_contains(keys1@, t1 as int);
            }
            let a = *self.coefficients.get(&i).unwrap();
            let mut t2: usize = 0;
            while t2 < keys2.len()
                invariant
                    0 < P,
                    t1 < keys1@.len(),
                    t2 <= keys2@.len(),
                    i == keys1@[t1 as int],
                    self.coefficients@.contains_key(i),
                    a == self.coefficients@[i],
                    shift as nat == pow2(n1 as nat),
                    pow2(n1 as nat) * pow2(n2 as nat) == pow2((n1 + n2) as nat),
                    pow2((n1 + n2) as nat) <= usize::MAX,
                    keys_below(self.coefficients@, n1 as nat),
                    keys_below(rhs.coefficients@, n2 as nat),
                    pt == product_terms(self.coefficients@, n1 as nat, rhs.coefficients@),
                    keys1@.no_duplicates(),
                    keys2@.no_duplicates(),
                    forall|k: usize| #[trigger] rhs.coefficients@.contains_key(k) <==> keys2@.contains(k),
                    forall|k: usize| #[trigger] out@.contains_key(k) <==> (pt.contains_key(k) && (
                        keys1@.subrange(0, t1 as int).contains((k as nat % pow2(n1 as nat)) as usize)
                        || ((k as nat % pow2(n1 as nat)) as usize == i
                            && keys2@.subrange(0, t2 as int).contains((k as nat / pow2(n1 as nat)) as usize)))),
                    forall|k: usize| #[trigger] out@.contains_key(k) ==> out@[k] == pt[k],
                    !keys1@.subrange(0, t1 as int).contains(i),
                decreases keys2@.len() - t2,
            {
                let j = keys2[t2];
                proof {
                    assert(keys2@.contains(j));
                    lemma_prefix_contains(keys2@, t2 as int);
                }
                let b = *rhs.coefficients.get(&j).unwrap();
                if !a.is_zero() && !b.is_zero() {
                    proof {
                        lemma_index_split(i as nat, j as nat, n1 as nat, n2 as nat);
                    }
                    let k: usize = i + j * shift;
                    let prod = a.mul(&b);
                    let current = match out.get(&k) {
                        Some(v) => *v,
                        None => Fp::zero(),
                    };
                    proof {
                        Fp::<P>::lemma_ops_canonical(a, b);
                        if keys2@.subrange(0, t2 as int).contains(j) {
                            let t = choose|t: int| 0 <= t < t2 && #[trigger] keys2@.subrange(0, t2 as int)[t] == j;
                            assert(keys2@[t] == keys2@[t2 as int]);
                        }
                        assert(!out@.contains_key(k));
                        Fp::<P>::lemma_add_zero_left(prod);
                    }
                    out.insert(k, current.add(&prod));
                }
                proof {
                    assert forall|x: usize| #[trigger] out@.contains_key(x) <==> (pt.contains_key(x) && (
                        keys1@.subrange(0, t1 as int).contains((x as nat % pow2(n1 as nat)) as usize)
                        || ((x as nat % pow2(n1 as nat)) as usize == i
                            && keys2@.subrange(0, t2 + 1).contains((x as nat / pow2(n1 as nat)) as usize)))) by {
                        if pt.contains_key(x) && (x as nat % pow2(n1 as nat)) as usize == i
                            && (x as nat / pow2(n1 as nat)) as usize == j {
                            lemma_index_split(i as nat, j as nat, n1 as nat, n2 as nat);
                            lemma_index_join(x as nat, n1 as nat);
                        }
                    }
                }
                t2 = t2 + 1;
            }
            proof {
                assert(keys2@.subrange(0, keys2@.len() as int) =~= keys2@);
                assert forall|x: usize| #[trigger] out@.contains_key(x) <==> (pt.contains_key(x)
                    && keys1@.subrange(0, t1 + 1).contains((x as nat % pow2(n1 as nat)) as usize)) by {
                    if pt.contains_key(x) {
                        assert(keys2@.contains((x as nat / pow2(n1 as nat)) as usize));
                    }
                }
            }
            t1 = t1 + 1;
        }
        proof {
            assert(keys1@.subrange(0, keys1@.len() as int) =~= keys1@);
            assert forall|x: usize| #[trigger] pt.contains_key(x) implies out@.contains_key(x) by {
                assert(keys1@.contains((x as nat % pow2(n1 as nat)) as usize));
            }
            assert(out@ =~= pt);
            assert forall|k: usize| #[trigger] out@.contains_key(k) implies out@[k].value() < P by {
                Fp::<P>::lemma_ops_canonical(
                    self.coefficients@[(k as nat % pow2(n1 as nat)) as usize],
                    rhs.coefficients@[(k as nat / pow2(n1 as nat)) as usize],
                );
            }
            assert forall|k: usize| #[trigger] out@.contains_key(k) implies (k as nat) < pow2(
                (n1 + n2) as nat) by {
                lemma_index_join(k as nat, n1 as nat);
                lemma_index_split((k as nat % pow2(n1 as nat)), (k as nat / pow2(n1 as nat)), n1 as nat, n2 as nat);
            }
        }
        MultiLinearPolynomial { n_vars: n1 + n2, coefficients: out }
    }

    /// All monomial indexes (in `number_of_variables` variables) that hold the
    /// variable `selector` selects, in increasing order. Fails unless the selector
    /// has one position per variable and selects exactly one of them.
    pub fn get_variable_indexes(number_of_variables: u32, selector: &[bool]) -> (r: Result<
        Vec<usize>,
        &'static str,
    >)
        requires
            number_of_variables < usize::BITS || !valid_selector(selector@, number_of_variables as nat),
        ensures
            r is Ok <==> valid_selector(selector@, number_of_variables as nat),
            r matches Ok(v) ==> {
                &&& forall|a: int, b: int| 0 <= a < b < v@.len() ==> v@[a] < v@[b]
                &&& forall|k: usize| #[trigger] v@.contains(k) <==> ((k as nat) < pow2(
                    number_of_variables as nat,
                ) && bit_of(k as nat, single_position(selector@)))
            },
    {
        if selector.len() != number_of_variables as usize {
            return Err("the selector array len should be the same as the number of variables");
        }
        let mut selector_sum: usize = 0;
        let mut t: usize = 0;
        while t < selector.len()
            invariant
                t <= selector@.len(),
                selector_sum as nat == count_true(selector@.subrange(0, t as int)),
                selector_sum <= t,
            decreases selector@.len() - t,
        {
            proof {
                assert(selector@.subrange(0, t + 1).drop_last() =~= selector@.subrange(0, t as int));
            }
            if selector[t] {
                selector_sum = selector_sum + 1;
            }
            t = t + 1;
        }
        proof {
            assert(selector@.subrange(0, selector@.len() as int) =~= selector@);
        }
        if selector_sum != 1 {
            return Err("only select single variable, cannot get indexes for constant or multiple variables");
        }
        let ghost pos = single_position(selector@);
        proof {
            lemma_single_selector(selector@);
            lemma_usize_pow2_no_overflow(number_of_variables as nat);
            lemma_usize_shl_is_mul(1, number_of_variables as usize);
            lemma_pow2_pos(pos);
            lemma_pow2_strictly_increases(pos, number_of_variables as nat);
        }
        let variable_id = selector_to_index(selector);
        let max_array_index: usize = (1usize << number_of_variables) - 1;
        let mut indexes: Vec<usize> = Vec::new();
        let mut count: usize = 0;
        let mut skip = false;
        let ghost mut blocks: nat = 0;
        let mut i: usize = variable_id;
        while i <= max_array_index
            invariant
                variable_id as nat == pow2(pos),
                0 < variable_id,
                variable_id <= max_array_index,
                max_array_index as nat == pow2(number_of_variables as nat) - 1,
                max_array_index < usize::MAX,
                variable_id <= i <= max_array_index + 1,
                count as int == (i - variable_id) - blocks * variable_id,
                count <= variable_id,
                count == 0 ==> i == variable_id && blocks == 0,
                skip == (blocks % 2 == 1),
                forall|a: int, b: int| 0 <= a < b < indexes@.len() ==> indexes@[a] < indexes@[b],
                forall|a: int| 0 <= a < indexes@.len() ==> indexes@[a] < i,
                forall|k: usize| #[trigger] indexes@.contains(k) ==> bit_of(k as nat, pos),
                forall|k: usize|
                    variable_id <= k < i && bit_of(k as nat, pos) ==> #[trigger] indexes@.contains(k),
            decreases max_array_index + 1 - i,
        {
            let ghost before = indexes@;
            if count == variable_id {
                skip = !skip;
                count = 0;
                proof {
                    vstd::arithmetic::mul::lemma_mul_is_distributive_add_other_way(variable_id as int, blocks as int, 1);
                    blocks = blocks + 1;
                }
            }
            proof {
                let d = (i - variable_id) as int;
                vstd::arithmetic::div_mod::lemma_fundamental_div_mod_converse(d, variable_id as int, blocks as int, count as int);
                vstd::arithmetic::div_mod::lemma_div_plus_one(d, variable_id as int);
            }
            if !skip {
                indexes.push(i);
                proof {
                    assert(indexes@[indexes@.len() - 1] == i);
                }
            }
            proof {
                assert forall|k: usize| #[trigger] indexes@.contains(k) implies bit_of(k as nat, pos) by {
                    let t = choose|t: int| 0 <= t < indexes@.len() && indexes@[t] == k;
                    if t < indexes@.len() - 1 || skip {
                        assert(before.contains(k)) by {
                            assert(before[t] == k);
                        }
                    }
                }
                assert forall|k: usize|
                    variable_id <= k < i + 1 && bit_of(k as nat, pos) implies #[trigger] indexes@.contains(k) by {
                    if k < i {
                        assert(before.contains(k));
                        let t = choose|t: int| 0 <= t < before.len() && before[t] == k;
                        assert(indexes@[t] == k);
                    } else {
                        assert(indexes@[indexes@.len() - 1] == k);
                    }
                }
            }
            count = count + 1;
            i = i + 1;
        }
        proof {
            assert forall|k: usize| #[trigger] indexes@.contains(k) <==> ((k as nat) < pow2(
                number_of_variables as nat) && bit_of(k as nat, pos)) by {
                if indexes@.contains(k) {
                    let t = choose|t: int| 0 <= t < indexes@.len() && indexes@[t] == k;
                }
                if (k as nat) < variable_id {
                    vstd::arithmetic::div_mod::lemma_basic_div(k as int, variable_id as int);
                }
            }
        }
        Ok(indexes)
    }

    /// Substitute values for some variables: each assignment pairs a selector of
    /// one variable with its value, applied in order. The variable count stays.
    /// Fails unless every selector selects exactly one of the variables.
    pub fn partial_evaluate(&self, assignments: &[(Vec<bool>, Fp<P>)]) -> (r: Result<Self, &'static str>)
        requires
            0 < P,
            self.wf(),
            self.num_vars() < usize::BITS || assignments@.len() == 0 || !valid_selector(
                assignments@[0].0@,
                self.num_vars(),
            ),
        ensures
            r is Ok <==> forall|i: int|
                0 <= i < assignments@.len() ==> valid_selector(
                    #[trigger] assignments@[i].0@,
                    self.num_vars(),
                ),
            r matches Ok(p) ==> p.wf() && p.num_vars() == self.num_vars() && p.terms()
                == apply_assignments(self.terms(), assignments@),
    {
        let mut out = self.coefficients.clone();
        let mut t: usize = 0;
        while t < assignments.len()
            invariant
                0 < P,
                t <= assignments@.len(),
                self.wf(),
                self.num_vars() < usize::BITS || assignments@.len() == 0 || !valid_selector(
                    assignments@[0].0@,
                    self.num_vars(),
                ),
                forall|i: int|
                    0 <= i < t ==> valid_selector(#[trigger] assignments@[i].0@, self.num_vars()),
                out@ == apply_assignments(self.coefficients@, assignments@.subrange(0, t as int)),
                keys_below(out@, self.n_vars as nat),
                all_canonical(out@),
            decreases assignments@.len() - t,
        {
            let selector = &assignments[t].0;
            let c = assignments[t].1;
            proof {
                if t > 0 {
                    assert(valid_selector(assignments@[0].0@, self.num_vars()));
                }
            }
            let idx = match Self::get_variable_indexes(self.n_vars, selector.as_slice()) {
                Ok(v) => v,
                Err(e) => {
                    return Err(e);
                },
            };
            proof {
                lemma_single_selector(selector@);
                lemma_selector_value_lt(selector@);
                lemma_usize_pow2_no_overflow(self.n_vars as nat);
                lemma_pow2_strictly_increases(single_position(selector@), self.n_vars as nat);
            }
            let w = selector_to_index(selector.as_slice());
            out = fix_in_map(out, &idx, w, c, Ghost(single_position(selector@)), Ghost(self.n_vars as nat));
            proof {
                let s2 = assignments@.subrange(0, t + 1);
                assert(s2.drop_last() =~= assignments@.subrange(0, t as int));
            }
            t = t + 1;
        }
        proof {
            assert(assignments@.subrange(0, assignments@.len() as int) =~= assignments@);
        }
        Ok(MultiLinearPolynomial { n_vars: self.n_vars, coefficients: out })
    }

    /// The value of the polynomial at `assignments` (a value per variable, in
    /// variable order): the constant left after substituting every variable.
    /// Values past the last variable are not used. A polynomial without
    /// variables evaluates to its constant whatever is passed.
    pub fn evaluate(&self, assignments: &[Fp<P>]) -> (r: Result<Fp<P>, &'static str>)
        requires
            0 < P,
            self.wf(),
            self.num_vars() == 0 || assignments@.len() < self.num_vars() || (self.num_vars()
                < usize::BITS && !self.terms().dom().is_empty()),
        ensures
            self.num_vars() == 0 ==> r == Ok::<Fp<P>, &'static str>(coeff_or_zero(self.terms(), 0)),
            self.num_vars() != 0 && assignments@.len() < self.num_vars() ==> r is Err,
            self.num_vars() != 0 && assignments@.len() == self.num_vars() ==> r == Ok::<
                Fp<P>,
                &'static str,
            >(fix_all(self.terms(), assignments@)[0]),
            self.num_vars() != 0 && assignments@.len() > self.num_vars() ==> r == Ok::<
                Fp<P>,
                &'static str,
            >(fix_all(self.terms(), assignments@.subrange(0, self.num_vars() as int))[0]),
    {
        if self.n_vars == 0 {
            return Ok(
                match self.coefficients.get(&0) {
                    Some(v) => *v,
                    None => Fp::zero(),
                },
            );
        }
        if assignments.len() < self.n_vars as usize {
            return Err("evaluate requires an assignment for every variable");
        }
        if assignments.len() > self.n_vars as usize {
            let head = crate::gate_eval_extension::segment(assignments, 0, self.n_vars as usize);
            return self.evaluate_all(head.as_slice());
        }
        self.evaluate_all(assignments)
    }

    /// The value at exactly one value per variable.
    fn evaluate_all(&self, assignments: &[Fp<P>]) -> (r: Result<Fp<P>, &'static str>)
        requires
            0 < P,
            self.wf(),
            0 < self.num_vars() < usize::BITS,
            !self.terms().dom().is_empty(),
            assignments@.len() == self.num_vars(),
        ensures
            r == Ok::<Fp<P>, &'static str>(fix_all(self.terms(), assignments@)[0]),
    {
        let n: usize = self.n_vars as usize;
        let mut indexed: Vec<(Vec<bool>, Fp<P>)> = Vec::new();
        let mut position: usize = 0;
        while position < n
            invariant
                n == self.n_vars,
                n == assignments@.len(),
                position <= n,
                indexed@.len() == position,
                forall|i: int|
                    0 <= i < position ==> (#[trigger] indexed@[i]).0@ == single_selector(
                        n as nat,
                        i as nat,
                    ) && indexed@[i].1 == assignments@[i],
            decreases n - position,
        {
            let selector = match selector_from_position(n, position) {
                Ok(v) => v,
                Err(_) => {
                    return Err("position index out of bounds");
                },
            };
            indexed.push((selector, assignments[position]));
            position = position + 1;
        }
        proof {
            lemma_single_selector_position(n as nat, 0);
            lemma_apply_positions(self.coefficients@, indexed@, assignments@, n as nat);
            lemma_fix_all_keys(self.coefficients@, assignments@, n as nat);
            assert forall|i: int| 0 <= i < indexed@.len() implies valid_selector(
                #[trigger] indexed@[i].0@,
                n as nat,
            ) by {
                lemma_single_selector_position(n as nat, i as nat);
            }
        }
        let evaluated = match self.partial_evaluate(indexed.as_slice()) {
            Ok(p) => p,
            Err(e) => {
                return Err(e);
            },
        };
        proof {
            let f = fix_all(self.coefficients@, assignments@);
            let k = f.dom().choose();
            assert(f.contains_key(k));
            lemma_small_mod_zero(k as nat, n as nat);
            assert(k == 0);
        }
        Ok(*evaluated.coefficients.get(&0).unwrap())
    }

    /// Which variables some monomial holds: position `i` is set when variable `i`
    /// appears in a term.
    pub fn variable_presence_vector(&self) -> (r: Vec<bool>)
        requires
            self.wf(),
            self.num_vars() > 0 || self.terms().dom().is_empty(),
        ensures
            r@ == presence_spec(self.terms(), self.num_vars()),
    {
        let n: usize = self.n_vars as usize;
        let keys = sorted_keys(&self.coefficients);
        let mut acc: Vec<bool> = Vec::new();
        let mut i: usize = 0;
        while i < n
            invariant
                i <= n,
                acc@.len() == i,
                forall|j: int| 0 <= j < i ==> !acc@[j],
            decreases n - i,
        {
            acc.push(false);
            i = i + 1;
        }
        let mut t: usize = 0;
        while t < keys.len()
            invariant
                n == self.n_vars,
                self.num_vars() > 0 || self.terms().dom().is_empty(),
                t <= keys@.len(),
                acc@.len() == n,
                keys_below(self.coefficients@, n as nat),
                forall|k: usize| #[trigger] self.coefficients@.contains_key(k) <==> keys@.contains(k),
                forall|j: int| 0 <= j < n ==> (#[trigger] acc@[j] <==> exists|u: int| 0 <= u < t && bit_of(#[trigger] keys@[u] as nat, j as nat)),
            decreases keys@.len() - t,
        {
            let k = keys[t];
            proof {
                assert(keys@.contains(k));
                assert(self.coefficients@.contains_key(k));
                lemma_bit_len_at_most(k as nat, n as nat);
            }
            let sel = selector_from_usize(k, n);
            let ghost before = acc@;
            let mut j: usize = 0;
            while j < n
                invariant
                    j <= n,
                    acc@.len() == n,
                    before.len() == n,
                    sel@.len() == n,
                    forall|x: int| 0 <= x < n ==> sel@[x] == bit_of(k as nat, x as nat),
                    forall|x: int| 0 <= x < j ==> #[trigger] acc@[x] == (before[x] || sel@[x]),
                    forall|x: int| j <= x < n ==> #[trigger] acc@[x] == before[x],
                decreases n - j,
            {
                let a = acc[j];
                let b = sel[j];
                let v = a || b;
                let ghost prev = acc@;
                acc.set(j, v);
                proof {
                    assert(a == before[j as int]);
                    assert(b == sel@[j as int]);
                    assert(v == (a || b));
                    assert(acc@ == prev.update(j as int, v));
                    assert forall|x: int| 0 <= x < j + 1 implies #[trigger] acc@[x] == (before[x] || sel@[x]) by {
                        if x < j {
                            assert(acc@[x] == prev[x]);
                        }
                    }
                }
                j = j + 1;
            }
            proof {
                assert forall|x: int| 0 <= x < n implies (#[trigger] acc@[x] <==> exists|u: int| 0 <= u < t + 1 && bit_of(#[trigger] keys@[u] as nat, x as nat)) by {
                    assert(acc@[x] == (before[x] || sel@[x]));
                    if bit_of(k as nat, x as nat) {
                        assert(bit_of(keys@[t as int] as nat, x as nat));
                    }
                    if exists|u: int| 0 <= u < t + 1 && bit_of(#[trigger] keys@[u] as nat, x as nat) {
                        let u = choose|u: int| 0 <= u < t + 1 && bit_of(#[trigger] keys@[u] as nat, x as nat);
                        if u < t {
                            assert(before[x]);
                        }
                    }
                }
            }
            t = t + 1;
        }
        proof {
            assert forall|x: int| 0 <= x < n implies acc@[x] == presence_spec(self.coefficients@, n as nat)[x] by {
                if acc@[x] {
                    let u = choose|u: int| 0 <= u < keys@.len() && bit_of(#[trigger] keys@[u] as nat, x as nat);
                    assert(keys@.contains(keys@[u]));
                    assert(self.coefficients@.contains_key(keys@[u]) && bit_of(keys@[u] as nat, x as nat));
                }
                if presence_spec(self.coefficients@, n as nat)[x] {
                    let k = choose|k: usize| #[trigger] self.coefficients@.contains_key(k) && bit_of(k as nat, x as nat);
                    assert(keys@.contains(k));
                    let u = choose|u: int| 0 <= u < keys@.len() && keys@[u] == k;
                    assert(bit_of(keys@[u] as nat, x as nat));
                }
            }
            assert(acc@ =~= presence_spec(self.coefficients@, n as nat));
        }
        acc
    }

    /// Remove the variables no term holds and renumber the others in order,
    /// e.g. `2a + 9c` over `[a, b, c]` becomes `2a + 9b` over `[a, b]`.
    pub fn relabel(self) -> (r: Self)
        requires
            0 < P,
            self.wf(),
            self.num_vars() < usize::BITS || mapping_spec(
                presence_spec(self.terms(), self.num_vars()),
            ).len() == 0,
        ensures
            self.num_vars() == 0 ==> r == self,
            self.num_vars() > 0 ==> r.num_vars() == count_true(
                presence_spec(self.terms(), self.num_vars()),
            ),
            0 < self.num_vars() < usize::BITS ==> r.wf() && is_relabelling(
                self.terms(),
                r.terms(),
                presence_spec(self.terms(), self.num_vars()),
            ) && r.terms() == relabelled_terms(
                self.terms(),
                presence_spec(self.terms(), self.num_vars()),
            ),
            self.num_vars() >= usize::BITS ==> r.terms() == self.terms(),
    {
        if self.n_vars == 0 {
            return self;
        }
        let presence = self.variable_presence_vector();
        let ghost pr = presence@;
        let mut count: u32 = 0;
        let mut i: usize = 0;
        while i < presence.len()
            invariant
                i <= presence@.len(),
                presence@.len() == self.n_vars,
                count as nat == count_true(presence@.subrange(0, i as int)),
                count <= i,
            decreases presence@.len() - i,
        {
            proof {
                let s = presence@.subrange(0, i + 1);
                assert(s.drop_last() =~= presence@.subrange(0, i as int));
            }
            if presence[i] {
                count = count + 1;
            }
            i = i + 1;
        }
        proof {
            assert(presence@.subrange(0, presence@.len() as int) =~= presence@);
        }
        if self.n_vars as u64 >= usize::BITS as u64 {
            return MultiLinearPolynomial { n_vars: count, coefficients: self.coefficients };
        }
        let n: usize = self.n_vars as usize;
        let keys = sorted_keys(&self.coefficients);
        let mut out: BTreeMap<usize, Fp<P>> = BTreeMap::new();
        let mut t: usize = 0;
        while t < keys.len()
            invariant
                n == self.n_vars,
                0 < n < usize::BITS,
                t <= keys@.len(),
                presence@ == pr,
                pr == presence_spec(self.coefficients@, n as nat),
                count as nat == count_true(pr),
                count as nat <= n,
                keys_below(self.coefficients@, n as nat),
                keys@.no_duplicates(),
                forall|k: usize| #[trigger] self.coefficients@.contains_key(k) <==> keys@.contains(k),
                forall|u: int| 0 <= u < t ==> #[trigger] out@.contains_key(compress(keys@[u] as nat, pr) as usize)
                    && out@[compress(keys@[u] as nat, pr) as usize] == self.coefficients@[keys@[u]],
                forall|x: usize| #[trigger] out@.contains_key(x) ==> exists|u: int| 0 <= u < t
                    && compress(#[trigger] keys@[u] as nat, pr) == x,
                keys_below(out@, count as nat),
            decreases keys@.len() - t,
        {
            let k = keys[t];
            proof {
                assert(keys@.contains(k));
                assert(self.coefficients@.contains_key(k));
                lemma_bit_len_at_most(k as nat, n as nat);
            }
            let c = *self.coefficients.get(&k).unwrap();
            let bits = selector_from_usize(k, n);
            let kept = keep_marked(&bits, &presence, Ghost(k as nat));
            proof {
                lemma_kept_bits_len(k as nat, pr);
                lemma_selector_value_lt(kept@);
                if (count as nat) < (n as nat) {
                    lemma_pow2_strictly_increases(count as nat, n as nat);
                }
                lemma_usize_pow2_no_overflow(n as nat);
            }
            let nk = selector_to_index(kept.as_slice());
            proof {
                use_type_invariant(&c);
                Fp::<P>::lemma_canonical(c);
                Fp::<P>::lemma_add_zero_left(c);
                if out@.contains_key(nk) {
                    let u = choose|u: int| 0 <= u < t && compress(#[trigger] keys@[u] as nat, pr) == nk;
                    assert(keys@.contains(keys@[u]));
                    lemma_compress_injective(self.coefficients@, n as nat, keys@[u], k);
                    assert(keys@[u] == keys@[t as int]);
                }
            }
            let current = match out.get(&nk) {
                Some(v) => *v,
                None => Fp::zero(),
            };
            let ghost before = out@;
            out.insert(nk, current.add(&c));
            proof {
                assert(!before.contains_key(nk));
                assert(current == Fp::<P>::spec_zero());
                assert(out@[nk] == c);
                assert(c == self.coefficients@[keys@[t as int]]);
                assert(compress(keys@[t as int] as nat, pr) as usize == nk);
                assert forall|u: int| 0 <= u < t + 1 implies #[trigger] out@.contains_key(compress(keys@[u] as nat, pr) as usize)
                    && out@[compress(keys@[u] as nat, pr) as usize] == self.coefficients@[keys@[u]] by {
                    if u < t {
                        assert(keys@.contains(keys@[u]));
                        if compress(keys@[u] as nat, pr) == nk {
                            lemma_compress_injective(self.coefficients@, n as nat, keys@[u], k);
                        }
                    }
                }
                assert forall|x: usize| #[trigger] out@.contains_key(x) implies exists|u: int| 0 <= u < t + 1
                    && compress(#[trigger] keys@[u] as nat, pr) == x by {
                    if x == nk {
                        assert(compress(keys@[t as int] as nat, pr) == x);
                    }
                }
            }
            t = t + 1;
        }
        proof {
            assert forall|k: usize| #[trigger] self.coefficients@.contains_key(k) implies out@.contains_key(
                compress(k as nat, pr) as usize) && out@[compress(k as nat, pr) as usize] == self.coefficients@[k] by {
                assert(keys@.contains(k));
                let u = choose|u: int| 0 <= u < keys@.len() && keys@[u] == k;
            }
            assert forall|x: usize| #[trigger] out@.contains_key(x) implies exists|k: usize|
                #[trigger] self.coefficients@.contains_key(k) && compress(k as nat, pr) == x by {
                let u = choose|u: int| 0 <= u < keys@.len() && compress(#[trigger] keys@[u] as nat, pr) == x;
                assert(keys@.contains(keys@[u]));
                assert(self.coefficients@.contains_key(keys@[u]));
            }
            lemma_relabelling_unique(self.coefficients@, out@, n as nat);
        }
        MultiLinearPolynomial { n_vars: count, coefficients: out }
    }

    /// The one-variable polynomial `1 - a`: one at `a = 0`, zero at `a = 1`.
    pub fn check_zero() -> (r: Self)
        requires
            1 < P,
        ensures
            r.wf(),
            r.num_vars() == 1,
            r.terms() == check_terms::<P>('0'),
    {
        let one = Fp::one();
        let mut coefficients: BTreeMap<usize, Fp<P>> = BTreeMap::new();
        coefficients.insert(0, one);
        coefficients.insert(1, one.neg());
        proof {
            lemma2_to64();
            assert(coefficients@ =~= check_terms::<P>('0'));
        }
        MultiLinearPolynomial { n_vars: 1, coefficients }
    }

    /// The one-variable polynomial `a`: zero at `a = 0`, one at `a = 1`.
    pub fn check_one() -> (r: Self)
        requires
            1 < P,
        ensures
            r.wf(),
            r.num_vars() == 1,
            r.terms() == check_terms::<P>('1'),
    {
        let mut coefficients: BTreeMap<usize, Fp<P>> = BTreeMap::new();
        coefficients.insert(1, Fp::one());
        proof {
            lemma2_to64();
            assert(coefficients@ =~= check_terms::<P>('1'));
        }
        MultiLinearPolynomial { n_vars: 1, coefficients }
    }

    /// The polynomial in `bit_string.len()` variables that is one on the given
    /// bit string and zero on every other one: the product over positions of
    /// `x_i` (for `'1'`) or `1 - x_i` (otherwise).
    pub fn bit_string_checker(bit_string: String) -> (r: Self)
        requires
            1 < P,
            bit_string@.len() < usize::BITS,
        ensures
            r.wf(),
            r.num_vars() == bit_string@.len(),
            r.terms() == checker_terms::<P>(bit_string@),
    {
        let len = bit_string.as_str().unicode_len();
        let mut acc = Self::multiplicative_identity();
        proof {
            lemma2_to64();
            assert(acc.terms() =~= checker_terms::<P>(bit_string@.subrange(0, 0)));
        }
        let mut i: usize = 0;
        while i < len
            invariant
                1 < P,
                len == bit_string@.len(),
                len < usize::BITS,
                i <= len,
                acc.wf(),
                acc.num_vars() == i,
                acc.terms() == checker_terms::<P>(bit_string@.subrange(0, i as int)),
            decreases len - i,
        {
            let c = bit_string.as_str().get_char(i);
            let check = if c == '1' {
                Self::check_one()
            } else {
                Self::check_zero()
            };
            proof {
                assert(check.terms() == check_terms::<P>(c));
                let pre = bit_string@.subrange(0, i as int);
                assert(bit_string@.subrange(0, i + 1) =~= pre.push(c));
                if i == 0 {
                    lemma_checker_base::<P>(c);
                    assert(pre.push(c) =~= seq![c]);
                } else {
                    lemma_checker_step::<P>(pre, c);
                }
            }
            acc = acc.mul(&check);
            i = i + 1;
        }
        proof {
            assert(bit_string@.subrange(0, len as int) =~= bit_string@);
        }
        acc
    }

    /// The polynomial in `num_of_vars` variables that is one on the binary
    /// digits of `index` (most significant first) and zero elsewhere.
    pub fn lagrange_basis_poly(index: usize, num_of_vars: usize) -> (r: Self)
        requires
            1 < P,
            padded_binary(index as nat, num_of_vars as nat).len() < usize::BITS,
        ensures
            r.wf(),
            r.num_vars() == padded_binary(index as nat, num_of_vars as nat).len(),
            r.terms() == checker_terms::<P>(padded_binary(index as nat, num_of_vars as nat)),
    {
        let binary_value = binary_string(index, num_of_vars);
        Self::bit_string_checker(binary_value)
    }

    /// The multilinear polynomial that takes `values[i]` at the binary digits of
    /// `i` (most significant first) over the fewest variables that index them all.
    pub fn interpolate(values: &[Fp<P>]) -> (r: Self)
        requires
            1 < P,
            values@.len() == 0 || bit_len((values@.len() - 1) as nat) < usize::BITS,
        ensures
            r.wf(),
            values@.len() == 0 ==> r.num_vars() == 0 && r.terms() == Map::<usize, Fp<P>>::empty(),
            values@.len() > 0 ==> r.num_vars() == bit_len((values@.len() - 1) as nat)
                && r.terms() == interpolation_terms(values@, bit_len((values@.len() - 1) as nat)),
    {
        if values.len() == 0 {
            return Self::additive_identity();
        }
        let num_of_variables = bit_count_for_n_elem(values.len());
        let ghost n = num_of_variables as nat;
        proof {
            lemma_bit_len_bound((values@.len() - 1) as nat);
        }
        let mut result = Self::additive_identity();
        let mut i: usize = 0;
        while i < values.len()
            invariant
                1 < P,
                n == num_of_variables,
                n == bit_len((values@.len() - 1) as nat),
                0 < n < usize::BITS,
                values@.len() - 1 < pow2(n),
                i <= values@.len(),
                result.wf(),
                i == 0 ==> result.num_vars() == 0,
                i > 0 ==> result.num_vars() == n,
                result.terms() == interpolation_terms(values@.subrange(0, i as int), n),
                all_canonical(result.terms()),
            decreases values@.len() - i,
        {
            proof {
                lemma_bit_len_at_most(i as nat, n);
                lemma_bit_len_bound(i as nat);
            }
            let basis = Self::lagrange_basis_poly(i, num_of_variables);
            let poly = basis.scalar_multiply(&values[i]);
            proof {
                let pb = padded_binary(i as nat, n);
                assert(pb.len() == n);
                let scaled = checker_terms::<P>(pb).map_values(|c: Fp<P>| c.spec_mul(values@[i as int]));
                assert(poly.terms() == scaled);
                assert forall|k: usize| #[trigger] scaled.contains_key(k) implies scaled[k].value() < P by {
                    Fp::<P>::lemma_ops_canonical(checker_terms::<P>(pb)[k], values@[i as int]);
                }
                lemma_sum_maps_add_terms(result.terms(), poly.terms());
                let pre = values@.subrange(0, i as int);
                let next = values@.subrange(0, i + 1);
                assert(next.drop_last() =~= pre);
                assert(next.last() == values@[i as int]);
                if i == 0 {
                    assert(result.terms() == Map::<usize, Fp<P>>::empty());
                    assert(result.terms().len() == 0);
                }
                assert forall|k: usize| #[trigger] add_terms(result.terms(), poly.terms()).contains_key(k)
                    implies (k as nat) < pow2(n) by {
                    Self::lemma_wf_keys(result, k);
                    Self::lemma_wf_keys(poly, k);
                }
            }
            let sum = result.add(&poly);
            result = sum.unwrap();
            i = i + 1;
        }
        proof {
            assert(values@.subrange(0, values@.len() as int) =~= values@);
        }
        result
    }

    /// The encoding of the polynomial: the variable count (four bytes), then
    /// each term in increasing key order as its key (eight bytes) and its
    /// coefficient (eight bytes), all big-endian.
    pub fn to_bytes(&self) -> (r: Vec<u8>)
        ensures
            r@ == self.encoding(),
    {
        let mut result = u64_to_be_bytes(self.n_vars as u64, 4);
        let keys = sorted_keys(&self.coefficients);
        proof {
            assert(strictly_increasing(keys@));
            let s = sorted_dom(self.coefficients@);
            assert(exists|t: Seq<usize>| strictly_increasing(t) && forall|k: usize| #[trigger] t.contains(k) <==> self.coefficients@.contains_key(k)) by {
                assert(strictly_increasing(keys@));
            }
            lemma_sorted_unique(keys@, s);
        }
        let ghost head = result@;
        let mut i: usize = 0;
        while i < keys.len()
            invariant
                i <= keys@.len(),
                head == be_encoding(self.n_vars as nat, 4),
                forall|k: usize| #[trigger] self.coefficients@.contains_key(k) <==> keys@.contains(k),
                result@ == head + terms_bytes(self.coefficients@, keys@.subrange(0, i as int)),
            decreases keys@.len() - i,
        {
            let k = keys[i];
            proof {
                assert(keys@.contains(k));
            }
            let c = self.coefficients.get(&k).unwrap();
            let kb = u64_to_be_bytes(k as u64, 8);
            let cb = c.to_bytes_be();
            let ghost before = result@;
            let mut t: usize = 0;
            while t < kb.len()
                invariant
                    t <= kb@.len(),
                    result@ == before + kb@.subrange(0, t as int),
                decreases kb@.len() - t,
            {
                result.push(kb[t]);
                proof {
                    assert(kb@.subrange(0, t + 1) =~= kb@.subrange(0, t as int).push(kb@[t as int]));
                }
                t = t + 1;
            }
            let ghost mid = result@;
            let mut t: usize = 0;
            while t < cb.len()
                invariant
                    t <= cb@.len(),
                    result@ == mid + cb@.subrange(0, t as int),
                decreases cb@.len() - t,
            {
                result.push(cb[t]);
                proof {
                    assert(cb@.subrange(0, t + 1) =~= cb@.subrange(0, t as int).push(cb@[t as int]));
                }
                t = t + 1;
            }
            proof {
                assert(kb@.subrange(0, kb@.len() as int) =~= kb@);
                assert(cb@.subrange(0, cb@.len() as int) =~= cb@);
                let pre = keys@.subrange(0, i as int);
                assert(keys@.subrange(0, i + 1).drop_last() =~= pre);
                assert(result@ =~= head + terms_bytes(self.coefficients@, keys@.subrange(0, i + 1)));
            }
            i = i + 1;
        }
        proof {
            assert(keys@.subrange(0, keys@.len() as int) =~= keys@);
        }
        result
    }

    /// Instantiate a polynomial from terms; fails when a selector has the wrong length.
    pub fn new(number_of_variables: u32, terms: Vec<PolynomialTerm<P>>) -> (r: Result<
        Self,
        &'static str,
    >)
        requires
            0 < P,
            number_of_variables < usize::BITS || terms@.len() == 0 || terms@[0].1@.len()
                != number_of_variables,
        ensures
            r is Ok <==> forall|i: int|
                0 <= i < terms@.len() ==> #[trigger] terms@[i].1@.len() == number_of_variables,
            r matches Ok(p) ==> p.wf() && p.num_vars() == number_of_variables && p.terms()
                == terms_map(terms@),
    {
        let mut coefficients: BTreeMap<usize, Fp<P>> = BTreeMap::new();
        let mut i: usize = 0;
        while i < terms.len()
            invariant
                0 < P,
                i <= terms@.len(),
                number_of_variables < usize::BITS || terms@.len() == 0 || terms@[0].1@.len()
                    != number_of_variables,
                forall|j: int|
                    0 <= j < i ==> #[trigger] terms@[j].1@.len() == number_of_variables,
                coefficients@ == terms_map(terms@.subrange(0, i as int)),
                keys_below(coefficients@, number_of_variables as nat),
                all_canonical(coefficients@),
            decreases terms@.len() - i,
        {
            let term = &terms[i];
            if term.1.len() != number_of_variables as usize {
                return Err("the selector array len should be the same as the number of variables");
            }
            proof {
                if i > 0 {
                    assert(terms@[0].1@.len() == number_of_variables);
                }
                lemma_selector_value_lt(term.1@);
            }
            let idx = selector_to_index(term.1.as_slice());
            let current = match coefficients.get(&idx) {
                Some(c) => *c,
                None => Fp::zero(),
            };
            let updated = current.add(&term.0);
            proof {
                Fp::<P>::lemma_ops_canonical(current, term.0);
            }
            coefficients.insert(idx, updated);
            proof {
                let s = terms@.subrange(0, i + 1);
                assert(s.drop_last() =~= terms@.subrange(0, i as int));
                assert(s.last() == terms@[i as int]);
            }
            i = i + 1;
        }
        proof {
            assert(terms@.subrange(0, terms@.len() as int) =~= terms@);
        }
        Ok(MultiLinearPolynomial { n_vars: number_of_variables, coefficients })
    }
}

impl<const P: u64> MultiLinearExtension<P> for MultiLinearPolynomial<P> {
    open spec fn ext_wf(&self) -> bool {
        0 < P && self.wf()
    }

    open spec fn ext_vars(&self) -> nat {
        self.num_vars()
    }

    open spec fn evaluate_allowed(&self, assignments: Seq<Fp<P>>) -> bool {
        self.num_vars() == 0 || assignments.len() < self.num_vars() || (self.num_vars()
            < usize::BITS && !self.terms().dom().is_empty())
    }

    open spec fn evaluate_succeeds(&self, assignments: Seq<Fp<P>>) -> bool {
        self.num_vars() == 0 || assignments.len() >= self.num_vars()
    }

    open spec fn evaluate_value(&self, assignments: Seq<Fp<P>>) -> Fp<P> {
        if self.num_vars() == 0 {
            coeff_or_zero(self.terms(), 0)
        } else {
            fix_all(self.terms(), assignments.subrange(0, self.num_vars() as int))[0]
        }
    }

    open spec fn partial_allowed(&self, assignments: Seq<(Vec<bool>, Fp<P>)>) -> bool {
        self.num_vars() < usize::BITS || assignments.len() == 0 || !valid_selector(
            assignments[0].0@,
            self.num_vars(),
        )
    }

    open spec fn partial_succeeds(&self, assignments: Seq<(Vec<bool>, Fp<P>)>) -> bool {
        forall|i: int|
            0 <= i < assignments.len() ==> valid_selector(
                #[trigger] assignments[i].0@,
                self.num_vars(),
            )
    }

    open spec fn partial_result(&self, assignments: Seq<(Vec<bool>, Fp<P>)>, result: Self) -> bool {
        result.num_vars() == self.num_vars() && result.terms() == apply_assignments(
            self.terms(),
            assignments,
        )
    }

    open spec fn relabel_allowed(&self) -> bool {
        self.num_vars() < usize::BITS || mapping_spec(
            presence_spec(self.terms(), self.num_vars()),
        ).len() == 0
    }

    open spec fn relabel_result(&self, result: Self) -> bool {
        &&& self.num_vars() == 0 ==> result == *self
        &&& self.num_vars() > 0 ==> result.num_vars() == count_true(
            presence_spec(self.terms(), self.num_vars()),
        )
        &&& 0 < self.num_vars() < usize::BITS ==> result.wf() && is_relabelling(
            self.terms(),
            result.terms(),
            presence_spec(self.terms(), self.num_vars()),
        )
        &&& self.num_vars() >= usize::BITS ==> result.terms() == self.terms()
    }

    open spec fn bytes_spec(&self) -> Seq<u8> {
        self.encoding()
    }

    fn n_vars(&self) -> (r: usize) {
        MultiLinearPolynomial::n_vars(self)
    }

    fn evaluate(&self, assignments: &[Fp<P>]) -> (r: Result<Fp<P>, &'static str>) {
        proof {
            assert(assignments@.len() == self.num_vars() ==> assignments@.subrange(0, self.num_vars() as int)
                =~= assignments@);
        }
        MultiLinearPolynomial::evaluate(self, assignments)
    }

    fn partial_evaluate(&self, assignments: &[(Vec<bool>, Fp<P>)]) -> (r: Result<Self, &'static str>) {
        MultiLinearPolynomial::partial_evaluate(self, assignments)
    }

    fn relabel(self) -> (r: Self) {
        MultiLinearPolynomial::relabel(self)
    }

    fn to_bytes(&self) -> (r: Vec<u8>) {
        MultiLinearPolynomial::to_bytes(self)
    }
}

} // verus!
