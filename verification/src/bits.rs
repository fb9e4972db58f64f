//! Conversions between indices, boolean selectors and binary strings.
//!
//! A selector is a vector of booleans where position `i` stands for the
//! variable with weight `2^i`; its index is the sum of the weights selected.
use vstd::arithmetic::div_mod::*;
use vstd::arithmetic::mul::*;
use vstd::arithmetic::power2::*;
use vstd::bits::*;
use vstd::prelude::*;

verus! {

/// Bit `i` of `v` (weight `2^i`).
pub open spec fn bit_of(v: nat, i: nat) -> bool {
    (v / pow2(i)) % 2 == 1
}

/// The index a selector stands for: the sum of `2^i` over the selected positions.
pub open spec fn selector_value(s: Seq<bool>) -> nat
    decreases s.len(),
{
    if s.len() == 0 {
        0
    } else {
        selector_value(s.drop_last()) + if s.last() {
            pow2((s.len() - 1) as nat)
        } else {
            0
        }
    }
}

/// Number of binary digits of `v` (zero has one digit).
pub open spec fn bit_len(v: nat) -> nat
    decreases v,
{
    if v < 2 {
        1
    } else {
        1 + bit_len(v / 2)
    }
}

/// The character of a binary digit.
pub open spec fn digit_char(b: bool) -> char {
    if b {
        '1'
    } else {
        '0'
    }
}

/// The binary digits of `v`, most significant first, without leading zeros.
pub open spec fn binary_digits(v: nat) -> Seq<char>
    decreases v,
{
    if v < 2 {
        seq![digit_char(v == 1)]
    } else {
        binary_digits(v / 2).push(digit_char(v % 2 == 1))
    }
}

/// The binary digits of `v` left-padded with '0' to at least `width` characters.
pub open spec fn padded_binary(v: nat, width: nat) -> Seq<char> {
    let digits = binary_digits(v);
    if width > digits.len() {
        Seq::new((width - digits.len()) as nat, |i: int| '0') + digits
    } else {
        digits
    }
}

/// The selector with `size` positions of which only `position` is set.
pub open spec fn single_selector(size: nat, position: nat) -> Seq<bool> {
    Seq::new(size, |i: int| i == position)
}

/// Inserting `bit` at position `k` of `v`: the bits of `v` at `k` and above move up one place.
pub open spec fn spec_insert_bit(v: nat, k: nat, bit: nat) -> nat {
    (v / pow2(k)) * pow2(k + 1) + bit * pow2(k) + v % pow2(k)
}

pub proof fn lemma_bit_len_bound(v: nat)
    ensures
        v < pow2(bit_len(v)),
        bit_len(v) >= 1,
        binary_digits(v).len() == bit_len(v),
    decreases v,
{
    lemma2_to64();
    if v >= 2 {
        lemma_bit_len_bound(v / 2);
        lemma_pow2_unfold(bit_len(v));
    }
}

/// The digit of `binary_digits(v)` at position `j` is bit `bit_len(v) - 1 - j` of `v`.
pub proof fn lemma_binary_digits_index(v: nat, j: int)
    requires
        0 <= j < bit_len(v),
    ensures
        binary_digits(v)[j] == digit_char(bit_of(v, (bit_len(v) - 1 - j) as nat)),
    decreases v,
{
    lemma_bit_len_bound(v);
    lemma2_to64();
    if v < 2 {
        assert(j == 0);
        lemma_div_basics(v as int);
    } else {
        lemma_bit_len_bound(v / 2);
        if j < bit_len(v / 2) {
            lemma_binary_digits_index(v / 2, j);
            let k = (bit_len(v / 2) - 1 - j) as nat;
            // bit k of v/2 is bit k+1 of v
            lemma_pow2_unfold(k + 1);
            lemma_pow2_pos(k);
            lemma_div_denominator(v as int, 2, pow2(k) as int);
        } else {
            assert(j == bit_len(v / 2));
            lemma_div_basics(v as int);
        }
    }
}

/// Bits at or above `bit_len(v)` are clear.
pub proof fn lemma_high_bits_clear(v: nat, i: nat)
    requires
        i >= bit_len(v),
    ensures
        !bit_of(v, i),
{
    lemma_bit_len_bound(v);
    if i > bit_len(v) {
        lemma_pow2_strictly_increases(bit_len(v), i);
    }
    lemma_basic_div(v as int, pow2(i) as int);
}

proof fn lemma_selector_value_bound(s: Seq<bool>)
    ensures
        selector_value(s) < pow2(s.len()),
    decreases s.len(),
{
    lemma2_to64();
    if s.len() > 0 {
        lemma_selector_value_bound(s.drop_last());
        lemma_pow2_unfold(s.len());
    }
}

/// A selector's index is below `2^len`.
pub proof fn lemma_selector_value_lt(s: Seq<bool>)
    ensures
        selector_value(s) < pow2(s.len()),
{
    lemma_selector_value_bound(s);
}

/// Convert a selector to an index in the dense polynomial representation.
pub fn selector_to_index(selector: &[bool]) -> (r: usize)
    requires
        selector@.len() < usize::BITS,
    ensures
        r as nat == selector_value(selector@),
{
    let mut sum: usize = 0;
    let mut adder: usize = 1;
    let mut i: usize = 0;
    proof {
        lemma2_to64();
        assert(selector@.subrange(0, 0).len() == 0);
    }
    while i < selector.len()
        invariant
            selector@.len() < usize::BITS,
            i <= selector@.len(),
            adder as nat == pow2(i as nat),
            sum as nat == selector_value(selector@.subrange(0, i as int)),
            sum < adder,
        decreases selector.len() - i,
    {
        proof {
            let s = selector@.subrange(0, i + 1);
            assert(s.drop_last() =~= selector@.subrange(0, i as int));
            lemma_pow2_unfold((i + 1) as nat);
            lemma_usize_pow2_no_overflow((i + 1) as nat);
        }
        if selector[i] {
            sum = sum + adder;
        }
        adder = adder * 2;
        i = i + 1;
    }
    proof {
        assert(selector@.subrange(0, selector@.len() as int) =~= selector@);
    }
    sum
}

/// Convert a number to its selector: position `i` holds bit `i` of `value`,
/// padded with `false` to exactly `exact_size` positions.
pub fn selector_from_usize(value: usize, exact_size: usize) -> (r: Vec<bool>)
    requires
        exact_size >= bit_len(value as nat),
    ensures
        r@.len() == exact_size,
        forall|i: int| 0 <= i < exact_size ==> r@[i] == bit_of(value as nat, i as nat),
{
    let mut result: Vec<bool> = Vec::new();
    let mut v: usize = value;
    let mut i: usize = 0;
    proof {
        lemma2_to64();
    }
    while i < exact_size
        invariant
            i <= exact_size,
            result@.len() == i,
            v as nat == value as nat / pow2(i as nat),
            forall|j: int| 0 <= j < i ==> result@[j] == bit_of(value as nat, j as nat),
        decreases exact_size - i,
    {
        proof {
            lemma_pow2_pos(i as nat);
            lemma_pow2_unfold((i + 1) as nat);
            lemma_div_denominator(value as int, pow2(i as nat) as int, 2);
            lemma_mul_is_commutative(pow2(i as nat) as int, 2);
        }
        result.push(v % 2 == 1);
        v = v / 2;
        i = i + 1;
    }
    result
}

/// Returns a selector of the given size with only `position` set.
pub fn selector_from_position(size: usize, position: usize) -> (r: Result<Vec<bool>, &'static str>)
    requires
        size > 0,
    ensures
        position >= size <==> r is Err,
        r is Ok ==> r->Ok_0@ == single_selector(size as nat, position as nat),
{
    if position > size - 1 {
        return Err("position index out of bounds");
    }
    let mut selector: Vec<bool> = Vec::new();
    let mut i: usize = 0;
    while i < size
        invariant
            i <= size,
            selector@.len() == i,
            forall|j: int| 0 <= j < i ==> selector@[j] == (j == position),
        decreases size - i,
    {
        selector.push(i == position);
        i = i + 1;
    }
    proof {
        assert(selector@ =~= single_selector(size as nat, position as nat));
    }
    Ok(selector)
}

proof fn lemma_bit_len_le(v: nat)
    ensures
        bit_len(v) <= v + 1,
        v >= 1 ==> bit_len(v) <= v,
        v >= 2 ==> bit_len(v) >= 2,
    decreases v,
{
    if v >= 2 {
        lemma_bit_len_le(v / 2);
    }
}

/// Number of binary digits of `v`.
fn binary_len(v: usize) -> (r: usize)
    ensures
        r as nat == bit_len(v as nat),
{
    let mut n: usize = 1;
    let mut x: usize = v;
    proof {
        lemma_bit_len_le(v as nat);
    }
    while x >= 2
        invariant
            n as nat + bit_len(x as nat) == 1 + bit_len(v as nat),
            n >= 1,
            x <= v,
            v >= 1 ==> bit_len(v as nat) <= v,
        decreases x,
    {
        proof {
            lemma_bit_len_le(x as nat);
        }
        x = x / 2;
        n = n + 1;
    }
    n
}

/// Convert a number to a binary string of a given size (left-padded with '0';
/// longer numbers are written in full).
pub fn binary_string(index: usize, bit_count: usize) -> (r: String)
    ensures
        r@ == padded_binary(index as nat, bit_count as nat),
{
    let len = binary_len(index);
    let bits = selector_from_usize(index, len);
    let mut result = String::new();
    let mut i: usize = len;
    proof {
        reveal_strlit("0");
        reveal_strlit("1");
        lemma_bit_len_bound(index as nat);
    }
    while i < bit_count
        invariant
            len <= i <= bit_count || (i == len && bit_count <= len),
            result@ =~= Seq::new((i - len) as nat, |j: int| '0'),
        decreases bit_count - i,
    {
        proof {
            reveal_strlit("0");
        }
        result.append("0");
        i = i + 1;
    }
    let ghost pad = result@;
    let mut j: usize = 0;
    while j < len
        invariant
            j <= len,
            len == bit_len(index as nat),
            bits@.len() == len,
            forall|k: int| 0 <= k < len ==> bits@[k] == bit_of(index as nat, k as nat),
            result@ =~= pad + binary_digits(index as nat).subrange(0, j as int),
            binary_digits(index as nat).len() == len,
        decreases len - j,
    {
        proof {
            lemma_binary_digits_index(index as nat, j as int);
            reveal_strlit("0");
            reveal_strlit("1");
            assert(binary_digits(index as nat).subrange(0, j + 1) =~= binary_digits(index as nat).subrange(0, j as int).push(binary_digits(index as nat)[j as int]));
        }
        if bits[len - 1 - j] {
            result.append("1");
        } else {
            result.append("0");
        }
        j = j + 1;
    }
    proof {
        assert(binary_digits(index as nat).subrange(0, len as int) =~= binary_digits(index as nat));
    }
    result
}

/// Determines the number of bits needed to represent `size - 1`.
pub fn bit_count_for_n_elem(size: usize) -> (r: usize)
    requires
        size > 0,
    ensures
        r as nat == bit_len((size - 1) as nat),
{
    binary_len(size - 1)
}

/// Generates a bit sequence of `n` ones.
pub fn mask(n: u8) -> (r: usize)
    requires
        (n as u32) < usize::BITS,
    ensures
        r as nat == pow2(n as nat) - 1,
{
    proof {
        lemma_usize_pow2_no_overflow(n as nat);
        lemma_usize_shl_is_mul(1, n as usize);
    }
    (1usize << n) - 1
}

/// Inserts `bit` at position `index` (counted from the least significant end) of `val`.
pub fn insert_bit(val: usize, index: u8, bit: usize) -> (r: usize)
    requires
        (index as u32) + 1 < usize::BITS,
        bit < 2,
        spec_insert_bit(val as nat, index as nat, bit as nat) <= usize::MAX,
    ensures
        r as nat == spec_insert_bit(val as nat, index as nat, bit as nat),
{
    let ghost k: nat = index as nat;
    proof {
        lemma_usize_pow2_no_overflow(k);
        lemma_pow2_pos(k);
        lemma_pow2_unfold(k + 1);
        lemma_fundamental_div_mod(val as int, pow2(k) as int);
        lemma_mul_inequality(bit as int, 1, pow2(k) as int);
        lemma_mul_is_commutative((val as nat / pow2(k)) as int, pow2(k) as int);
        lemma_mul_is_associative((val as nat / pow2(k)) as int, pow2(k) as int, 2);
        lemma_mul_is_commutative(pow2(k) as int, 2);
        lemma_mod_bound(val as int, pow2(k) as int);
    }
    let p: usize = mask(index) + 1;
    let high: usize = val / p;
    let low: usize = val % p;
    high * p * 2 + bit * p + low
}

} // verus!
