//! What a constraint means on a witness, and why reducing constraints keeps
//! that meaning: a slot stands for the sum of its terms, each term for its
//! variable's value times its scale.
use crate::field::Fp;
use crate::r1cs::{
    assign_variable, can_simplify_spec, compile_fold, crowded_slot, empty_count, empty_slot, find_entry,
    lemma_crowded, lemma_rearrange_step_decreases, merge_steps, moved, negate_spec, rearrange_step, rearranged,
    reduce_spec, reduced_of, should_rearrange_spec, slot_of, slots_count, with_slot, Constraint, Operation,
    ReducedConstraint, SlotName, Slots, TableState, Term,
};
use crate::circuit::Circuit;
use crate::r1cs::program_max_index;
use crate::r1cs_circuit::{
    constants_placed, constraint_holds, layer_is, lemma_circuit_checks_constraints, program_layer, CIRCUIT_DEPTH,
};
use vstd::prelude::*;

verus! {

/// The value of a term on witness `w`: its variable's value times its scale.
pub open spec fn term_eval<const P: u64>(t: Term<P>, w: Seq<Fp<P>>) -> Fp<P> {
    w[t.0 as int].spec_mul(t.1)
}

/// The sum of the values of the terms of a slot (zero for an empty slot).
pub open spec fn slot_value<const P: u64>(ts: Seq<Term<P>>, w: Seq<Fp<P>>) -> Fp<P>
    decreases ts.len(),
{
    if ts.len() == 0 {
        Fp::<P>::spec_zero()
    } else {
        slot_value(ts.drop_last(), w).spec_add(term_eval(ts.last(), w))
    }
}

/// The constraint `A op B = C` holds on `w`, each slot standing for the sum of its terms.
pub open spec fn equation_holds<const P: u64>(s: Slots<P>, op: Operation, w: Seq<Fp<P>>) -> bool {
    let a = slot_value(s.0, w);
    let b = slot_value(s.1, w);
    let c = slot_value(s.2, w);
    match op {
        Operation::Add => a.spec_add(b) == c,
        Operation::Mul => a.spec_mul(b) == c,
    }
}

/// A multiplication has terms in both `A` and `B` (as every constraint built by `Constraint::new`).
pub open spec fn operation_fits<const P: u64>(s: Slots<P>, op: Operation) -> bool {
    op == Operation::Mul ==> s.0.len() > 0 && s.1.len() > 0
}

/// Slot sums are canonical.
proof fn lemma_slot_canonical<const P: u64>(ts: Seq<Term<P>>, w: Seq<Fp<P>>)
    requires
        1 < P,
    ensures
        slot_value(ts, w).value() < P,
{
    Fp::<P>::lemma_ops_canonical(Fp::<P>::spec_zero(), Fp::<P>::spec_zero());
    if ts.len() > 0 {
        Fp::<P>::lemma_ops_canonical(slot_value(ts.drop_last(), w), term_eval(ts.last(), w));
    }
}

/// The sum of a slot with one term is that term's value.
proof fn lemma_slot_single<const P: u64>(t: Term<P>, w: Seq<Fp<P>>)
    requires
        1 < P,
    ensures
        slot_value(seq![t], w) == term_eval(t, w),
{
    assert(seq![t].drop_last() =~= Seq::<Term<P>>::empty());
    assert(slot_value(seq![t].drop_last(), w) == Fp::<P>::spec_zero());
    assert(seq![t].last() == t);
    Fp::<P>::lemma_ops_canonical(w[t.0 as int], t.1);
    Fp::<P>::lemma_identities(term_eval(t, w));
}

/// A constraint with at most one term per slot holds exactly when its reduced form does.
pub proof fn lemma_reduced_holds<const P: u64>(s: Slots<P>, op: Operation, w: Seq<Fp<P>>)
    requires
        1 < P,
        s.0.len() <= 1,
        s.1.len() <= 1,
        s.2.len() <= 1,
        operation_fits(s, op),
    ensures
        equation_holds(s, op, w) <==> constraint_holds(reduced_of(s, op), w),
{
    if s.0.len() == 1 {
        assert(s.0 =~= seq![s.0[0]]);
        lemma_slot_single(s.0[0], w);
    }
    if s.1.len() == 1 {
        assert(s.1 =~= seq![s.1[0]]);
        lemma_slot_single(s.1[0], w);
    }
    if s.2.len() == 1 {
        assert(s.2 =~= seq![s.2[0]]);
        lemma_slot_single(s.2[0], w);
    }
}

/// The value of a negated term is the term's value times minus one.
proof fn lemma_negated_eval<const P: u64>(t: Term<P>, w: Seq<Fp<P>>)
    requires
        1 < P,
    ensures
        term_eval(negate_spec(t), w) == term_eval(t, w).spec_mul(Fp::<P>::spec_one().spec_neg()),
{
    Fp::<P>::lemma_mul_associative(w[t.0 as int], t.1, Fp::<P>::spec_one().spec_neg());
}

/// `(a + t) + b == (a + b) + t`.
proof fn lemma_swap_last<const P: u64>(a: Fp<P>, t: Fp<P>, b: Fp<P>)
    requires
        0 < P,
    ensures
        a.spec_add(t).spec_add(b) == a.spec_add(b).spec_add(t),
{
    Fp::<P>::lemma_add_associative(a, t, b);
    Fp::<P>::lemma_commutative(t, b);
    Fp::<P>::lemma_add_associative(a, b, t);
}

/// Moving a term to an empty slot keeps the meaning of an addition.
pub proof fn lemma_rearrange_step_holds<const P: u64>(s: Slots<P>, w: Seq<Fp<P>>)
    requires
        1 < P,
        should_rearrange_spec(s, Operation::Add),
    ensures
        equation_holds(rearrange_step(s), Operation::Add, w) <==> equation_holds(s, Operation::Add, w),
{
    let from = crowded_slot(s)->0;
    let to = empty_slot(s)->0;
    let src = slot_of(s, from);
    let t = src.last();
    let e = term_eval(t, w);
    let m1 = Fp::<P>::spec_one().spec_neg();
    let zero = Fp::<P>::spec_zero();
    let rest = slot_value(src.drop_last(), w);
    let r = rearrange_step(s);
    Fp::<P>::lemma_sign_mul();
    Fp::<P>::lemma_ops_canonical(w[t.0 as int], t.1);
    Fp::<P>::lemma_identities(zero);
    lemma_slot_canonical(s.0, w);
    lemma_slot_canonical(s.1, w);
    lemma_slot_canonical(s.2, w);
    lemma_slot_canonical(src.drop_last(), w);
    let mv = moved(t, from, to);
    lemma_negated_eval(t, w);
    Fp::<P>::lemma_ops_canonical(e, m1);
    assert(slot_of(r, to) =~= seq![mv]);
    lemma_slot_single(mv, w);
    assert(slot_value(src, w) == rest.spec_add(e));
    assert(slot_of(r, from) == src.drop_last());
    let a = slot_value(s.0, w);
    let b = slot_value(s.1, w);
    let c = slot_value(s.2, w);
    Fp::<P>::lemma_identities(a);
    Fp::<P>::lemma_identities(b);
    Fp::<P>::lemma_identities(c);
    Fp::<P>::lemma_identities(rest);
    Fp::<P>::lemma_identities(e);
    match (from, to) {
        (SlotName::A, SlotName::B) => {},
        (SlotName::B, SlotName::A) => {
            Fp::<P>::lemma_commutative(e, rest);
        },
        (SlotName::A, SlotName::C) => {
            lemma_swap_last(rest, e, b);
            Fp::<P>::lemma_ops_canonical(rest, b);
            Fp::<P>::lemma_minus_zero(rest.spec_add(b), e.spec_mul(m1));
            Fp::<P>::lemma_mul_associative(e, m1, m1);
        },
        (SlotName::B, SlotName::C) => {
            Fp::<P>::lemma_add_associative(a, rest, e);
            Fp::<P>::lemma_ops_canonical(a, rest);
            Fp::<P>::lemma_minus_zero(a.spec_add(rest), e.spec_mul(m1));
            Fp::<P>::lemma_mul_associative(e, m1, m1);
        },
        (SlotName::C, SlotName::A) => {
            Fp::<P>::lemma_move_term(b, rest, e);
            Fp::<P>::lemma_commutative(e.spec_mul(m1), b);
        },
        (SlotName::C, SlotName::B) => {
            Fp::<P>::lemma_move_term(a, rest, e);
        },
        _ => {},
    }
}

/// Rearranging keeps the meaning of a constraint (only additions are rearranged).
pub proof fn lemma_rearranged_holds<const P: u64>(s: Slots<P>, op: Operation, w: Seq<Fp<P>>)
    requires
        1 < P,
    ensures
        equation_holds(rearranged(s, op), op, w) <==> equation_holds(s, op, w),
        operation_fits(s, op) ==> operation_fits(rearranged(s, op), op),
    decreases empty_count(s),
{
    if should_rearrange_spec(s, op) {
        lemma_rearrange_step_decreases(s, op);
        lemma_rearranged_holds(rearrange_step(s), op, w);
        lemma_rearrange_step_holds(s, w);
    }
}

/// Every recorded pair's variable holds, on `w`, the sum of the pair's values.
pub open spec fn table_consistent<const P: u64>(t: TableState<P>, w: Seq<Fp<P>>) -> bool {
    forall|j: int|
        0 <= j < t.0.len() ==> w[(#[trigger] t.0[j]).1 as int] == term_eval(t.0[j].0.0, w).spec_add(
            term_eval(t.0[j].0.1, w),
        )
}

/// `a` is a prefix of `b`.
pub open spec fn is_prefix<A>(a: Seq<A>, b: Seq<A>) -> bool {
    a.len() <= b.len() && forall|j: int| 0 <= j < a.len() ==> #[trigger] b[j] == a[j]
}

/// A table whose entries start another consistent table's is consistent.
proof fn lemma_consistent_prefix<const P: u64>(t: TableState<P>, u: TableState<P>, w: Seq<Fp<P>>)
    requires
        is_prefix(t.0, u.0),
        table_consistent(u, w),
    ensures
        table_consistent(t, w),
{
    assert forall|j: int| 0 <= j < t.0.len() implies w[(#[trigger] t.0[j]).1 as int] == term_eval(
        t.0[j].0.0,
        w,
    ).spec_add(term_eval(t.0[j].0.1, w)) by {
        assert(u.0[j] == t.0[j]);
    }
}

/// A found entry sits at some position of the entries.
proof fn lemma_find_entry<const P: u64>(entries: Seq<((Term<P>, Term<P>), usize)>, key: (Term<P>, Term<P>)) -> (j: int)
    requires
        find_entry(entries, key) is Some,
    ensures
        0 <= j < entries.len(),
        entries[j].0 == key,
        entries[j].1 == find_entry(entries, key)->0,
    decreases entries.len(),
{
    if entries[0].0 == key {
        0
    } else {
        let j = lemma_find_entry(entries.drop_first(), key);
        j + 1
    }
}

/// Assigning a variable to a pair keeps the entries and, on a consistent
/// witness, gives a variable holding the pair's sum.
proof fn lemma_assign_consistent<const P: u64>(t: TableState<P>, a: Term<P>, b: Term<P>, w: Seq<Fp<P>>)
    requires
        0 < P,
    ensures
        is_prefix(t.0, assign_variable(t, a, b).1.0),
        table_consistent(assign_variable(t, a, b).1, w) ==> w[assign_variable(t, a, b).0 as int]
            == term_eval(a, w).spec_add(term_eval(b, w)),
{
    let (idx, t2) = assign_variable(t, a, b);
    if find_entry(t.0, (a, b)) is Some {
        let j = lemma_find_entry(t.0, (a, b));
        assert(t2.0[j] == t.0[j]);
    } else if find_entry(t.0, (b, a)) is Some {
        let j = lemma_find_entry(t.0, (b, a));
        assert(t2.0[j] == t.0[j]);
        Fp::<P>::lemma_commutative(term_eval(a, w), term_eval(b, w));
    } else {
        assert(t2.0[t.0.len() as int] == ((a, b), idx));
    }
}

/// Merging keeps the meaning of a constraint: on a witness consistent with the
/// table the merges end with, the constraint holds exactly when all the
/// reduced constraints the merges give hold.
proof fn lemma_merge_holds<const P: u64>(s: Slots<P>, op: Operation, t: TableState<P>, w: Seq<Fp<P>>)
    requires
        1 < P,
        operation_fits(s, op),
        table_consistent(merge_steps(s, op, t).1, w),
    ensures
        is_prefix(t.0, merge_steps(s, op, t).1.0),
        equation_holds(s, op, w) <==> forall|i: int|
            0 <= i < merge_steps(s, op, t).0.len() ==> constraint_holds(#[trigger] merge_steps(s, op, t).0[i], w),
    decreases slots_count(s),
{
    let (rs, tf) = merge_steps(s, op, t);
    if can_simplify_spec(s) && crowded_slot(s) is Some {
        let n = crowded_slot(s)->0;
        let v = slot_of(s, n);
        let last = v.last();
        let second = v[v.len() - 2];
        let (idx, t2) = assign_variable(t, second, last);
        let one = Fp::<P>::spec_one();
        let out = Term(idx, one);
        let pre = v.subrange(0, v.len() - 2);
        let next = with_slot(s, n, pre.push(out));
        let (rest, t3) = merge_steps(next, op, t2);
        let mc = ReducedConstraint { a: Some(second), b: Some(last), c: Some(out), operation: Operation::Add };
        assert(rs == seq![mc] + rest);
        lemma_merge_holds(next, op, t2, w);
        lemma_assign_consistent(t, second, last, w);
        lemma_consistent_prefix(t2, t3, w);
        assert(is_prefix(t.0, t3.0)) by {
            assert forall|j: int| 0 <= j < t.0.len() implies #[trigger] t3.0[j] == t.0[j] by {
                assert(t2.0[j] == t.0[j]);
            }
        }
        // the merge constraint holds
        let es = term_eval(second, w);
        let el = term_eval(last, w);
        Fp::<P>::lemma_ops_canonical(es, el);
        Fp::<P>::lemma_identities(w[idx as int]);
        Fp::<P>::lemma_sign_mul();
        assert(constraint_holds(mc, w));
        // the slot keeps its sum
        assert(pre.push(out).drop_last() =~= pre);
        assert(v.drop_last() =~= pre.push(second));
        assert(pre.push(second).drop_last() =~= pre);
        Fp::<P>::lemma_add_associative(slot_value(pre, w), es, el);
        assert(w[idx as int] == es.spec_add(el));
        assert(term_eval(out, w) == w[idx as int]);
        assert(slot_of(next, n) == pre.push(out));
        assert(slot_value(pre.push(out), w) == slot_value(pre, w).spec_add(term_eval(out, w)));
        assert(slot_value(pre.push(second), w) == slot_value(pre, w).spec_add(es));
        assert(slot_value(v, w) == slot_value(v.drop_last(), w).spec_add(el));
        assert(slot_value(slot_of(next, n), w) == slot_value(v, w));
        assert forall|i: int| 0 <= i < rs.len() implies constraint_holds(#[trigger] rs[i], w) == (if i == 0 {
            constraint_holds(mc, w)
        } else {
            constraint_holds(rest[i - 1], w)
        }) by {}
        if equation_holds(s, op, w) {
            assert forall|i: int| 0 <= i < rs.len() implies constraint_holds(#[trigger] rs[i], w) by {
                if i > 0 {
                    assert(constraint_holds(rest[i - 1], w));
                }
            }
        }
        if forall|i: int| 0 <= i < rs.len() ==> constraint_holds(#[trigger] rs[i], w) {
            assert forall|i: int| 0 <= i < rest.len() implies constraint_holds(#[trigger] rest[i], w) by {
                assert(constraint_holds(rs[i + 1], w));
            }
        }
    } else {
        if can_simplify_spec(s) {
            lemma_crowded(s);
        }
        lemma_reduced_holds(s, op, w);
        assert(rs == seq![reduced_of(s, op)]);
        if constraint_holds(reduced_of(s, op), w) {
            assert forall|i: int| 0 <= i < rs.len() implies constraint_holds(#[trigger] rs[i], w) by {}
        }
        if forall|i: int| 0 <= i < rs.len() ==> constraint_holds(#[trigger] rs[i], w) {
            assert(constraint_holds(rs[0], w));
        }
    }
}

/// Reducing keeps the meaning of a constraint: on a witness consistent with
/// the table the reduction ends with, the constraint holds exactly when all
/// its reduced constraints hold.
pub proof fn lemma_reduce_holds<const P: u64>(s: Slots<P>, op: Operation, t: TableState<P>, w: Seq<Fp<P>>)
    requires
        1 < P,
        operation_fits(s, op),
        table_consistent(reduce_spec(s, op, t).1, w),
    ensures
        is_prefix(t.0, reduce_spec(s, op, t).1.0),
        equation_holds(s, op, w) <==> forall|i: int|
            0 <= i < reduce_spec(s, op, t).0.len() ==> constraint_holds(#[trigger] reduce_spec(s, op, t).0[i], w),
{
    let rs = reduce_spec(s, op, t).0;
    if can_simplify_spec(s) {
        lemma_rearranged_holds(s, op, w);
        lemma_merge_holds(rearranged(s, op), op, t, w);
    } else {
        lemma_reduced_holds(s, op, w);
        if constraint_holds(reduced_of(s, op), w) {
            assert forall|i: int| 0 <= i < rs.len() implies constraint_holds(#[trigger] rs[i], w) by {}
        }
        if forall|i: int| 0 <= i < rs.len() ==> constraint_holds(#[trigger] rs[i], w) {
            assert(constraint_holds(rs[0], w));
        }
    }
}

/// Compiling keeps the meaning of a program: on a witness that gives each
/// variable the compilation creates the sum of the pair of terms it stands
/// for, every constraint holds exactly when every reduced constraint does.
pub proof fn lemma_compile_holds<const P: u64>(cs: Seq<Constraint<P>>, t: TableState<P>, w: Seq<Fp<P>>)
    requires
        1 < P,
        forall|i: int| 0 <= i < cs.len() ==> operation_fits((#[trigger] cs[i]).slots(), cs[i].op()),
        table_consistent(compile_fold(cs, t).1, w),
    ensures
        is_prefix(t.0, compile_fold(cs, t).1.0),
        (forall|i: int| 0 <= i < cs.len() ==> equation_holds((#[trigger] cs[i]).slots(), cs[i].op(), w))
            <==> forall|j: int|
            0 <= j < compile_fold(cs, t).0.len() ==> constraint_holds(#[trigger] compile_fold(cs, t).0[j], w),
    decreases cs.len(),
{
    if cs.len() > 0 {
        let init = cs.drop_last();
        let c = cs.last();
        let (r1, t1) = compile_fold(init, t);
        let (r2, t2) = reduce_spec(c.slots(), c.op(), t1);
        let rs = r1 + r2;
        assert(compile_fold(cs, t) == (rs, t2));
        assert(operation_fits(c.slots(), c.op()));
        lemma_reduce_holds(c.slots(), c.op(), t1, w);
        lemma_consistent_prefix(t1, t2, w);
        assert forall|i: int| 0 <= i < init.len() implies operation_fits((#[trigger] init[i]).slots(), init[i].op()) by {
            assert(init[i] == cs[i]);
        }
        lemma_compile_holds(init, t, w);
        assert(is_prefix(t.0, t2.0)) by {
            assert forall|j: int| 0 <= j < t.0.len() implies #[trigger] t2.0[j] == t.0[j] by {
                assert(t1.0[j] == t.0[j]);
            }
        }
        let all_cs = forall|i: int| 0 <= i < cs.len() ==> equation_holds((#[trigger] cs[i]).slots(), cs[i].op(), w);
        let all_init = forall|i: int| 0 <= i < init.len() ==> equation_holds((#[trigger] init[i]).slots(), init[i].op(), w);
        let all_rs = forall|j: int| 0 <= j < rs.len() ==> constraint_holds(#[trigger] rs[j], w);
        let all_r1 = forall|j: int| 0 <= j < r1.len() ==> constraint_holds(#[trigger] r1[j], w);
        let all_r2 = forall|j: int| 0 <= j < r2.len() ==> constraint_holds(#[trigger] r2[j], w);
        assert(all_cs <==> all_init && equation_holds(c.slots(), c.op(), w)) by {
            if all_init && equation_holds(c.slots(), c.op(), w) {
                assert forall|i: int| 0 <= i < cs.len() implies equation_holds((#[trigger] cs[i]).slots(), cs[i].op(), w) by {
                    if i < init.len() {
                        assert(init[i] == cs[i]);
                    }
                }
            }
            if all_cs {
                assert forall|i: int| 0 <= i < init.len() implies equation_holds((#[trigger] init[i]).slots(), init[i].op(), w) by {
                    assert(init[i] == cs[i]);
                }
            }
        }
        assert(all_init <==> all_r1);
        assert(equation_holds(c.slots(), c.op(), w) <==> all_r2);
        assert(all_rs <==> all_r1 && all_r2) by {
            if all_r1 && all_r2 {
                assert forall|j: int| 0 <= j < rs.len() implies constraint_holds(#[trigger] rs[j], w) by {
                    if j < r1.len() {
                        assert(rs[j] == r1[j]);
                    } else {
                        assert(rs[j] == r2[j - r1.len()]);
                    }
                }
            }
            if all_rs {
                assert forall|j: int| 0 <= j < r1.len() implies constraint_holds(#[trigger] r1[j], w) by {
                    assert(rs[j] == r1[j]);
                }
                assert forall|j: int| 0 <= j < r2.len() implies constraint_holds(#[trigger] r2[j], w) by {
                    assert(rs[j + r1.len()] == r2[j]);
                }
            }
        }
        assert(all_cs <==> all_rs);
        assert(compile_fold(cs, t).0 == rs);
    }
}

/// The circuit of a program checks the program: run on a witness that holds
/// the constants at their positions and gives each variable the compilation
/// creates the sum of the pair of terms it stands for, all its outputs are zero
/// exactly when every constraint of the program holds.
pub proof fn lemma_program_circuit_checks<const P: u64>(
    cs: Seq<Constraint<P>>,
    c: Circuit,
    m: Map<u64, usize>,
    w: Seq<Fp<P>>,
)
    requires
        1 < P,
        forall|i: int| 0 <= i < cs.len() ==> operation_fits((#[trigger] cs[i]).slots(), cs[i].op()),
        ({
            let (rs, tf) = compile_fold(
                cs,
                (Seq::<((Term<P>, Term<P>), usize)>::empty(), program_max_index(cs)),
            );
            &&& c.layers_spec().len() == CIRCUIT_DEPTH
            &&& forall|j: int| 0 <= j < 3 ==> layer_is(c, j, #[trigger] program_layer(rs, m, j, rs.len()))
            &&& 4 * rs.len() + 3 <= usize::MAX
            &&& forall|i: int| 0 <= i < rs.len() ==> constants_placed(#[trigger] rs[i], m, w)
            &&& table_consistent(tf, w)
        }),
    ensures
        ({
            let rs = compile_fold(
                cs,
                (Seq::<((Term<P>, Term<P>), usize)>::empty(), program_max_index(cs)),
            ).0;
            &&& c.values_at(w, 0).len() == rs.len()
            &&& (forall|i: int| 0 <= i < rs.len() ==> #[trigger] c.values_at(w, 0)[i] == Fp::<P>::spec_zero())
                <==> (forall|i: int| 0 <= i < cs.len() ==> equation_holds((#[trigger] cs[i]).slots(), cs[i].op(), w))
        }),
{
    let t0 = (Seq::<((Term<P>, Term<P>), usize)>::empty(), program_max_index(cs));
    let (rs, tf) = compile_fold(cs, t0);
    lemma_circuit_checks_constraints(c, rs, m, w);
    lemma_compile_holds(cs, t0, w);
    let out = c.values_at(w, 0);
    let all_zero = forall|i: int| 0 <= i < rs.len() ==> #[trigger] out[i] == Fp::<P>::spec_zero();
    let all_hold = forall|j: int| 0 <= j < rs.len() ==> constraint_holds(#[trigger] rs[j], w);
    assert(all_zero <==> all_hold) by {
        if all_zero {
            assert forall|j: int| 0 <= j < rs.len() implies constraint_holds(#[trigger] rs[j], w) by {
                assert(out[j] == Fp::<P>::spec_zero());
            }
        }
        if all_hold {
            assert forall|i: int| 0 <= i < rs.len() implies #[trigger] out[i] == Fp::<P>::spec_zero() by {
                assert(constraint_holds(rs[i], w));
            }
        }
    }
}

} // verus!
