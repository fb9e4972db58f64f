//! R1CS constraints `A . B = C` and their reduction to constraints with at
//! most one term per slot and a single operation.
use crate::field::Fp;
use vstd::prelude::*;

verus! {

/// A variable index and the field element its value is scaled by.
#[derive(Clone, Copy, Debug)]
pub struct Term<const P: u64>(pub usize, pub Fp<P>);

impl<const P: u64> PartialEq for Term<P> {
    fn eq(&self, other: &Self) -> (r: bool) {
        self.0 == other.0 && self.1.equals(&other.1)
    }
}

impl<const P: u64> vstd::std_specs::cmp::PartialEqSpecImpl for Term<P> {
    open spec fn obeys_eq_spec() -> bool {
        true
    }

    open spec fn eq_spec(&self, other: &Self) -> bool {
        self.0 == other.0 && self.1 == other.1
    }
}

impl<const P: u64> Eq for Term<P> {}

/// The term with its scale negated.
pub open spec fn negate_spec<const P: u64>(t: Term<P>) -> Term<P> {
    Term(t.0, t.1.spec_mul(Fp::<P>::spec_one().spec_neg()))
}

/// Negating a term twice gives the term back.
pub proof fn lemma_negate_negate<const P: u64>(t: Term<P>)
    requires
        1 < P,
        t.1.value() < P,
    ensures
        negate_spec(negate_spec(t)) == t,
{
    let m1 = Fp::<P>::spec_one().spec_neg();
    Fp::<P>::lemma_mul_associative(t.1, m1, m1);
    Fp::<P>::lemma_sign_mul();
    Fp::<P>::lemma_identities(t.1);
}

impl<const P: u64> Term<P> {
    /// The same variable with the negated scale (moving a term over the equal sign).
    pub fn negate(&self) -> (r: Self)
        requires
            1 < P,
        ensures
            r == negate_spec(*self),
    {
        let minus_one = Fp::one().neg();
        Term(self.0, self.1.mul(&minus_one))
    }

    /// The pair `(index, scale)`.
    pub fn to_pair(self) -> (r: (usize, Fp<P>))
        ensures
            r == (self.0, self.1),
    {
        (self.0, self.1)
    }
}

/// The operation of a constraint.
#[derive(Clone, Copy, Debug, PartialEq, Eq, Structural)]
pub enum Operation {
    Add,
    Mul,
}

/// The side of the equal sign a slot is on: `A . B` (left) `= C` (right).
#[derive(Clone, Copy, Debug, PartialEq, Eq, Structural)]
pub enum EquationDirection {
    Left,
    Right,
}

/// One of the three slots of a constraint.
#[derive(Clone, Copy, Debug, PartialEq, Eq, Structural)]
pub enum SlotName {
    A,
    B,
    C,
}

/// The three slots of a constraint.
pub type Slots<const P: u64> = (Seq<Term<P>>, Seq<Term<P>>, Seq<Term<P>>);

/// The operation a new constraint gets: multiplication when both `A` and `B` hold terms.
pub open spec fn initial_operation<const P: u64>(a: Seq<Term<P>>, b: Seq<Term<P>>) -> Operation {
    if a.len() == 0 || b.len() == 0 {
        Operation::Add
    } else {
        Operation::Mul
    }
}

/// The total number of terms.
pub open spec fn slots_count<const P: u64>(s: Slots<P>) -> nat {
    s.0.len() + s.1.len() + s.2.len()
}

/// More than three terms, or more than one term in some slot.
pub open spec fn can_simplify_spec<const P: u64>(s: Slots<P>) -> bool {
    slots_count(s) > 3 || s.0.len() > 1 || s.1.len() > 1 || s.2.len() > 1
}

/// An addition with a slot of several terms and an empty slot to move one to.
pub open spec fn should_rearrange_spec<const P: u64>(s: Slots<P>, op: Operation) -> bool {
    &&& op != Operation::Mul
    &&& !(s.0.len() <= 1 && s.1.len() <= 1 && s.2.len() <= 1)
    &&& (s.0.len() == 0 || s.1.len() == 0 || s.2.len() == 0)
}

/// The first slot (in the order `A`, `B`, `C`) holding more than one term, if any.
pub open spec fn crowded_slot<const P: u64>(s: Slots<P>) -> Option<SlotName> {
    if s.0.len() > 1 {
        Some(SlotName::A)
    } else if s.1.len() > 1 {
        Some(SlotName::B)
    } else if s.2.len() > 1 {
        Some(SlotName::C)
    } else {
        None
    }
}

/// The first empty slot (in the order `A`, `B`, `C`), if any.
pub open spec fn empty_slot<const P: u64>(s: Slots<P>) -> Option<SlotName> {
    if s.0.len() == 0 {
        Some(SlotName::A)
    } else if s.1.len() == 0 {
        Some(SlotName::B)
    } else if s.2.len() == 0 {
        Some(SlotName::C)
    } else {
        None
    }
}

/// The side of the equation a slot is on.
pub open spec fn direction(n: SlotName) -> EquationDirection {
    match n {
        SlotName::C => EquationDirection::Right,
        _ => EquationDirection::Left,
    }
}

/// The terms of a slot.
pub open spec fn slot_of<const P: u64>(s: Slots<P>, n: SlotName) -> Seq<Term<P>> {
    match n {
        SlotName::A => s.0,
        SlotName::B => s.1,
        SlotName::C => s.2,
    }
}

/// The slots with slot `n` replaced.
pub open spec fn with_slot<const P: u64>(s: Slots<P>, n: SlotName, v: Seq<Term<P>>) -> Slots<P> {
    match n {
        SlotName::A => (v, s.1, s.2),
        SlotName::B => (s.0, v, s.2),
        SlotName::C => (s.0, s.1, v),
    }
}

/// The number of empty slots.
pub open spec fn empty_count<const P: u64>(s: Slots<P>) -> nat {
    (if s.0.len() == 0 {
        1nat
    } else {
        0nat
    }) + (if s.1.len() == 0 {
        1nat
    } else {
        0nat
    }) + (if s.2.len() == 0 {
        1nat
    } else {
        0nat
    })
}

/// A term moved between slots, negated when it crosses the equal sign.
pub open spec fn moved<const P: u64>(t: Term<P>, from: SlotName, to: SlotName) -> Term<P> {
    if direction(from) == direction(to) {
        t
    } else {
        negate_spec(t)
    }
}

/// One rearrangement: the last term of the first crowded slot moves to the first empty slot.
pub open spec fn rearrange_step<const P: u64>(s: Slots<P>) -> Slots<P>
    recommends
        crowded_slot(s) is Some,
        empty_slot(s) is Some,
{
    let from = crowded_slot(s)->0;
    let to = empty_slot(s)->0;
    let src = slot_of(s, from);
    let popped = with_slot(s, from, src.drop_last());
    with_slot(popped, to, slot_of(popped, to).push(moved(src.last(), from, to)))
}

/// Rearranging until no more terms can move.
pub open spec fn rearranged<const P: u64>(s: Slots<P>, op: Operation) -> Slots<P>
    decreases empty_count(s),
{
    if should_rearrange_spec(s, op) {
        proof {
            lemma_rearrange_step_decreases(s, op);
        }
        rearranged(rearrange_step(s), op)
    } else {
        s
    }
}

/// A rearrangement fills one empty slot and empties none.
pub proof fn lemma_rearrange_step_decreases<const P: u64>(s: Slots<P>, op: Operation)
    requires
        should_rearrange_spec(s, op),
    ensures
        empty_count(rearrange_step(s)) < empty_count(s),
        slots_count(rearrange_step(s)) == slots_count(s),
{
}

/// A reduced constraint: at most one term per slot and one operation.
#[derive(Debug, PartialEq)]
pub struct ReducedConstraint<const P: u64> {
    pub a: Option<Term<P>>,
    pub b: Option<Term<P>>,
    pub c: Option<Term<P>>,
    pub operation: Operation,
}

/// The reduced constraint of slots holding at most one term each.
pub open spec fn reduced_of<const P: u64>(s: Slots<P>, op: Operation) -> ReducedConstraint<P> {
    ReducedConstraint {
        a: if s.0.len() > 0 {
            Some(s.0[0])
        } else {
            None
        },
        b: if s.1.len() > 0 {
            Some(s.1[0])
        } else {
            None
        },
        c: if s.2.len() > 0 {
            Some(s.2[0])
        } else {
            None
        },
        operation: op,
    }
}

/// An R1CS constraint `A . B = C`, each slot a sum of terms.
#[derive(Clone, Debug, PartialEq)]
pub struct Constraint<const P: u64> {
    pub a: Vec<Term<P>>,
    pub b: Vec<Term<P>>,
    pub c: Vec<Term<P>>,
    operation: Operation,
}

impl<const P: u64> Constraint<P> {
    /// The three slots.
    pub closed spec fn slots(self) -> Slots<P> {
        (self.a@, self.b@, self.c@)
    }

    /// The operation.
    pub closed spec fn op(self) -> Operation {
        self.operation
    }

    /// A new constraint; multiplication when both `A` and `B` hold terms, addition otherwise.
    pub fn new(a: Vec<Term<P>>, b: Vec<Term<P>>, c: Vec<Term<P>>) -> (r: Self)
        ensures
            r.slots() == (a@, b@, c@),
            r.op() == initial_operation(a@, b@),
    {
        let operation = if a.len() == 0 || b.len() == 0 {
            Operation::Add
        } else {
            Operation::Mul
        };
        Constraint { a, b, c, operation }
    }

    /// The operation.
    pub fn operation(&self) -> (r: Operation)
        ensures
            r == self.op(),
    {
        self.operation
    }

    /// The terms of slot `name`.
    pub fn slot(&self, name: SlotName) -> (r: &Vec<Term<P>>)
        ensures
            r@ == slot_of(self.slots(), name),
    {
        match name {
            SlotName::A => &self.a,
            SlotName::B => &self.b,
            SlotName::C => &self.c,
        }
    }

    /// Total number of terms.
    pub fn terms_count(&self) -> (r: usize)
        requires
            slots_count(self.slots()) <= usize::MAX,
        ensures
            r == slots_count(self.slots()),
    {
        self.a.len() + self.b.len() + self.c.len()
    }

    /// Whether the constraint needs simplification before it can become a reduced constraint.
    pub fn can_simplify(&self) -> (r: bool)
        requires
            slots_count(self.slots()) <= usize::MAX,
        ensures
            r == can_simplify_spec(self.slots()),
    {
        let has_more_than_one_term_in_a_slot = self.a.len() > 1 || self.b.len() > 1 || self.c.len()
            > 1;
        self.terms_count() > 3 || has_more_than_one_term_in_a_slot
    }

    /// Whether a term can move from a crowded slot to an empty one (never for multiplication).
    pub fn should_rearrange_terms(&self) -> (r: bool)
        ensures
            r == should_rearrange_spec(self.slots(), self.op()),
    {
        if self.operation == Operation::Mul {
            return false;
        }
        if self.a.len() <= 1 && self.b.len() <= 1 && self.c.len() <= 1 {
            return false;
        }
        self.a.len() == 0 || self.b.len() == 0 || self.c.len() == 0
    }

    /// The first empty slot and its side of the equation (`Right` when there is none).
    pub fn get_empty_slot(&self) -> (r: (Option<SlotName>, EquationDirection))
        ensures
            r.0 == empty_slot(self.slots()),
            r.1 == match empty_slot(self.slots()) {
                Some(n) => direction(n),
                None => EquationDirection::Right,
            },
    {
        if self.a.len() == 0 {
            (Some(SlotName::A), EquationDirection::Left)
        } else if self.b.len() == 0 {
            (Some(SlotName::B), EquationDirection::Left)
        } else if self.c.len() == 0 {
            (Some(SlotName::C), EquationDirection::Right)
        } else {
            (None, EquationDirection::Right)
        }
    }

    /// Remove the last term of the first slot holding more than one, with that
    /// slot's side of the equation (`None`, `Right` when there is none).
    pub fn get_movable_term(&mut self) -> (r: (Option<Term<P>>, EquationDirection))
        ensures
            final(self).op() == old(self).op(),
            match crowded_slot(old(self).slots()) {
                Some(n) => {
                    &&& r.0 == Some(slot_of(old(self).slots(), n).last())
                    &&& r.1 == direction(n)
                    &&& final(self).slots() == with_slot(
                        old(self).slots(),
                        n,
                        slot_of(old(self).slots(), n).drop_last(),
                    )
                },
                None => r == (None::<Term<P>>, EquationDirection::Right) && final(self).slots() == old(
                    self,
                ).slots(),
            },
    {
        if self.a.len() > 1 {
            (self.a.pop(), EquationDirection::Left)
        } else if self.b.len() > 1 {
            (self.b.pop(), EquationDirection::Left)
        } else if self.c.len() > 1 {
            (self.c.pop(), EquationDirection::Right)
        } else {
            (None, EquationDirection::Right)
        }
    }

    /// Remove the last two terms of the first slot holding more than one: the
    /// last term first, then the one before it, with the slot they came from.
    pub fn get_mergeable_terms(&mut self) -> (r: Option<([Term<P>; 2], SlotName)>)
        ensures
            final(self).op() == old(self).op(),
            match crowded_slot(old(self).slots()) {
                Some(n) => {
                    let v = slot_of(old(self).slots(), n);
                    &&& r matches Some(x) && x.0[0] == v.last() && x.0[1] == v[v.len() - 2] && x.1 == n
                    &&& final(self).slots() == with_slot(old(self).slots(), n, v.subrange(0, v.len() - 2))
                },
                None => r is None && final(self).slots() == old(self).slots(),
            },
    {
        if self.a.len() > 1 {
            let first = self.a.pop().unwrap();
            let second = self.a.pop().unwrap();
            proof {
                assert(self.a@ =~= old(self).a@.subrange(0, old(self).a@.len() - 2));
            }
            Some(([first, second], SlotName::A))
        } else if self.b.len() > 1 {
            let first = self.b.pop().unwrap();
            let second = self.b.pop().unwrap();
            proof {
                assert(self.b@ =~= old(self).b@.subrange(0, old(self).b@.len() - 2));
            }
            Some(([first, second], SlotName::B))
        } else if self.c.len() > 1 {
            let first = self.c.pop().unwrap();
            let second = self.c.pop().unwrap();
            proof {
                assert(self.c@ =~= old(self).c@.subrange(0, old(self).c@.len() - 2));
            }
            Some(([first, second], SlotName::C))
        } else {
            None
        }
    }

    /// Push a term onto slot `name`.
    fn push_to(&mut self, name: SlotName, term: Term<P>)
        ensures
            final(self).op() == old(self).op(),
            final(self).slots() == with_slot(old(self).slots(), name, slot_of(old(self).slots(), name).push(term)),
    {
        match name {
            SlotName::A => self.a.push(term),
            SlotName::B => self.b.push(term),
            SlotName::C => self.c.push(term),
        }
    }

    /// Move terms from crowded slots to empty ones while possible.
    pub fn rearrange_terms(&mut self)
        requires
            1 < P,
        ensures
            final(self).op() == old(self).op(),
            final(self).slots() == rearranged(old(self).slots(), old(self).op()),
    {
        while self.should_rearrange_terms()
            invariant
                1 < P,
                self.op() == old(self).op(),
                rearranged(self.slots(), self.op()) == rearranged(old(self).slots(), old(self).op()),
            decreases empty_count(self.slots()),
        {
            let ghost s = self.slots();
            proof {
                lemma_rearrange_step_decreases(s, self.op());
            }
            let (term, term_location) = self.get_movable_term();
            let (empty, slot_location) = self.get_empty_slot();
            let t = term.unwrap();
            let to = empty.unwrap();
            let moved_term = if slot_location == term_location {
                t
            } else {
                t.negate()
            };
            self.push_to(to, moved_term);
            proof {
                assert(self.slots() == rearrange_step(s));
            }
        }
    }

    /// The largest variable index of any term (zero when there is none).
    pub fn max_index(&self) -> (r: usize)
        ensures
            r == max_of3(max_index_of(self.slots().0), max_index_of(self.slots().1), max_index_of(self.slots().2)),
    {
        let ma = max_term_index(&self.a);
        let mb = max_term_index(&self.b);
        let mc = max_term_index(&self.c);
        let m = if ma >= mb {
            ma
        } else {
            mb
        };
        if m >= mc {
            m
        } else {
            mc
        }
    }
}

/// The largest variable index among `terms` (zero when there is none).
pub open spec fn max_index_of<const P: u64>(terms: Seq<Term<P>>) -> usize
    decreases terms.len(),
{
    if terms.len() == 0 {
        0
    } else {
        let m = max_index_of(terms.drop_last());
        if terms.last().0 >= m {
            terms.last().0
        } else {
            m
        }
    }
}

/// The largest of three indexes.
pub open spec fn max_of3(a: usize, b: usize, c: usize) -> usize {
    let m = if a >= b {
        a
    } else {
        b
    };
    if m >= c {
        m
    } else {
        c
    }
}

fn max_term_index<const P: u64>(terms: &Vec<Term<P>>) -> (r: usize)
    ensures
        r == max_index_of(terms@),
{
    let mut m: usize = 0;
    let mut i: usize = 0;
    while i < terms.len()
        invariant
            i <= terms@.len(),
            m == max_index_of(terms@.subrange(0, i as int)),
        decreases terms@.len() - i,
    {
        proof {
            assert(terms@.subrange(0, i + 1).drop_last() =~= terms@.subrange(0, i as int));
        }
        if terms[i].0 >= m {
            m = terms[i].0;
        }
        i = i + 1;
    }
    proof {
        assert(terms@.subrange(0, terms@.len() as int) =~= terms@);
    }
    m
}

/// Push `term` onto `slot`, negated when it crosses the equal sign.
pub fn move_term_to_slot<const P: u64>(term: Term<P>, slot: &mut Vec<Term<P>>, same_direction: bool)
    requires
        1 < P,
    ensures
        final(slot)@ == old(slot)@.push(
            if same_direction {
                term
            } else {
                negate_spec(term)
            },
        ),
{
    let t = if !same_direction {
        term.negate()
    } else {
        term
    };
    slot.push(t);
}

impl<const P: u64> ReducedConstraint<P> {
    /// The reduced constraint of a constraint holding at most one term per slot.
    pub fn try_from(value: &Constraint<P>) -> (r: Result<Self, &'static str>)
        ensures
            r is Ok <==> (value.slots().0.len() <= 1 && value.slots().1.len() <= 1
                && value.slots().2.len() <= 1),
            r matches Ok(x) ==> x == reduced_of(value.slots(), value.op()),
    {
        if value.a.len() > 1 || value.b.len() > 1 || value.c.len() > 1 {
            return Err("can only convert constraints that have at most 1 value for A, B and C");
        }
        let a = if value.a.len() > 0 {
            Some(value.a[0])
        } else {
            None
        };
        let b = if value.b.len() > 0 {
            Some(value.b[0])
        } else {
            None
        };
        let c = if value.c.len() > 0 {
            Some(value.c[0])
        } else {
            None
        };
        Ok(ReducedConstraint { a, b, c, operation: value.operation })
    }
}

/// The index first paired with `key` in `entries`, if any.
pub open spec fn find_entry<const P: u64>(entries: Seq<((Term<P>, Term<P>), usize)>, key: (Term<P>, Term<P>)) -> Option<
    usize,
>
    decreases entries.len(),
{
    if entries.len() == 0 {
        None
    } else if entries[0].0 == key {
        Some(entries[0].1)
    } else {
        find_entry(entries.drop_first(), key)
    }
}

/// A symbol table as its entries and its last assigned variable index.
pub type TableState<const P: u64> = (Seq<((Term<P>, Term<P>), usize)>, usize);

/// The variable for the merge of `a` and `b`: the one recorded for `(a, b)` or
/// `(b, a)`, or else a fresh one after the last, recorded for `(a, b)`.
pub open spec fn assign_variable<const P: u64>(t: TableState<P>, a: Term<P>, b: Term<P>) -> (usize, TableState<P>) {
    match find_entry(t.0, (a, b)) {
        Some(i) => (i, t),
        None => match find_entry(t.0, (b, a)) {
            Some(i) => (i, t),
            None => ((t.1 + 1) as usize, (t.0.push(((a, b), (t.1 + 1) as usize)), (t.1 + 1) as usize)),
        },
    }
}

/// Keeps track of the variables created for merged pairs of terms.
pub struct SymbolTable<const P: u64> {
    variable_map: Vec<((Term<P>, Term<P>), usize)>,
    pub last_variable_index: usize,
}

impl<const P: u64> SymbolTable<P> {
    /// The entries and the last assigned variable index.
    pub closed spec fn state(self) -> TableState<P> {
        (self.variable_map@, self.last_variable_index)
    }

    /// An empty table whose next variable follows `last_variable_index`.
    pub fn new(last_variable_index: usize) -> (r: Self)
        ensures
            r.state() == (Seq::<((Term<P>, Term<P>), usize)>::empty(), last_variable_index),
    {
        SymbolTable { variable_map: Vec::new(), last_variable_index }
    }

    /// The last assigned variable index.
    pub fn last_index(&self) -> (r: usize)
        ensures
            r == self.state().1,
    {
        self.last_variable_index
    }

    /// The recorded pairs with their variables, in the order they were made.
    pub fn entries(&self) -> (r: &Vec<((Term<P>, Term<P>), usize)>)
        ensures
            r@ == self.state().0,
    {
        &self.variable_map
    }

    /// The number of recorded pairs.
    pub fn variable_count(&self) -> (r: usize)
        ensures
            r == self.state().0.len(),
    {
        self.variable_map.len()
    }

    /// The index recorded for `key`, if any.
    fn find(&self, key: (Term<P>, Term<P>)) -> (r: Option<usize>)
        ensures
            r == find_entry(self.variable_map@, key),
    {
        let mut i: usize = 0;
        proof {
            assert(self.variable_map@.subrange(0, self.variable_map@.len() as int) =~= self.variable_map@);
        }
        while i < self.variable_map.len()
            invariant
                i <= self.variable_map@.len(),
                find_entry(self.variable_map@, key) == find_entry(
                    self.variable_map@.subrange(i as int, self.variable_map@.len() as int),
                    key,
                ),
            decreases self.variable_map@.len() - i,
        {
            let entry = &self.variable_map[i];
            proof {
                let rest = self.variable_map@.subrange(i as int, self.variable_map@.len() as int);
                assert(rest[0] == self.variable_map@[i as int]);
                assert(rest.drop_first() =~= self.variable_map@.subrange(i + 1, self.variable_map@.len() as int));
            }
            if entry.0.0 == key.0 && entry.0.1 == key.1 {
                return Some(entry.1);
            }
            i = i + 1;
        }
        None
    }

    /// The variable for the merge of `a` and `b`: reused when `(a, b)` or
    /// `(b, a)` was merged before, otherwise a new one after the last.
    pub fn get_variable_index(&mut self, a: Term<P>, b: Term<P>) -> (r: usize)
        requires
            old(self).state().1 < usize::MAX,
        ensures
            (r, final(self).state()) == assign_variable(old(self).state(), a, b),
    {
        if let Some(index) = self.find((a, b)) {
            index
        } else if let Some(index) = self.find((b, a)) {
            index
        } else {
            let index = self.last_variable_index + 1;
            self.variable_map.push(((a, b), index));
            self.last_variable_index = index;
            index
        }
    }
}

/// Merging pairs of terms until the constraint can be reduced: each merge takes
/// the last two terms of the first crowded slot, records a reduced constraint
/// `second + last = new` and puts the new variable's term in their place; the
/// remaining constraint comes last. Also returns the table afterwards.
pub open spec fn merge_steps<const P: u64>(s: Slots<P>, op: Operation, t: TableState<P>) -> (
    Seq<ReducedConstraint<P>>,
    TableState<P>,
)
    decreases slots_count(s),
{
    if can_simplify_spec(s) && crowded_slot(s) is Some {
        let n = crowded_slot(s)->0;
        let v = slot_of(s, n);
        let last = v.last();
        let second = v[v.len() - 2];
        let (idx, t2) = assign_variable(t, second, last);
        let out = Term(idx, Fp::<P>::spec_one());
        let next = with_slot(s, n, v.subrange(0, v.len() - 2).push(out));
        let (rest, t3) = merge_steps(next, op, t2);
        (
            seq![ReducedConstraint { a: Some(second), b: Some(last), c: Some(out), operation: Operation::Add }]
                + rest,
            t3,
        )
    } else {
        (seq![reduced_of(s, op)], t)
    }
}

/// Reducing a constraint: rearrange and merge when it needs simplification.
pub open spec fn reduce_spec<const P: u64>(s: Slots<P>, op: Operation, t: TableState<P>) -> (
    Seq<ReducedConstraint<P>>,
    TableState<P>,
) {
    if can_simplify_spec(s) {
        merge_steps(rearranged(s, op), op, t)
    } else {
        (seq![reduced_of(s, op)], t)
    }
}

/// Constraints that need simplification have a crowded slot.
pub proof fn lemma_crowded<const P: u64>(s: Slots<P>)
    requires
        can_simplify_spec(s),
    ensures
        crowded_slot(s) is Some,
{
}

/// Rearranging keeps the number of terms.
proof fn lemma_rearranged_count<const P: u64>(s: Slots<P>, op: Operation)
    ensures
        slots_count(rearranged(s, op)) == slots_count(s),
    decreases empty_count(s),
{
    if should_rearrange_spec(s, op) {
        lemma_rearrange_step_decreases(s, op);
        lemma_rearranged_count(rearrange_step(s), op);
    }
}

impl<const P: u64> Constraint<P> {
    /// Merge pairs of terms into new variables until at most one term per slot
    /// is left; returns the merge constraints followed by what remains.
    pub fn reduce_into_multiple_constraints(self, symbol_table: &mut SymbolTable<P>) -> (r: Vec<
        ReducedConstraint<P>,
    >)
        requires
            1 < P,
            old(symbol_table).state().1 + slots_count(self.slots()) <= usize::MAX,
        ensures
            (r@, final(symbol_table).state()) == merge_steps(self.slots(), self.op(), old(symbol_table).state()),
    {
        let mut this = self;
        let mut reduced_constraints: Vec<ReducedConstraint<P>> = Vec::new();
        let ghost total = merge_steps(self.slots(), self.op(), old(symbol_table).state());
        while this.can_simplify()
            invariant
                1 < P,
                this.op() == self.op(),
                symbol_table.state().1 + slots_count(this.slots()) <= usize::MAX,
                total == ({
                    let (rest, t) = merge_steps(this.slots(), this.op(), symbol_table.state());
                    (reduced_constraints@ + rest, t)
                }),
            decreases slots_count(this.slots()),
        {
            let ghost s = this.slots();
            let ghost t0 = symbol_table.state();
            proof {
                lemma_crowded(s);
            }
            let (mergeable_terms, slot) = this.get_mergeable_terms().unwrap();
            let variable_index = symbol_table.get_variable_index(mergeable_terms[1], mergeable_terms[0]);
            let output_term = Term(variable_index, Fp::one());
            let ghost before = reduced_constraints@;
            reduced_constraints.push(
                ReducedConstraint {
                    a: Some(mergeable_terms[1]),
                    b: Some(mergeable_terms[0]),
                    c: Some(output_term),
                    operation: Operation::Add,
                },
            );
            this.push_to(slot, output_term);
            proof {
                let v = slot_of(s, slot);
                assert(v.subrange(0, v.len() - 2).push(output_term) =~= v.subrange(0, v.len() - 2).push(
                    output_term,
                ));
                let (rest, t) = merge_steps(this.slots(), this.op(), symbol_table.state());
                assert(before + (seq![ReducedConstraint { a: Some(v[v.len() - 2]), b: Some(v.last()), c: Some(output_term), operation: Operation::Add }] + rest)
                    =~= reduced_constraints@ + rest);
            }
        }
        let last = ReducedConstraint::try_from(&this).unwrap();
        let ghost before = reduced_constraints@;
        reduced_constraints.push(last);
        proof {
            assert(before + seq![last] =~= reduced_constraints@);
        }
        reduced_constraints
    }

    /// Reduce a constraint into reduced constraints: a constraint that needs
    /// simplification is rearranged, then its terms are merged into new variables.
    pub fn reduce(self, symbol_table: &mut SymbolTable<P>) -> (r: Vec<ReducedConstraint<P>>)
        requires
            1 < P,
            old(symbol_table).state().1 + slots_count(self.slots()) <= usize::MAX,
        ensures
            (r@, final(symbol_table).state()) == reduce_spec(self.slots(), self.op(), old(symbol_table).state()),
    {
        let mut this = self;
        if this.can_simplify() {
            this.rearrange_terms();
            proof {
                lemma_rearranged_count(self.slots(), self.op());
            }
            this.reduce_into_multiple_constraints(symbol_table)
        } else {
            let reduced = ReducedConstraint::try_from(&this).unwrap();
            let mut out: Vec<ReducedConstraint<P>> = Vec::new();
            out.push(reduced);
            proof {
                assert(out@ =~= seq![reduced]);
            }
            out
        }
    }
}

/// Merging raises the last variable index by at most the number of terms.
proof fn lemma_merge_growth<const P: u64>(s: Slots<P>, op: Operation, t: TableState<P>)
    requires
        t.1 + slots_count(s) <= usize::MAX,
    ensures
        t.1 <= merge_steps(s, op, t).1.1 <= t.1 + slots_count(s),
    decreases slots_count(s),
{
    if can_simplify_spec(s) && crowded_slot(s) is Some {
        let n = crowded_slot(s)->0;
        let v = slot_of(s, n);
        let (idx, t2) = assign_variable(t, v[v.len() - 2], v.last());
        let out = Term(idx, Fp::<P>::spec_one());
        let next = with_slot(s, n, v.subrange(0, v.len() - 2).push(out));
        lemma_merge_growth(next, op, t2);
    }
}

/// Reducing raises the last variable index by at most the number of terms.
proof fn lemma_reduce_growth<const P: u64>(s: Slots<P>, op: Operation, t: TableState<P>)
    requires
        t.1 + slots_count(s) <= usize::MAX,
    ensures
        t.1 <= reduce_spec(s, op, t).1.1 <= t.1 + slots_count(s),
{
    if can_simplify_spec(s) {
        lemma_rearranged_count(s, op);
        lemma_merge_growth(rearranged(s, op), op, t);
    }
}

/// The number of terms over all constraints.
pub open spec fn total_terms<const P: u64>(cs: Seq<Constraint<P>>) -> nat
    decreases cs.len(),
{
    if cs.len() == 0 {
        0
    } else {
        total_terms(cs.drop_last()) + slots_count(cs.last().slots())
    }
}

/// Reducing the constraints in order with one table: the reduced constraints
/// one after another, and the table afterwards.
pub open spec fn compile_fold<const P: u64>(cs: Seq<Constraint<P>>, t: TableState<P>) -> (
    Seq<ReducedConstraint<P>>,
    TableState<P>,
)
    decreases cs.len(),
{
    if cs.len() == 0 {
        (Seq::empty(), t)
    } else {
        let (r1, t1) = compile_fold(cs.drop_last(), t);
        let (r2, t2) = reduce_spec(cs.last().slots(), cs.last().op(), t1);
        (r1 + r2, t2)
    }
}

/// The largest variable index over all constraints (zero when there is none).
pub open spec fn program_max_index<const P: u64>(cs: Seq<Constraint<P>>) -> usize
    decreases cs.len(),
{
    if cs.len() == 0 {
        0
    } else {
        let m = program_max_index(cs.drop_last());
        let here = max_of3(
            max_index_of(cs.last().slots().0),
            max_index_of(cs.last().slots().1),
            max_index_of(cs.last().slots().2),
        );
        if here >= m {
            here
        } else {
            m
        }
    }
}

/// Compiling raises the last variable index by at most the number of terms.
proof fn lemma_compile_growth<const P: u64>(cs: Seq<Constraint<P>>, t: TableState<P>)
    requires
        t.1 + total_terms(cs) <= usize::MAX,
    ensures
        t.1 <= compile_fold(cs, t).1.1 <= t.1 + total_terms(cs),
    decreases cs.len(),
{
    if cs.len() > 0 {
        lemma_compile_growth(cs.drop_last(), t);
        let t1 = compile_fold(cs.drop_last(), t).1;
        lemma_reduce_growth(cs.last().slots(), cs.last().op(), t1);
    }
}

/// An R1CS program: a list of constraints.
#[derive(Clone)]
pub struct R1CSProgram<const P: u64> {
    constraints: Vec<Constraint<P>>,
}

impl<const P: u64> R1CSProgram<P> {
    /// The constraints.
    pub closed spec fn constraints_spec(self) -> Seq<Constraint<P>> {
        self.constraints@
    }

    /// A program from its constraints.
    pub fn new(constraints: Vec<Constraint<P>>) -> (r: Self)
        ensures
            r.constraints_spec() == constraints@,
    {
        R1CSProgram { constraints }
    }

    /// The highest index of any variable (zero when there is none).
    pub fn get_last_variable_index(&self) -> (r: usize)
        ensures
            r == program_max_index(self.constraints_spec()),
    {
        let mut m: usize = 0;
        let mut i: usize = 0;
        while i < self.constraints.len()
            invariant
                i <= self.constraints@.len(),
                m == program_max_index(self.constraints@.subrange(0, i as int)),
            decreases self.constraints@.len() - i,
        {
            proof {
                assert(self.constraints@.subrange(0, i + 1).drop_last() =~= self.constraints@.subrange(0, i as int));
            }
            let here = self.constraints[i].max_index();
            if here >= m {
                m = here;
            }
            i = i + 1;
        }
        proof {
            assert(self.constraints@.subrange(0, self.constraints@.len() as int) =~= self.constraints@);
        }
        m
    }

    /// Compile the constraints into reduced constraints, with the symbol table
    /// of the variables the reduction introduced.
    pub fn compile(self) -> (r: (Vec<ReducedConstraint<P>>, SymbolTable<P>))
        requires
            1 < P,
            program_max_index(self.constraints_spec()) + total_terms(self.constraints_spec()) <= usize::MAX,
        ensures
            (r.0@, r.1.state()) == compile_fold(
                self.constraints_spec(),
                (Seq::<((Term<P>, Term<P>), usize)>::empty(), program_max_index(self.constraints_spec())),
            ),
    {
        let mut symbol_table = SymbolTable::new(self.get_last_variable_index());
        let ghost t0 = symbol_table.state();
        let ghost cs = self.constraints@;
        let mut reduced_constraints: Vec<ReducedConstraint<P>> = Vec::new();
        let _count = self.constraints.len();
        let mut remaining = self.constraints;
        let mut reversed: Vec<Constraint<P>> = Vec::new();
        while remaining.len() > 0
            invariant
                cs.len() <= usize::MAX,
                reversed@.len() + remaining@.len() == cs.len(),
                remaining@ == cs.subrange(0, remaining@.len() as int),
                forall|j: int| 0 <= j < reversed@.len() ==> #[trigger] reversed@[j] == cs[cs.len() - 1 - j],
            decreases remaining@.len(),
        {
            let c = remaining.pop().unwrap();
            reversed.push(c);
        }
        let mut done: usize = 0;
        while reversed.len() > 0
            invariant
                1 < P,
                cs.len() <= usize::MAX,
                done + reversed@.len() == cs.len(),
                forall|j: int| 0 <= j < reversed@.len() ==> #[trigger] reversed@[j] == cs[cs.len() - 1 - j],
                t0.1 + total_terms(cs) <= usize::MAX,
                (reduced_constraints@, symbol_table.state()) == compile_fold(cs.subrange(0, done as int), t0),
            decreases reversed@.len(),
        {
            let c = reversed.pop().unwrap();
            proof {
                assert(c == cs[done as int]);
                let pre = cs.subrange(0, done as int);
                assert(cs.subrange(0, done + 1).drop_last() =~= pre);
                lemma_total_prefix(cs, (done + 1) as nat);
                lemma_compile_growth(pre, t0);
                lemma_total_prefix(cs, done as nat);
            }
            let out = c.reduce(&mut symbol_table);
            let mut k: usize = 0;
            let ghost before = reduced_constraints@;
            while k < out.len()
                invariant
                    k <= out@.len(),
                    reduced_constraints@ == before + out@.subrange(0, k as int),
                decreases out@.len() - k,
            {
                let item = &out[k];
                let copy = ReducedConstraint { a: item.a, b: item.b, c: item.c, operation: item.operation };
                reduced_constraints.push(copy);
                proof {
                    assert(out@.subrange(0, k + 1) =~= out@.subrange(0, k as int).push(out@[k as int]));
                }
                k = k + 1;
            }
            proof {
                assert(out@.subrange(0, out@.len() as int) =~= out@);
            }
            done = done + 1;
        }
        proof {
            assert(cs.subrange(0, cs.len() as int) =~= cs);
        }
        (reduced_constraints, symbol_table)
    }
}

/// The terms of a prefix are at most the terms of the whole.
proof fn lemma_total_prefix<const P: u64>(cs: Seq<Constraint<P>>, k: nat)
    requires
        k <= cs.len(),
    ensures
        total_terms(cs.subrange(0, k as int)) <= total_terms(cs),
        k > 0 ==> total_terms(cs.subrange(0, k as int)) == total_terms(cs.subrange(0, k - 1)) + slots_count(cs[k - 1].slots()),
    decreases cs.len() - k,
{
    if k > 0 {
        assert(cs.subrange(0, k as int).drop_last() =~= cs.subrange(0, k - 1));
    }
    if k < cs.len() {
        lemma_total_prefix(cs, k + 1);
        assert(cs.subrange(0, (k + 1) as int).drop_last() =~= cs.subrange(0, k as int));
    } else {
        assert(cs.subrange(0, k as int) =~= cs);
    }
}

} // verus!
