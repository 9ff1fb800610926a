//! Literals and clauses of at most three literals.

use vstd::prelude::*;
use crate::assignment::extends;

verus! {

/// A variable with a polarity and two marks of the decision engine.
///
/// `value` is the truth value of the variable that makes the literal true.
/// The marks do not change what the literal means.
#[derive(Clone, Copy, Debug, PartialEq, Eq, Structural)]
pub struct Literal {
    pub index: usize,
    pub value: bool,
    pub implicated: bool,
    pub assigned: bool,
}

/// The implication "if `from` holds then `to` holds".
#[derive(Clone, Copy, Debug, PartialEq, Eq, Structural)]
pub struct Implication {
    pub from: Literal,
    pub to: Literal,
}

/// A disjunction of at most three literals. `Empty` is falsity.
///
/// The literals of a clause are meant to be on different variables. No
/// operation needs that, and what is made of such a clause is such a clause.
#[derive(Clone, Copy, Debug, PartialEq, Eq, Structural)]
pub enum Clause {
    C3(Literal, Literal, Literal),
    C2(Literal, Literal),
    C1(Literal),
    Empty,
}

// What the values mean.

impl Literal {
    /// The literal as a signed number: the variable counted from one, negative
    /// for a literal that wants its variable false.
    pub open spec fn code(self) -> int {
        if self.value {
            self.index + 1
        } else {
            -(self.index + 1)
        }
    }

    /// The unmarked literal that a nonzero signed number stands for.
    pub open spec fn of_code(v: int) -> Literal {
        Literal {
            index: (if v > 0 { v - 1 } else { -v - 1 }) as usize,
            value: v > 0,
            implicated: false,
            assigned: false,
        }
    }

    /// The literal is true under the total assignment `t`.
    pub open spec fn holds(self, t: Seq<bool>) -> bool {
        t[self.index as int] == self.value
    }

    /// The literal is true under the partial assignment `a`.
    pub open spec fn true_under(self, a: Seq<Option<bool>>) -> bool {
        a[self.index as int] == Some(self.value)
    }

    /// The partial assignment `a` leaves the literal's variable unset.
    pub open spec fn free_under(self, a: Seq<Option<bool>>) -> bool {
        a[self.index as int] is None
    }

    /// The literal is on variable `v` with polarity `value`.
    pub open spec fn is_on(self, v: usize, value: bool) -> bool {
        self.index == v && self.value == value
    }

    /// One for a literal marked false, zero for another.
    pub open spec fn marked(l: Literal) -> int {
        if l.assigned {
            1
        } else {
            0
        }
    }

    /// The literal is on variable `v` and not marked false.
    pub open spec fn open_on(self, v: usize) -> bool {
        self.index == v && !self.assigned
    }

    /// The test for a literal that `a` leaves free.
    pub open spec fn is_free(a: Seq<Option<bool>>) -> spec_fn(Literal) -> bool {
        |l: Literal| l.free_under(a)
    }

    /// The test for a literal that is not marked false.
    pub open spec fn is_open() -> spec_fn(Literal) -> bool {
        |l: Literal| !l.assigned
    }

    /// `other` marked by the forced literal `self`: unchanged on another
    /// variable, marked true on equal polarity, marked false otherwise.
    pub open spec fn stamp(self, other: Literal) -> Literal {
        if other.index != self.index {
            other
        } else if other.value == self.value {
            Literal { implicated: true, ..other }
        } else {
            Literal { assigned: true, ..other }
        }
    }
}

impl Clause {
    /// The literals of the clause, in order.
    pub open spec fn literals(self) -> Seq<Literal> {
        match self {
            Clause::C3(l1, l2, l3) => seq![l1, l2, l3],
            Clause::C2(l1, l2) => seq![l1, l2],
            Clause::C1(l1) => seq![l1],
            Clause::Empty => seq![],
        }
    }

    /// The clause of the first three literals of `lits`.
    pub open spec fn with_literals(lits: Seq<Literal>) -> Clause {
        if lits.len() == 0 {
            Clause::Empty
        } else if lits.len() == 1 {
            Clause::C1(lits[0])
        } else if lits.len() == 2 {
            Clause::C2(lits[0], lits[1])
        } else {
            Clause::C3(lits[0], lits[1], lits[2])
        }
    }

    /// The number of literals.
    pub open spec fn width(self) -> nat {
        match self {
            Clause::C3(_, _, _) => 3,
            Clause::C2(_, _) => 2,
            Clause::C1(_) => 1,
            Clause::Empty => 0,
        }
    }

    /// Every variable of the clause is below `n`.
    pub open spec fn bounded(self, n: nat) -> bool {
        match self {
            Clause::C3(l1, l2, l3) => l1.index < n && l2.index < n && l3.index < n,
            Clause::C2(l1, l2) => l1.index < n && l2.index < n,
            Clause::C1(l1) => l1.index < n,
            Clause::Empty => true,
        }
    }

    /// The place of the first literal on variable `index`.
    pub open spec fn find(self, index: usize) -> Option<int> {
        let lits = self.literals();
        if lits.len() > 0 && lits[0].index == index {
            Some(0)
        } else if lits.len() > 1 && lits[1].index == index {
            Some(1)
        } else if lits.len() > 2 && lits[2].index == index {
            Some(2)
        } else {
            None
        }
    }

    /// The truth value of the clause under the total assignment `t`.
    pub open spec fn spec_eval(self, t: Seq<bool>) -> bool {
        match self {
            Clause::C3(l1, l2, l3) => l1.holds(t) || l2.holds(t) || l3.holds(t),
            Clause::C2(l1, l2) => l1.holds(t) || l2.holds(t),
            Clause::C1(l1) => l1.holds(t),
            Clause::Empty => false,
        }
    }

    /// Some literal of the clause is true under the partial assignment `a`.
    pub open spec fn satisfied_under(self, a: Seq<Option<bool>>) -> bool {
        match self {
            Clause::C3(l1, l2, l3) => l1.true_under(a) || l2.true_under(a) || l3.true_under(a),
            Clause::C2(l1, l2) => l1.true_under(a) || l2.true_under(a),
            Clause::C1(l1) => l1.true_under(a),
            Clause::Empty => false,
        }
    }

    /// The literals whose variable the partial assignment `a` leaves unset, in order.
    pub open spec fn free_literals(self, a: Seq<Option<bool>>) -> Seq<Literal> {
        self.literals().filter(Literal::is_free(a))
    }

    /// What is left of the clause under the partial assignment `a`: nothing
    /// where a literal is true, else the clause of the literals still free.
    pub open spec fn spec_reduce(self, a: Seq<Option<bool>>) -> Option<Clause> {
        if self.satisfied_under(a) {
            None
        } else {
            Some(Clause::with_literals(self.free_literals(a)))
        }
    }

    /// A clause of two or one literals with a literal marked as derived.
    pub open spec fn spec_is_implicated(self) -> bool {
        match self {
            Clause::C2(l1, l2) => l1.implicated || l2.implicated,
            Clause::C1(l1) => l1.implicated,
            _ => false,
        }
    }

    /// Some literal carries the mark of a true literal.
    pub open spec fn marked_true(self) -> bool {
        match self {
            Clause::C3(l1, l2, l3) => l1.implicated || l2.implicated || l3.implicated,
            Clause::C2(l1, l2) => l1.implicated || l2.implicated,
            Clause::C1(l1) => l1.implicated,
            Clause::Empty => false,
        }
    }

    /// What the marks leave of the clause: nothing where a literal is marked
    /// true, else the clause of the literals not marked false.
    pub open spec fn spec_adapt(self) -> Option<Clause> {
        if self.marked_true() {
            None
        } else {
            Some(Clause::with_literals(self.literals().filter(Literal::is_open())))
        }
    }

    /// The largest variable of the clause, zero for the empty clause.
    pub open spec fn spec_max_literal(self) -> usize {
        match self {
            Clause::C3(l1, l2, l3) => {
                if l1.index > l2.index {
                    if l1.index > l3.index { l1.index } else { l3.index }
                } else {
                    if l2.index > l3.index { l2.index } else { l3.index }
                }
            },
            Clause::C2(l1, l2) => if l1.index > l2.index { l1.index } else { l2.index },
            Clause::C1(l1) => l1.index,
            Clause::Empty => 0,
        }
    }

    /// The number of variables that the clause needs: one more than its
    /// largest variable, zero for the empty clause.
    pub open spec fn spec_vars(self) -> nat {
        if self is Empty {
            0
        } else {
            (self.spec_max_literal() + 1) as nat
        }
    }

    /// The clause with `f` applied to each literal.
    pub open spec fn map(self, f: spec_fn(Literal) -> Literal) -> Clause {
        match self {
            Clause::C3(l1, l2, l3) => Clause::C3(f(l1), f(l2), f(l3)),
            Clause::C2(l1, l2) => Clause::C2(f(l1), f(l2)),
            Clause::C1(l1) => Clause::C1(f(l1)),
            Clause::Empty => Clause::Empty,
        }
    }

    /// The clause with the polarity of every literal on variable `index` flipped.
    pub open spec fn spec_invert(self, index: usize) -> Clause {
        self.map(|l: Literal| if l.index == index { Literal { value: !l.value, ..l } } else { l })
    }

    /// The clause with every literal on the variable of `lit` marked: as true
    /// where the polarities agree, as false where they differ.
    pub open spec fn spec_stamp(self, lit: Literal) -> Clause {
        self.map(|l: Literal| lit.stamp(l))
    }

    /// Some literal on variable `v` is not marked false.
    pub open spec fn open_on(self, v: usize) -> bool {
        match self {
            Clause::C3(l1, l2, l3) => l1.open_on(v) || l2.open_on(v) || l3.open_on(v),
            Clause::C2(l1, l2) => l1.open_on(v) || l2.open_on(v),
            Clause::C1(l1) => l1.open_on(v),
            Clause::Empty => false,
        }
    }

    /// The clause has at least two literals, one of them on variable `v` with
    /// polarity `value`.
    pub open spec fn shows(self, v: usize, value: bool) -> bool {
        match self {
            Clause::C3(l1, l2, l3) => l1.is_on(v, value) || l2.is_on(v, value) || l3.is_on(v, value),
            Clause::C2(l1, l2) => l1.is_on(v, value) || l2.is_on(v, value),
            _ => false,
        }
    }

    /// All literals of the clause but one are marked false, so that the
    /// clause forces the one that is left; a unit clause always does.
    pub open spec fn forcing(self) -> bool {
        match self {
            Clause::C3(l1, l2, l3) => Literal::marked(l1) + Literal::marked(l2) + Literal::marked(l3) == 2,
            Clause::C2(l1, l2) => Literal::marked(l1) + Literal::marked(l2) == 1,
            Clause::C1(_) => true,
            Clause::Empty => false,
        }
    }

    /// No two literals of the clause are on the same variable.
    pub open spec fn distinct(self) -> bool {
        match self {
            Clause::C3(l1, l2, l3) => l1.index != l2.index && l1.index != l3.index && l2.index != l3.index,
            Clause::C2(l1, l2) => l1.index != l2.index,
            _ => true,
        }
    }

    /// The partial assignment `a` leaves every variable of the clause unset.
    pub open spec fn clean(self, a: Seq<Option<bool>>) -> bool {
        match self {
            Clause::C3(l1, l2, l3) => l1.free_under(a) && l2.free_under(a) && l3.free_under(a),
            Clause::C2(l1, l2) => l1.free_under(a) && l2.free_under(a),
            Clause::C1(l1) => l1.free_under(a),
            Clause::Empty => true,
        }
    }

    /// Every literal of the clause is a literal of `other`.
    pub open spec fn within(self, other: Clause) -> bool {
        forall|k: int|
            0 <= k < self.literals().len() ==> other.literals().contains(#[trigger] self.literals()[k])
    }
}

/// The clause of the literals that `keep` accepts, case by case.
pub open spec fn kept(c: Clause, keep: spec_fn(Literal) -> bool) -> Clause {
    match c {
        Clause::Empty => Clause::Empty,
        Clause::C1(l1) => if keep(l1) { c } else { Clause::Empty },
        Clause::C2(l1, l2) => {
            if keep(l1) {
                if keep(l2) { c } else { Clause::C1(l1) }
            } else {
                if keep(l2) { Clause::C1(l2) } else { Clause::Empty }
            }
        },
        Clause::C3(l1, l2, l3) => {
            if keep(l1) {
                if keep(l2) {
                    if keep(l3) { c } else { Clause::C2(l1, l2) }
                } else {
                    if keep(l3) { Clause::C2(l1, l3) } else { Clause::C1(l1) }
                }
            } else {
                if keep(l2) {
                    if keep(l3) { Clause::C2(l2, l3) } else { Clause::C1(l2) }
                } else {
                    if keep(l3) { Clause::C1(l3) } else { Clause::Empty }
                }
            }
        },
    }
}

/// The unmarked literal on the auxiliary variable `index`.
pub open spec fn auxiliary(index: int, value: bool) -> Literal {
    Literal { index: index as usize, value, implicated: false, assigned: false }
}

/// Clause `j` of the chain that stands for a clause of more than three
/// literals, with auxiliary variables from `first` on. The first clause
/// holds the last two literals and an auxiliary; the last holds the negated
/// last auxiliary and the first two literals, in falling order; each clause
/// between holds the negated auxiliary before it, one literal and the next
/// auxiliary.
pub open spec fn chain_link(lits: Seq<Literal>, first: int, j: int) -> Clause {
    let k = lits.len() as int;
    if j == 0 {
        Clause::C3(lits[k - 1], lits[k - 2], auxiliary(first, true))
    } else if j == k - 3 {
        Clause::C3(auxiliary(first + k - 4, false), lits[1], lits[0])
    } else {
        Clause::C3(auxiliary(first + j - 1, false), lits[k - 2 - j], auxiliary(first + j, true))
    }
}

/// The clauses of at most three literals that stand for the clause of the
/// literals `lits`: the clause itself up to three literals, else a chain of
/// `k - 2` clauses over `k - 3` auxiliary variables from `first` on.
pub open spec fn chain(lits: Seq<Literal>, first: int) -> Seq<Clause> {
    if lits.len() <= 3 {
        seq![Clause::with_literals(lits)]
    } else {
        Seq::new((lits.len() - 2) as nat, |j: int| chain_link(lits, first, j))
    }
}

/// No literal of `lits` from place `from` on holds under `t`.
pub open spec fn none_hold_from(lits: Seq<Literal>, t: Seq<bool>, from: int) -> bool {
    forall|i: int| from <= i < lits.len() ==> !(#[trigger] lits[i]).holds(t)
}

/// Some literal of `lits` holds under `t`.
pub open spec fn any_holds(lits: Seq<Literal>, t: Seq<bool>) -> bool {
    !none_hold_from(lits, t, 0)
}

/// Every clause of the chain is true under `t`.
pub open spec fn chain_holds(lits: Seq<Literal>, first: int, t: Seq<bool>) -> bool {
    forall|j: int| 0 <= j < chain(lits, first).len() ==> (#[trigger] chain(lits, first)[j]).spec_eval(t)
}

/// The assignment over the variables below `first` and the auxiliary
/// variables of the chain that agrees with `t` below `first` and makes an
/// auxiliary variable true exactly if none of the literals in the clauses up
/// to its own holds.
pub open spec fn chain_model(lits: Seq<Literal>, first: int, t: Seq<bool>) -> Seq<bool> {
    let k = lits.len() as int;
    Seq::new(
        (if k > 3 { first + k - 3 } else { first }) as nat,
        |i: int| if i < first { t[i] } else { none_hold_from(lits, t, k - 2 - (i - first)) },
    )
}

// The operations.

impl Literal {
    /// The literal as a signed number, variables counted from one.
    pub fn as_isize(&self) -> (r: isize)
        requires
            self.index < isize::MAX,
        ensures
            r == self.code(),
    {
        if self.value {
            self.index as isize + 1
        } else {
            -(self.index as isize + 1)
        }
    }

    /// The unmarked literal for a nonzero signed number.
    pub fn from_isize(v: isize) -> (l: Literal)
        requires
            v != 0,
            v != isize::MIN,
        ensures
            l == Literal::of_code(v as int),
            l.code() == v,
            l.index < isize::MAX,
    {
        let magnitude: isize = if v > 0 { v } else { -v };
        Literal { index: magnitude as usize - 1, value: v > 0, implicated: false, assigned: false }
    }

    /// The literal is true under `values`.
    pub fn is_true_under(&self, values: &[Option<bool>]) -> (r: bool)
        requires
            self.index < values@.len(),
        ensures
            r == self.true_under(values@),
    {
        match values[self.index] {
            Some(v) => v == self.value,
            None => false,
        }
    }

    /// `values` leaves the literal's variable unset.
    pub fn is_free_under(&self, values: &[Option<bool>]) -> (r: bool)
        requires
            self.index < values@.len(),
        ensures
            r == self.free_under(values@),
    {
        match values[self.index] {
            Some(_) => false,
            None => true,
        }
    }

    /// The literal is true under the total assignment `values`.
    pub fn is_true(&self, values: &[bool]) -> (r: bool)
        requires
            self.index < values@.len(),
        ensures
            r == self.holds(values@),
    {
        values[self.index] == self.value
    }

    /// The literal with its polarity flipped if it is on variable `index`.
    pub fn inverted_on(self, index: usize) -> (r: Literal)
        ensures
            r == if self.index == index { Literal { value: !self.value, ..self } } else { self },
    {
        if self.index == index {
            Literal { index: self.index, value: !self.value, implicated: self.implicated, assigned: self.assigned }
        } else {
            self
        }
    }

    /// `other` as the forced literal `self` marks it.
    pub fn mark(&self, other: Literal) -> (r: Literal)
        ensures
            r == self.stamp(other),
    {
        if other.index != self.index {
            other
        } else if other.value == self.value {
            Literal { index: other.index, value: other.value, implicated: true, assigned: other.assigned }
        } else {
            Literal { index: other.index, value: other.value, implicated: other.implicated, assigned: true }
        }
    }
}

impl Clause {
    /// The clause of three unmarked literals given as nonzero signed numbers,
    /// variables counted from one.
    pub fn new_c3(v1: isize, v2: isize, v3: isize) -> (c: Clause)
        requires
            v1 != 0 && v1 != isize::MIN,
            v2 != 0 && v2 != isize::MIN,
            v3 != 0 && v3 != isize::MIN,
        ensures
            c == Clause::C3(
                Literal::of_code(v1 as int),
                Literal::of_code(v2 as int),
                Literal::of_code(v3 as int),
            ),
    {
        Clause::C3(Literal::from_isize(v1), Literal::from_isize(v2), Literal::from_isize(v3))
    }

    /// The clause of two unmarked literals given as nonzero signed numbers.
    pub fn new_c2(v1: isize, v2: isize) -> (c: Clause)
        requires
            v1 != 0 && v1 != isize::MIN,
            v2 != 0 && v2 != isize::MIN,
        ensures
            c == Clause::C2(Literal::of_code(v1 as int), Literal::of_code(v2 as int)),
    {
        Clause::C2(Literal::from_isize(v1), Literal::from_isize(v2))
    }

    /// The unit clause of the unmarked literal given as a nonzero signed number.
    pub fn new_c1(v1: isize) -> (c: Clause)
        requires
            v1 != 0 && v1 != isize::MIN,
        ensures
            c == Clause::C1(Literal::of_code(v1 as int)),
    {
        Clause::C1(Literal::from_isize(v1))
    }

    /// The unit clause of the literal given as a nonzero signed number, marked as derived.
    pub fn new_c1_implicated(v1: isize) -> (c: Clause)
        requires
            v1 != 0 && v1 != isize::MIN,
        ensures
            c == Clause::C1(Literal { implicated: true, ..Literal::of_code(v1 as int) }),
    {
        let l = Literal::from_isize(v1);
        Clause::C1(Literal { index: l.index, value: l.value, implicated: true, assigned: false })
    }

    /// The first literal on variable `index`, if there is one.
    pub fn get_literal(&self, index: usize) -> (r: Option<Literal>)
        ensures
            r == match self.find(index) {
                Some(k) => Some(self.literals()[k]),
                None => None,
            },
    {
        match self {
            Clause::C3(l1, l2, l3) => {
                if l1.index == index {
                    Some(*l1)
                } else if l2.index == index {
                    Some(*l2)
                } else if l3.index == index {
                    Some(*l3)
                } else {
                    None
                }
            },
            Clause::C2(l1, l2) => {
                if l1.index == index {
                    Some(*l1)
                } else if l2.index == index {
                    Some(*l2)
                } else {
                    None
                }
            },
            Clause::C1(l1) => {
                if l1.index == index {
                    Some(*l1)
                } else {
                    None
                }
            },
            Clause::Empty => None,
        }
    }

    /// Whether the clause was derived: it has at most two literals and one of
    /// them carries the mark.
    pub fn is_implicated(&self) -> (r: bool)
        ensures
            r == self.spec_is_implicated(),
    {
        match self {
            Clause::C2(l1, l2) => l1.implicated || l2.implicated,
            Clause::C1(l1) => l1.implicated,
            _ => false,
        }
    }

    /// The clause of the literals for which the flag at their place is set.
    fn select(&self, k1: bool, k2: bool, k3: bool, Ghost(keep): Ghost<spec_fn(Literal) -> bool>) -> (r: Clause)
        requires
            match *self {
                Clause::C3(l1, l2, l3) => k1 == keep(l1) && k2 == keep(l2) && k3 == keep(l3),
                Clause::C2(l1, l2) => k1 == keep(l1) && k2 == keep(l2),
                Clause::C1(l1) => k1 == keep(l1),
                Clause::Empty => true,
            },
        ensures
            r == Clause::with_literals(self.literals().filter(keep)),
    {
        proof {
            lemma_filter_literals(*self, keep);
        }
        match self {
            Clause::C3(l1, l2, l3) => {
                if k1 {
                    if k2 {
                        if k3 { *self } else { Clause::C2(*l1, *l2) }
                    } else {
                        if k3 { Clause::C2(*l1, *l3) } else { Clause::C1(*l1) }
                    }
                } else {
                    if k2 {
                        if k3 { Clause::C2(*l2, *l3) } else { Clause::C1(*l2) }
                    } else {
                        if k3 { Clause::C1(*l3) } else { Clause::Empty }
                    }
                }
            },
            Clause::C2(l1, l2) => {
                if k1 {
                    if k2 { *self } else { Clause::C1(*l1) }
                } else {
                    if k2 { Clause::C1(*l2) } else { Clause::Empty }
                }
            },
            Clause::C1(_) => if k1 { *self } else { Clause::Empty },
            Clause::Empty => Clause::Empty,
        }
    }

    /// The clause as its marks leave it: `None` where a literal is marked
    /// true, else the clause without the literals marked false.
    pub fn adapt(&self) -> (r: Option<Clause>)
        ensures
            r == self.spec_adapt(),
    {
        let open = Ghost(Literal::is_open());
        match self {
            Clause::C3(l1, l2, l3) => {
                if l1.implicated || l2.implicated || l3.implicated {
                    None
                } else {
                    Some(self.select(!l1.assigned, !l2.assigned, !l3.assigned, open))
                }
            },
            Clause::C2(l1, l2) => {
                if l1.implicated || l2.implicated {
                    None
                } else {
                    Some(self.select(!l1.assigned, !l2.assigned, false, open))
                }
            },
            Clause::C1(l1) => {
                if l1.implicated {
                    None
                } else {
                    Some(self.select(!l1.assigned, false, false, open))
                }
            },
            Clause::Empty => Some(Clause::Empty),
        }
    }

    /// The literals of the clause, in order.
    pub fn literals_vector(&self) -> (r: Vec<Literal>)
        ensures
            r@ == self.literals(),
    {
        let r = match self {
            Clause::C3(l1, l2, l3) => vec![*l1, *l2, *l3],
            Clause::C2(l1, l2) => vec![*l1, *l2],
            Clause::C1(l1) => vec![*l1],
            Clause::Empty => Vec::new(),
        };
        assert(r@ =~= self.literals());
        r
    }

    /// The literals of the clause, in order.
    pub fn get_variables(&self) -> (r: Vec<Literal>)
        ensures
            r@ == self.literals(),
    {
        self.literals_vector()
    }

    /// Whether every variable of the clause is below `n`.
    pub fn fits(&self, n: usize) -> (r: bool)
        ensures
            r == self.bounded(n as nat),
    {
        match self {
            Clause::Empty => true,
            _ => self.max_literal() < n,
        }
    }

    /// The largest variable of the clause, zero for the empty clause.
    pub fn max_literal(&self) -> (r: usize)
        ensures
            r == self.spec_max_literal(),
    {
        match self {
            Clause::C3(l1, l2, l3) => {
                if l1.index > l2.index {
                    if l1.index > l3.index { l1.index } else { l3.index }
                } else {
                    if l2.index > l3.index { l2.index } else { l3.index }
                }
            },
            Clause::C2(l1, l2) => if l1.index > l2.index { l1.index } else { l2.index },
            Clause::C1(l1) => l1.index,
            Clause::Empty => 0,
        }
    }

    /// The truth value of the clause under the total assignment `values`.
    pub fn eval(&self, values: &[bool]) -> (r: bool)
        requires
            self.bounded(values@.len()),
        ensures
            r == self.spec_eval(values@),
    {
        match self {
            Clause::C3(l1, l2, l3) => l1.is_true(values) || l2.is_true(values) || l3.is_true(values),
            Clause::C2(l1, l2) => l1.is_true(values) || l2.is_true(values),
            Clause::C1(l1) => l1.is_true(values),
            Clause::Empty => false,
        }
    }

    /// The clause under the partial assignment `values`: `None` where a
    /// literal is true, else the clause of the literals that are still free,
    /// which is `Empty` where every literal is false.
    pub fn reduce(&self, values: &[Option<bool>]) -> (r: Option<Clause>)
        requires
            self.bounded(values@.len()),
        ensures
            r == self.spec_reduce(values@),
    {
        let free = Ghost(Literal::is_free(values@));
        match self {
            Clause::C3(l1, l2, l3) => {
                if l1.is_true_under(values) || l2.is_true_under(values) || l3.is_true_under(values) {
                    None
                } else {
                    Some(
                        self.select(
                            l1.is_free_under(values),
                            l2.is_free_under(values),
                            l3.is_free_under(values),
                            free,
                        ),
                    )
                }
            },
            Clause::C2(l1, l2) => {
                if l1.is_true_under(values) || l2.is_true_under(values) {
                    None
                } else {
                    Some(self.select(l1.is_free_under(values), l2.is_free_under(values), false, free))
                }
            },
            Clause::C1(l1) => {
                if l1.is_true_under(values) {
                    None
                } else {
                    Some(self.select(l1.is_free_under(values), false, false, free))
                }
            },
            Clause::Empty => {
                proof {
                    lemma_filter_literals(*self, Literal::is_free(values@));
                }
                Some(Clause::Empty)
            },
        }
    }

    /// Whether a literal of the clause is on variable `index`.
    pub fn contains(&self, index: usize) -> (r: bool)
        ensures
            r == self.find(index).is_some(),
    {
        match self {
            Clause::C3(l1, l2, l3) => l1.index == index || l2.index == index || l3.index == index,
            Clause::C2(l1, l2) => l1.index == index || l2.index == index,
            Clause::C1(l1) => l1.index == index,
            Clause::Empty => false,
        }
    }

    /// The clause without its first literal on variable `literal`; the clause
    /// itself where it has none.
    pub fn remove(&self, literal: usize) -> (r: Clause)
        ensures
            r == match self.find(literal) {
                Some(k) => Clause::with_literals(self.literals().remove(k)),
                None => *self,
            },
    {
        match self {
            Clause::C3(l1, l2, l3) => {
                if l1.index == literal {
                    Clause::C2(*l2, *l3)
                } else if l2.index == literal {
                    Clause::C2(*l1, *l3)
                } else if l3.index == literal {
                    Clause::C2(*l1, *l2)
                } else {
                    *self
                }
            },
            Clause::C2(l1, l2) => {
                if l1.index == literal {
                    Clause::C1(*l2)
                } else if l2.index == literal {
                    Clause::C1(*l1)
                } else {
                    *self
                }
            },
            Clause::C1(l1) => {
                if l1.index == literal {
                    Clause::Empty
                } else {
                    *self
                }
            },
            Clause::Empty => Clause::Empty,
        }
    }

    /// Flips the polarity of every literal on variable `index`.
    pub fn invert_literal(&mut self, index: usize)
        ensures
            *final(self) == old(self).spec_invert(index),
    {
        *self = match *self {
            Clause::C3(l1, l2, l3) => Clause::C3(l1.inverted_on(index), l2.inverted_on(index), l3.inverted_on(index)),
            Clause::C2(l1, l2) => Clause::C2(l1.inverted_on(index), l2.inverted_on(index)),
            Clause::C1(l1) => Clause::C1(l1.inverted_on(index)),
            Clause::Empty => Clause::Empty,
        };
    }

    /// Marks every literal on the variable of `lit`: as true where the
    /// polarities agree, as false where they differ.
    pub fn update_implications(&mut self, lit: &Literal)
        ensures
            *final(self) == old(self).spec_stamp(*lit),
    {
        *self = match *self {
            Clause::C3(l1, l2, l3) => Clause::C3(lit.mark(l1), lit.mark(l2), lit.mark(l3)),
            Clause::C2(l1, l2) => Clause::C2(lit.mark(l1), lit.mark(l2)),
            Clause::C1(l1) => Clause::C1(lit.mark(l1)),
            Clause::Empty => Clause::Empty,
        };
    }

    /// Rewrites a clause of any width as clauses of at most three literals.
    ///
    /// Up to three literals give the clause itself. More give a chain of
    /// clauses over fresh auxiliary variables `last_index`, `last_index + 1`
    /// and so on, which the caller keeps apart from the variables in use.
    pub fn from_k_clause(clause: Vec<Literal>, last_index: usize) -> (r: Vec<Clause>)
        requires
            clause@.len() >= 1,
            clause@.len() > 3 ==> last_index + clause@.len() - 4 <= usize::MAX,
        ensures
            r@ == chain(clause@, last_index as int),
    {
        let mut result: Vec<Clause> = Vec::new();
        let k = clause.len();
        if k == 1 {
            result.push(Clause::C1(clause[0]));
            assert(result@ =~= chain(clause@, last_index as int));
            return result;
        } else if k == 2 {
            result.push(Clause::C2(clause[0], clause[1]));
            assert(result@ =~= chain(clause@, last_index as int));
            return result;
        } else if k == 3 {
            result.push(Clause::C3(clause[0], clause[1], clause[2]));
            assert(result@ =~= chain(clause@, last_index as int));
            return result;
        }
        let foo = Literal { index: last_index, value: true, implicated: false, assigned: false };
        result.push(Clause::C3(clause[k - 1], clause[k - 2], foo));
        let mut j: usize = 1;
        while j < k - 3
            invariant
                k == clause@.len(),
                k > 3,
                1 <= j <= k - 3,
                last_index + k - 4 <= usize::MAX,
                result@.len() == j,
                forall|i: int| 0 <= i < j ==> #[trigger] result@[i] == chain_link(clause@, last_index as int, i),
            decreases k - j,
        {
            let foo1 = Literal { index: last_index + (j - 1), value: false, implicated: false, assigned: false };
            let lit = clause[k - 2 - j];
            let foo2 = Literal { index: last_index + j, value: true, implicated: false, assigned: false };
            result.push(Clause::C3(foo1, lit, foo2));
            j += 1;
        }
        let foo = Literal { index: last_index + (k - 4), value: false, implicated: false, assigned: false };
        result.push(Clause::C3(foo, clause[1], clause[0]));
        assert(result@ =~= chain(clause@, last_index as int));
        result
    }
}

impl Implication {
    /// The implication between two literals given as nonzero signed numbers,
    /// variables counted from one. The conclusion is marked as derived.
    pub fn new(from: isize, to: isize) -> (r: Implication)
        requires
            from != 0,
            from != isize::MIN,
            to != 0,
            to != isize::MIN,
        ensures
            r.from == Literal::of_code(from as int),
            r.to == (Literal { implicated: true, ..Literal::of_code(to as int) }),
    {
        let premise = Literal::from_isize(from);
        let conclusion = Literal::from_isize(to);
        Implication {
            from: premise,
            to: Literal {
                index: conclusion.index,
                value: conclusion.value,
                implicated: true,
                assigned: false,
            },
        }
    }

    /// The clause that says the same: the premise negated, or the conclusion.
    pub fn to_clause(&self) -> (c: Clause)
        ensures
            c == Clause::C2(Literal { value: !self.from.value, ..self.from }, self.to),
    {
        let mut l1 = self.from;
        let l2 = self.to;
        l1.value = !l1.value;
        Clause::C2(l1, l2)
    }
}

// The proofs.

/// Filtering the literals of a clause is the case analysis of `kept`.
pub proof fn lemma_filter_literals(c: Clause, keep: spec_fn(Literal) -> bool)
    ensures
        Clause::with_literals(c.literals().filter(keep)) == kept(c, keep),
        c.literals().filter(keep) =~= kept(c, keep).literals(),
{
    reveal_with_fuel(Seq::filter, 4);
    match c {
        Clause::Empty => {},
        Clause::C1(l1) => {
            assert(seq![l1].drop_last() =~= Seq::<Literal>::empty());
        },
        Clause::C2(l1, l2) => {
            assert(seq![l1, l2].drop_last() =~= seq![l1]);
            assert(seq![l1].drop_last() =~= Seq::<Literal>::empty());
        },
        Clause::C3(l1, l2, l3) => {
            assert(seq![l1, l2, l3].drop_last() =~= seq![l1, l2]);
            assert(seq![l1, l2].drop_last() =~= seq![l1]);
            assert(seq![l1].drop_last() =~= Seq::<Literal>::empty());
        },
    }
}

/// Reduction is sound: under a total assignment `t`, a clause has the truth
/// value of what is left of it under any partial assignment that `t` extends,
/// where nothing left counts as true and the empty clause as false.
pub proof fn lemma_reduce_sound(c: Clause, t: Seq<bool>, a: Seq<Option<bool>>)
    requires
        c.bounded(t.len()),
        extends(t, a),
    ensures
        c.spec_eval(t) == match c.spec_reduce(a) {
            None => true,
            Some(r) => r.spec_eval(t),
        },
{
    lemma_filter_literals(c, Literal::is_free(a));
    match c {
        Clause::C3(l1, l2, l3) => {
            lemma_literal_extends(l1, t, a);
            lemma_literal_extends(l2, t, a);
            lemma_literal_extends(l3, t, a);
        },
        Clause::C2(l1, l2) => {
            lemma_literal_extends(l1, t, a);
            lemma_literal_extends(l2, t, a);
        },
        Clause::C1(l1) => {
            lemma_literal_extends(l1, t, a);
        },
        Clause::Empty => {},
    }
}

/// A literal on a variable that `a` sets is true under `a` exactly if it
/// holds under a total assignment that extends `a`.
pub proof fn lemma_literal_extends(l: Literal, t: Seq<bool>, a: Seq<Option<bool>>)
    requires
        l.index < t.len(),
        extends(t, a),
    ensures
        !l.free_under(a) ==> (l.true_under(a) <==> l.holds(t)),
{
    let i = l.index as int;
    if a[i] is Some {
        assert(a[i] == Some(t[i]));
    }
}

/// What is left of a clause holds only literals of the clause that are free,
/// so it is no wider and mentions no variable that the assignment sets.
pub proof fn lemma_reduce_shape(c: Clause, a: Seq<Option<bool>>)
    ensures
        match c.spec_reduce(a) {
            None => c.satisfied_under(a),
            Some(r) => {
                &&& r.clean(a)
                &&& r.within(c)
                &&& r.width() <= c.width()
                &&& forall|n: nat| c.bounded(n) ==> r.bounded(n)
                &&& c.clean(a) ==> r == c
            },
        },
{
    lemma_filter_literals(c, Literal::is_free(a));
    match c.spec_reduce(a) {
        None => {},
        Some(r) => {
            assert forall|k: int| 0 <= k < r.literals().len() implies c.literals().contains(
                #[trigger] r.literals()[k],
            ) by {
                let l = r.literals()[k];
                match c {
                    Clause::C3(l1, l2, l3) => {
                        assert(c.literals()[0] == l1 && c.literals()[1] == l2 && c.literals()[2] == l3);
                        assert(l == l1 || l == l2 || l == l3);
                    },
                    Clause::C2(l1, l2) => {
                        assert(c.literals()[0] == l1 && c.literals()[1] == l2);
                        assert(l == l1 || l == l2);
                    },
                    Clause::C1(l1) => {
                        assert(c.literals()[0] == l1);
                    },
                    Clause::Empty => {},
                }
            }
        },
    }
}

/// A clause on variable `v` loses a literal, or goes altogether, once `v` is set.
pub proof fn lemma_reduce_narrows(c: Clause, a: Seq<Option<bool>>, v: usize)
    requires
        c.find(v) is Some,
        0 <= v < a.len(),
        a[v as int] is Some,
    ensures
        match c.spec_reduce(a) {
            None => true,
            Some(r) => r.width() < c.width(),
        },
{
    lemma_filter_literals(c, Literal::is_free(a));
}

/// Whatever is made of a clause whose literals are on different variables
/// has its literals on different variables: what is left of it under an
/// assignment or by its marks, the clause without a literal, with a
/// polarity flipped and with marks.
pub proof fn lemma_distinct_kept(c: Clause, a: Seq<Option<bool>>, lit: Literal, index: usize)
    requires
        c.distinct(),
    ensures
        c.spec_reduce(a) matches Some(r) ==> r.distinct(),
        c.spec_adapt() matches Some(r) ==> r.distinct(),
        c.find(index) matches Some(k) ==> Clause::with_literals(c.literals().remove(k)).distinct(),
        c.spec_invert(index).distinct(),
        c.spec_stamp(lit).distinct(),
{
    lemma_filter_literals(c, Literal::is_free(a));
    lemma_filter_literals(c, Literal::is_open());
}

/// Marks do not change the truth value of a clause.
pub proof fn lemma_stamp_eval(c: Clause, lit: Literal, t: Seq<bool>)
    ensures
        c.spec_stamp(lit).spec_eval(t) == c.spec_eval(t),
        forall|n: nat| c.bounded(n) ==> c.spec_stamp(lit).bounded(n),
        c.spec_stamp(lit).width() == c.width(),
{
}

/// Flipping the polarity of a variable twice gives the clause back.
pub proof fn lemma_invert_twice(c: Clause, index: usize)
    ensures
        c.spec_invert(index).spec_invert(index) == c,
{
}

/// In a chain that holds while no literal of the clause does, every
/// auxiliary variable is true.
proof fn lemma_chain_auxiliaries(lits: Seq<Literal>, first: int, t: Seq<bool>, j: int)
    requires
        lits.len() > 3,
        0 <= first,
        first + lits.len() - 4 <= usize::MAX,
        chain_holds(lits, first, t),
        none_hold_from(lits, t, 0),
        0 <= j <= lits.len() - 4,
    ensures
        t[first + j],
    decreases j,
{
    let k = lits.len() as int;
    let c = chain(lits, first)[j];
    assert(c.spec_eval(t));
    assert(c == chain_link(lits, first, j));
    if j == 0 {
        assert(!lits[k - 1].holds(t) && !lits[k - 2].holds(t));
    } else {
        lemma_chain_auxiliaries(lits, first, t, j - 1);
        assert(!lits[k - 2 - j].holds(t));
    }
}

/// The chain says no more than the clause: every assignment that makes the
/// clauses of the chain true makes a literal of the clause true.
pub proof fn lemma_chain_sound(lits: Seq<Literal>, first: int, t: Seq<bool>)
    requires
        lits.len() >= 1,
        0 <= first,
        lits.len() > 3 ==> first + lits.len() - 4 <= usize::MAX,
        chain_holds(lits, first, t),
    ensures
        any_holds(lits, t),
{
    let k = lits.len() as int;
    if none_hold_from(lits, t, 0) {
        if k <= 3 {
            let c = chain(lits, first)[0];
            assert(c.spec_eval(t));
            assert(c == Clause::with_literals(lits));
            assert(!lits[0].holds(t));
            if k >= 2 {
                assert(!lits[1].holds(t));
            }
            if k >= 3 {
                assert(!lits[2].holds(t));
            }
        } else {
            lemma_chain_auxiliaries(lits, first, t, k - 4);
            let c = chain(lits, first)[k - 3];
            assert(c.spec_eval(t));
            assert(c == chain_link(lits, first, k - 3));
            assert(!lits[0].holds(t) && !lits[1].holds(t));
        }
    }
}

/// The chain says no less than the clause, up to the auxiliary variables:
/// an assignment over the variables below `first` that makes a literal of
/// the clause true extends to one over the auxiliary variables as well that
/// makes every clause of the chain true.
pub proof fn lemma_chain_complete(lits: Seq<Literal>, first: int, t: Seq<bool>)
    requires
        lits.len() >= 1,
        0 <= first,
        lits.len() > 3 ==> first + lits.len() - 4 <= usize::MAX,
        t.len() == first,
        forall|i: int| 0 <= i < lits.len() ==> (#[trigger] lits[i]).index < first,
        any_holds(lits, t),
    ensures
        chain_holds(lits, first, chain_model(lits, first, t)),
        chain_model(lits, first, t).len() >= first,
        forall|i: int| 0 <= i < first ==> chain_model(lits, first, t)[i] == t[i],
{
    let k = lits.len() as int;
    let u = chain_model(lits, first, t);
    assert forall|i: int| 0 <= i < k implies (#[trigger] lits[i]).holds(u) == lits[i].holds(t) by {
        assert(lits[i].index < first);
    }
    assert forall|j: int| 0 <= j < chain(lits, first).len()
        implies (#[trigger] chain(lits, first)[j]).spec_eval(u) by {
        let c = chain(lits, first)[j];
        if k <= 3 {
            assert(c == Clause::with_literals(lits));
            let i = choose|i: int| 0 <= i < lits.len() && (#[trigger] lits[i]).holds(t);
            assert(lits[i].holds(u));
        } else {
            assert(c == chain_link(lits, first, j));
            if j == 0 {
                assert(u[first] == none_hold_from(lits, t, k - 2));
                if !lits[k - 1].holds(t) && !lits[k - 2].holds(t) {
                    assert(none_hold_from(lits, t, k - 2));
                }
                assert(lits[k - 1].holds(u) == lits[k - 1].holds(t));
                assert(lits[k - 2].holds(u) == lits[k - 2].holds(t));
            } else if j == k - 3 {
                assert(u[first + k - 4] == none_hold_from(lits, t, 2));
                if none_hold_from(lits, t, 2) {
                    let i = choose|i: int| 0 <= i < lits.len() && (#[trigger] lits[i]).holds(t);
                    assert(i == 0 || i == 1);
                }
                assert(lits[0].holds(u) == lits[0].holds(t));
                assert(lits[1].holds(u) == lits[1].holds(t));
            } else {
                assert(u[first + j - 1] == none_hold_from(lits, t, k - 2 - (j - 1)));
                assert(u[first + j] == none_hold_from(lits, t, k - 2 - j));
                assert(lits[k - 2 - j].holds(u) == lits[k - 2 - j].holds(t));
                if none_hold_from(lits, t, k - 1 - j) && !lits[k - 2 - j].holds(t) {
                    assert(none_hold_from(lits, t, k - 2 - j));
                }
            }
        }
    }
}
} // verus!
