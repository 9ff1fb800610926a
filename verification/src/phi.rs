//! Formulas: ordered sequences of clauses, read as their conjunction.

use vstd::prelude::*;
use crate::assignment::{extends, refines, unset};
use crate::clause::{Clause, Literal};

verus! {

/// A formula in 3-CNF.
#[derive(Clone, Debug, PartialEq, Eq)]
pub struct Phi {
    pub clauses: Vec<Clause>,
}

impl View for Phi {
    type V = Seq<Clause>;

    open spec fn view(&self) -> Seq<Clause> {
        self.clauses@
    }
}

// What the values mean.

/// Every variable of the clauses `cs` is below `n`.
pub open spec fn bounded(cs: Seq<Clause>, n: nat) -> bool {
    forall|k: int| 0 <= k < cs.len() ==> (#[trigger] cs[k]).bounded(n)
}

/// Every clause of `cs` is true under the total assignment `t`.
pub open spec fn holds(cs: Seq<Clause>, t: Seq<bool>) -> bool {
    forall|k: int| 0 <= k < cs.len() ==> (#[trigger] cs[k]).spec_eval(t)
}

/// Some total assignment over `n` variables makes every clause of `cs` true.
pub open spec fn satisfiable(cs: Seq<Clause>, n: nat) -> bool {
    exists|t: Seq<bool>| t.len() == n && #[trigger] holds(cs, t)
}

/// The number of variables of `cs`: one more than the largest variable that
/// occurs, zero where none occurs.
pub open spec fn vars_of(cs: Seq<Clause>) -> nat
    decreases cs.len(),
{
    if cs.len() == 0 {
        0
    } else {
        let rest = vars_of(cs.drop_last());
        let here = cs.last().spec_vars();
        if here > rest { here } else { rest }
    }
}

/// The clauses among `s` that are there, in order.
pub open spec fn survivors(s: Seq<Option<Clause>>) -> Seq<Clause>
    decreases s.len(),
{
    if s.len() == 0 {
        Seq::empty()
    } else {
        match s.last() {
            Some(c) => survivors(s.drop_last()).push(c),
            None => survivors(s.drop_last()),
        }
    }
}

/// The formula of the clauses among `s` that are there; the unsatisfiable
/// formula `[Empty]` where one of them is the empty clause.
pub open spec fn compact(s: Seq<Option<Clause>>) -> Seq<Clause> {
    if s.contains(Some(Clause::Empty)) {
        seq![Clause::Empty]
    } else {
        survivors(s)
    }
}

/// The function that reduces a clause under `a`.
pub open spec fn reduce_under(a: Seq<Option<bool>>) -> spec_fn(Clause) -> Option<Clause> {
    |c: Clause| c.spec_reduce(a)
}

/// The function that reads a clause by its marks.
pub open spec fn adapt_fn() -> spec_fn(Clause) -> Option<Clause> {
    |c: Clause| c.spec_adapt()
}

/// The formula `cs` under the partial assignment `a`: satisfied clauses go,
/// the others lose their false literals, and one falsified clause leaves `[Empty]`.
pub open spec fn reduced(cs: Seq<Clause>, a: Seq<Option<bool>>) -> Seq<Clause> {
    compact(cs.map_values(reduce_under(a)))
}

/// The formula `cs` as the marks on its literals leave it.
pub open spec fn adapted(cs: Seq<Clause>) -> Seq<Clause> {
    compact(cs.map_values(adapt_fn()))
}

/// The test for a unit clause.
pub open spec fn is_unit() -> spec_fn(Clause) -> bool {
    |c: Clause| c is C1
}

/// The unit clauses of `cs`, in order.
pub open spec fn units(cs: Seq<Clause>) -> Seq<Clause> {
    cs.filter(is_unit())
}

/// The test for a clause on variable `index` that was not derived.
pub open spec fn mentions(index: usize) -> spec_fn(Clause) -> bool {
    |c: Clause| c.find(index) is Some && !c.spec_is_implicated()
}

/// The test for a derived clause.
pub open spec fn is_derived() -> spec_fn(Clause) -> bool {
    |c: Clause| c.spec_is_implicated()
}

/// The partial assignment `a` with the literal of each unit clause of `us`
/// recorded in turn, where its variable is still unset.
pub open spec fn record(us: Seq<Clause>, a: Seq<Option<bool>>) -> Seq<Option<bool>>
    decreases us.len(),
{
    if us.len() == 0 {
        a
    } else {
        let b = record(us.drop_last(), a);
        match us.last() {
            Clause::C1(l) => if b[l.index as int] is None { b.update(l.index as int, Some(l.value)) } else { b },
            _ => b,
        }
    }
}

/// Unit propagation to its fixpoint: as long as there are unit clauses, their
/// literals are recorded in the assignment and the formula is reduced under it.
pub open spec fn propagate(cs: Seq<Clause>, a: Seq<Option<bool>>) -> (Seq<Clause>, Seq<Option<bool>>)
    decreases cs.len(),
{
    if units(cs).len() == 0 {
        (cs, a)
    } else {
        let b = record(units(cs), a);
        let rest = reduced(cs, b);
        if rest.len() < cs.len() {
            propagate(rest, b)
        } else {
            (rest, b)
        }
    }
}

/// The formula `cs` with the polarity of variable `index` flipped throughout.
pub open spec fn inverted(cs: Seq<Clause>, index: usize) -> Seq<Clause> {
    Seq::new(cs.len(), |k: int| cs[k].spec_invert(index))
}

/// The formula `cs` marked by the forced literal `lit`.
pub open spec fn stamped(cs: Seq<Clause>, lit: Literal) -> Seq<Clause> {
    Seq::new(cs.len(), |k: int| cs[k].spec_stamp(lit))
}

/// The partial assignment `a` leaves every variable of `cs` unset.
pub open spec fn clean(cs: Seq<Clause>, a: Seq<Option<bool>>) -> bool {
    forall|k: int| 0 <= k < cs.len() ==> (#[trigger] cs[k]).clean(a)
}

/// No clause of `cs` has more than two literals.
pub open spec fn narrow(cs: Seq<Clause>) -> bool {
    forall|k: int| 0 <= k < cs.len() ==> (#[trigger] cs[k]).width() <= 2
}

/// Variable `v` occurs in a clause of `cs`.
pub open spec fn occurs(cs: Seq<Clause>, v: usize) -> bool {
    exists|k: int| 0 <= k < cs.len() && (#[trigger] cs[k]).find(v) is Some
}

/// Variable `v` occurs in `cs` in a literal that is not marked false.
pub open spec fn occurs_open(cs: Seq<Clause>, v: usize) -> bool {
    exists|k: int| 0 <= k < cs.len() && (#[trigger] cs[k]).open_on(v)
}

/// The test for a variable that occurs in a literal not marked false.
pub open spec fn is_free_variable(cs: Seq<Clause>) -> spec_fn(usize) -> bool {
    |v: usize| occurs_open(cs, v)
}

/// The variables below `n`, in order.
pub open spec fn variables(n: nat) -> Seq<usize> {
    Seq::new(n, |i: int| i as usize)
}

/// The free variables of `cs`: those that occur in a literal not marked
/// false, each once, in rising order.
pub open spec fn free_variables(cs: Seq<Clause>) -> Seq<usize> {
    variables(vars_of(cs)).filter(is_free_variable(cs))
}

/// The test for a clause that forces a literal, going by its marks.
pub open spec fn is_forcing() -> spec_fn(Clause) -> bool {
    |c: Clause| c.forcing()
}

/// Variable `v` occurs with polarity `value` in a clause of `cs` that has at
/// least two literals.
pub open spec fn occurs_as(cs: Seq<Clause>, v: usize, value: bool) -> bool {
    exists|k: int| 0 <= k < cs.len() && (#[trigger] cs[k]).shows(v, value)
}

/// The one polarity with which variable `v` occurs in the clauses of `cs`
/// that have at least two literals, if there is just one.
pub open spec fn pure(cs: Seq<Clause>, v: usize) -> Option<bool> {
    if occurs_as(cs, v, true) && !occurs_as(cs, v, false) {
        Some(true)
    } else if occurs_as(cs, v, false) && !occurs_as(cs, v, true) {
        Some(false)
    } else {
        None
    }
}

/// The test for a variable that occurs with one polarity only.
pub open spec fn is_pure(cs: Seq<Clause>) -> spec_fn(usize) -> bool {
    |v: usize| pure(cs, v) is Some
}

/// The unit clause that fixes a pure variable to its polarity.
pub open spec fn unit_of_pure(cs: Seq<Clause>) -> spec_fn(usize) -> Clause {
    |v: usize| Clause::C1(Literal { index: v, value: pure(cs, v) == Some(true), implicated: false, assigned: false })
}

/// The unit clauses of the pure variables of `cs`, in rising order of the variables.
pub open spec fn pure_units(cs: Seq<Clause>) -> Seq<Clause> {
    variables(vars_of(cs)).filter(is_pure(cs)).map_values(unit_of_pure(cs))
}

// The operations.

impl Phi {
    /// The formula without clauses, which every assignment satisfies.
    pub fn new() -> (r: Phi)
        ensures
            r@ == Seq::<Clause>::empty(),
    {
        Phi { clauses: Vec::new() }
    }

    /// The unsatisfiable formula `[Empty]`.
    pub fn new_unsat() -> (r: Phi)
        ensures
            r@ == seq![Clause::Empty],
    {
        let mut clauses = Vec::new();
        clauses.push(Clause::Empty);
        assert(clauses@ =~= seq![Clause::Empty]);
        Phi { clauses }
    }

    /// A formula with the same clauses.
    pub fn copy(&self) -> (r: Phi)
        ensures
            r@ == self@,
    {
        let mut clauses: Vec<Clause> = Vec::new();
        let mut i: usize = 0;
        while i < self.clauses.len()
            invariant
                i <= self.clauses.len(),
                clauses@ == self.clauses@.take(i as int),
            decreases self.clauses.len() - i,
        {
            clauses.push(self.clauses[i]);
            assert(self.clauses@.take(i + 1) =~= self.clauses@.take(i as int).push(self.clauses@[i as int]));
            i += 1;
        }
        assert(self.clauses@.take(i as int) =~= self.clauses@);
        Phi { clauses }
    }

    /// Whether every variable of the formula is below `n`.
    pub fn fits(&self, n: usize) -> (r: bool)
        ensures
            r == bounded(self@, n as nat),
            r == (vars_of(self@) <= n),
    {
        proof {
            lemma_vars_of(self@, n as nat);
        }
        let mut i: usize = 0;
        while i < self.clauses.len()
            invariant
                i <= self.clauses.len(),
                forall|k: int| 0 <= k < i ==> (#[trigger] self@[k]).bounded(n as nat),
            decreases self.clauses.len() - i,
        {
            if !self.clauses[i].fits(n) {
                proof {
                    assert(!self@[i as int].bounded(n as nat));
                    lemma_vars_of(self@, n as nat);
                }
                return false;
            }
            i += 1;
        }
        true
    }

    /// The number of variables of the formula: one more than the largest
    /// variable that occurs in it, zero where none occurs.
    pub fn vars(&self) -> (r: usize)
        requires
            vars_of(self@) <= usize::MAX,
        ensures
            r == vars_of(self@),
    {
        let mut ret: usize = 0;
        let mut i: usize = 0;
        while i < self.clauses.len()
            invariant
                i <= self.clauses.len(),
                ret == vars_of(self.clauses@.take(i as int)),
                vars_of(self@) <= usize::MAX,
            decreases self.clauses.len() - i,
        {
            let c = &self.clauses[i];
            proof {
                assert(self.clauses@.take(i + 1).drop_last() =~= self.clauses@.take(i as int));
                lemma_vars_of_take(self@, i + 1);
            }
            match c {
                Clause::Empty => {},
                _ => {
                    let m = c.max_literal();
                    if m >= ret {
                        ret = m + 1;
                    }
                },
            }
            i += 1;
        }
        assert(self.clauses@.take(i as int) =~= self.clauses@);
        ret
    }

    /// The formula of the clauses among `outcomes` that are there, or
    /// `[Empty]` where one of them is the empty clause.
    fn compacted(outcomes: Vec<Option<Clause>>) -> (r: Phi)
        ensures
            r@ == compact(outcomes@),
    {
        let mut ret = Phi::new();
        let mut i: usize = 0;
        while i < outcomes.len()
            invariant
                i <= outcomes.len(),
                ret@ == survivors(outcomes@.take(i as int)),
                !outcomes@.take(i as int).contains(Some(Clause::Empty)),
            decreases outcomes.len() - i,
        {
            proof {
                assert(outcomes@.take(i + 1) =~= outcomes@.take(i as int).push(outcomes@[i as int]));
                lemma_survivors_push(outcomes@.take(i as int), outcomes@[i as int]);
            }
            match outcomes[i] {
                Some(Clause::Empty) => {
                    assert(outcomes@[i as int] == Some(Clause::Empty));
                    return Phi::new_unsat();
                },
                Some(c) => {
                    ret.clauses.push(c);
                },
                None => {},
            }
            assert(!outcomes@.take(i + 1).contains(Some(Clause::Empty))) by {
                let next = outcomes@.take(i + 1);
                if next.contains(Some(Clause::Empty)) {
                    let k = choose|k: int| 0 <= k < next.len() && next[k] == Some(Clause::Empty);
                    if k < i {
                        assert(outcomes@.take(i as int)[k] == Some(Clause::Empty));
                    }
                }
            }
            i += 1;
        }
        assert(outcomes@.take(i as int) =~= outcomes@);
        ret
    }

    /// The formula under the partial assignment `values`: satisfied clauses
    /// are dropped, the others lose their false literals, and a clause that
    /// becomes empty makes the whole formula `[Empty]`.
    pub fn reduce(&self, values: &[Option<bool>]) -> (r: Phi)
        requires
            bounded(self@, values@.len()),
        ensures
            r@ == reduced(self@, values@),
    {
        let mut outcomes: Vec<Option<Clause>> = Vec::new();
        let mut i: usize = 0;
        while i < self.clauses.len()
            invariant
                i <= self.clauses.len(),
                bounded(self@, values@.len()),
                outcomes@ == self@.take(i as int).map_values(reduce_under(values@)),
            decreases self.clauses.len() - i,
        {
            let c = self.clauses[i].reduce(values);
            outcomes.push(c);
            assert(outcomes@ =~= self@.take(i + 1).map_values(reduce_under(values@)));
            i += 1;
        }
        assert(self@.take(i as int) =~= self@);
        Phi::compacted(outcomes)
    }

    /// The formula as the marks on its literals leave it: clauses with a
    /// literal marked true are dropped, the others lose the literals marked
    /// false, and a clause that becomes empty makes the whole formula `[Empty]`.
    pub fn adapt(&self) -> (r: Phi)
        ensures
            r@ == adapted(self@),
    {
        let mut outcomes: Vec<Option<Clause>> = Vec::new();
        let mut i: usize = 0;
        while i < self.clauses.len()
            invariant
                i <= self.clauses.len(),
                outcomes@ == self@.take(i as int).map_values(adapt_fn()),
            decreases self.clauses.len() - i,
        {
            let c = self.clauses[i].adapt();
            outcomes.push(c);
            assert(outcomes@ =~= self@.take(i + 1).map_values(adapt_fn()));
            i += 1;
        }
        assert(self@.take(i as int) =~= self@);
        Phi::compacted(outcomes)
    }

    /// The unit clauses of the formula, in order.
    pub fn find_unit(&self) -> (r: Vec<Clause>)
        ensures
            r@ == units(self@),
    {
        let mut ret: Vec<Clause> = Vec::new();
        let mut i: usize = 0;
        while i < self.clauses.len()
            invariant
                i <= self.clauses.len(),
                ret@ == units(self@.take(i as int)),
            decreases self.clauses.len() - i,
        {
            proof {
                assert(self@.take(i + 1) =~= self@.take(i as int).push(self@[i as int]));
                lemma_filter_push(self@.take(i as int), self@[i as int], is_unit());
            }
            if let Clause::C1(_) = self.clauses[i] {
                ret.push(self.clauses[i]);
            }
            i += 1;
        }
        assert(self@.take(i as int) =~= self@);
        ret
    }

    /// Whether every clause is true under the total assignment.
    pub fn eval(&self, assignment: &Vec<bool>) -> (r: bool)
        requires
            bounded(self@, assignment@.len()),
        ensures
            r == holds(self@, assignment@),
    {
        let mut i: usize = 0;
        while i < self.clauses.len()
            invariant
                i <= self.clauses.len(),
                bounded(self@, assignment@.len()),
                forall|k: int| 0 <= k < i ==> (#[trigger] self@[k]).spec_eval(assignment@),
            decreases self.clauses.len() - i,
        {
            if !self.clauses[i].eval(assignment.as_slice()) {
                return false;
            }
            i += 1;
        }
        true
    }

    /// The clauses that mention variable `index` and were not derived, in order.
    pub fn phi_prime(&self, index: usize) -> (r: Phi)
        ensures
            r@ == self@.filter(mentions(index)),
    {
        let mut clauses: Vec<Clause> = Vec::new();
        let mut i: usize = 0;
        while i < self.clauses.len()
            invariant
                i <= self.clauses.len(),
                clauses@ == self@.take(i as int).filter(mentions(index)),
            decreases self.clauses.len() - i,
        {
            proof {
                assert(self@.take(i + 1) =~= self@.take(i as int).push(self@[i as int]));
                lemma_filter_push(self@.take(i as int), self@[i as int], mentions(index));
            }
            let clause = &self.clauses[i];
            if clause.contains(index) && !clause.is_implicated() {
                clauses.push(*clause);
            }
            i += 1;
        }
        assert(self@.take(i as int) =~= self@);
        Phi { clauses }
    }

    /// The derived clauses of the formula, in order.
    pub fn get_added_clauses(&self) -> (r: Vec<Clause>)
        ensures
            r@ == self@.filter(is_derived()),
    {
        let mut implications: Vec<Clause> = Vec::new();
        let mut i: usize = 0;
        while i < self.clauses.len()
            invariant
                i <= self.clauses.len(),
                implications@ == self@.take(i as int).filter(is_derived()),
            decreases self.clauses.len() - i,
        {
            proof {
                assert(self@.take(i + 1) =~= self@.take(i as int).push(self@[i as int]));
                lemma_filter_push(self@.take(i as int), self@[i as int], is_derived());
            }
            if self.clauses[i].is_implicated() {
                implications.push(self.clauses[i]);
            }
            i += 1;
        }
        assert(self@.take(i as int) =~= self@);
        implications
    }

    /// Flips the polarity of variable `index` in every clause.
    pub fn invert_literal(&mut self, index: usize)
        ensures
            final(self)@ == inverted(old(self)@, index),
    {
        let mut i: usize = 0;
        while i < self.clauses.len()
            invariant
                i <= self.clauses.len(),
                self@.len() == old(self)@.len(),
                forall|k: int| 0 <= k < i ==> #[trigger] self@[k] == old(self)@[k].spec_invert(index),
                forall|k: int| i <= k < self@.len() ==> #[trigger] self@[k] == old(self)@[k],
            decreases self.clauses.len() - i,
        {
            let mut c = self.clauses[i];
            c.invert_literal(index);
            self.clauses.set(i, c);
            i += 1;
        }
        assert(self@ =~= inverted(old(self)@, index));
    }

    /// Marks the formula by a forced literal: given the unit clause of the
    /// literal, every literal on its variable is marked as true where the
    /// polarities agree and as false where they differ. Any other clause
    /// changes nothing.
    pub fn update_implications(&mut self, clause: &Clause)
        ensures
            final(self)@ == match *clause {
                Clause::C1(lit) => stamped(old(self)@, lit),
                _ => old(self)@,
            },
    {
        match clause {
            Clause::C1(lit) => {
                let mut i: usize = 0;
                while i < self.clauses.len()
                    invariant
                        i <= self.clauses.len(),
                        self@.len() == old(self)@.len(),
                        forall|k: int| 0 <= k < i ==> #[trigger] self@[k] == old(self)@[k].spec_stamp(*lit),
                        forall|k: int| i <= k < self@.len() ==> #[trigger] self@[k] == old(self)@[k],
                    decreases self.clauses.len() - i,
                {
                    let mut c = self.clauses[i];
                    if c.contains(lit.index) {
                        c.update_implications(lit);
                        self.clauses.set(i, c);
                    } else {
                        assert(c.spec_stamp(*lit) == c);
                    }
                    i += 1;
                }
                assert(self@ =~= stamped(old(self)@, *lit));
            },
            _ => {},
        }
    }

    /// Unit propagation to its fixpoint. As long as the formula has unit
    /// clauses, the literal of each is recorded in `assignments`, where its
    /// variable is still unset, and the formula is reduced under them. The
    /// result is `[Empty]` or a formula without unit clauses.
    pub fn autoreduce_with_assignments(&self, assignments: &mut Vec<Option<bool>>) -> (r: Phi)
        requires
            bounded(self@, old(assignments)@.len()),
        ensures
            (r@, final(assignments)@) == propagate(self@, old(assignments)@),
            r@ == seq![Clause::Empty] || units(r@).len() == 0,
        decreases self@.len(),
    {
        proof {
            lemma_propagate_fixpoint(self@, assignments@);
            lemma_units(self@);
        }
        let units = self.find_unit();
        if units.len() == 0 {
            self.copy()
        } else {
            let ghost before = assignments@;
            let mut i: usize = 0;
            while i < units.len()
                invariant
                    i <= units.len(),
                    bounded(units@, before.len()),
                    assignments@.len() == before.len(),
                    assignments@ == record(units@.take(i as int), before),
                decreases units.len() - i,
            {
                proof {
                    assert(units@.take(i + 1).drop_last() =~= units@.take(i as int));
                    assert(units@[i as int].bounded(before.len()));
                }
                if let Clause::C1(l) = units[i] {
                    if assignments[l.index].is_none() {
                        assignments.set(l.index, Some(l.value));
                    }
                }
                i += 1;
            }
            assert(units@.take(i as int) =~= units@);
            let phi = self.reduce(assignments.as_slice());
            if phi.clauses.len() < self.clauses.len() {
                proof {
                    lemma_reduced_shape(self@, assignments@);
                }
                phi.autoreduce_with_assignments(assignments)
            } else {
                phi
            }
        }
    }

    /// Unit propagation to its fixpoint, from the assignment that sets nothing.
    pub fn autoreduce(&self) -> (r: Phi)
        requires
            vars_of(self@) <= usize::MAX,
        ensures
            r@ == propagate(self@, unset(vars_of(self@))).0,
            r@ == seq![Clause::Empty] || units(r@).len() == 0,
    {
        let mut values = crate::assignment::new_assignment(self.vars());
        proof {
            lemma_vars_of(self@, vars_of(self@));
        }
        self.autoreduce_with_assignments(&mut values)
    }

    /// The free variables of the formula: the variables that occur in a
    /// literal not marked false, each once, in rising order.
    pub fn get_variables(&self) -> (r: Vec<usize>)
        requires
            vars_of(self@) <= usize::MAX,
        ensures
            r@ == free_variables(self@),
    {
        let n = self.vars();
        let mut seen: Vec<bool> = Vec::new();
        let mut v: usize = 0;
        while v < n
            invariant
                v <= n,
                seen@.len() == v,
                forall|u: int| 0 <= u < v ==> !#[trigger] seen@[u],
            decreases n - v,
        {
            seen.push(false);
            v += 1;
        }
        proof {
            lemma_vars_of(self@, n as nat);
        }
        let mut i: usize = 0;
        while i < self.clauses.len()
            invariant
                i <= self.clauses.len(),
                seen@.len() == n,
                bounded(self@, n as nat),
                forall|u: usize| u < n ==> #[trigger] seen@[u as int] == occurs_open(self@.take(i as int), u),
            decreases self.clauses.len() - i,
        {
            let ghost before = seen@;
            let ghost c = self@[i as int];
            assert(c.bounded(n as nat));
            match &self.clauses[i] {
                Clause::C3(l1, l2, l3) => {
                    note_open(&mut seen, l1);
                    note_open(&mut seen, l2);
                    note_open(&mut seen, l3);
                },
                Clause::C2(l1, l2) => {
                    note_open(&mut seen, l1);
                    note_open(&mut seen, l2);
                },
                Clause::C1(l1) => {
                    note_open(&mut seen, l1);
                },
                Clause::Empty => {},
            }
            proof {
                let init = self@.take(i as int);
                let next = self@.take(i + 1);
                assert(next =~= init.push(c));
                assert forall|u: usize| u < n implies #[trigger] seen@[u as int] == occurs_open(next, u) by {
                    assert(seen@[u as int] == (before[u as int] || c.open_on(u)));
                    if occurs_open(init, u) {
                        let k = choose|k: int| 0 <= k < init.len() && (#[trigger] init[k]).open_on(u);
                        assert(next[k].open_on(u));
                    }
                    if c.open_on(u) {
                        assert(next[i as int].open_on(u));
                    }
                    if occurs_open(next, u) {
                        let k = choose|k: int| 0 <= k < next.len() && (#[trigger] next[k]).open_on(u);
                        if k < i {
                            assert(init[k].open_on(u));
                        }
                    }
                }
            }
            i += 1;
        }
        assert(self@.take(i as int) =~= self@);
        let mut variables: Vec<usize> = Vec::new();
        let mut v: usize = 0;
        while v < n
            invariant
                v <= n,
                n == vars_of(self@),
                seen@.len() == n,
                forall|u: usize| u < n ==> #[trigger] seen@[u as int] == occurs_open(self@, u),
                variables@ == crate::phi::variables(v as nat).filter(is_free_variable(self@)),
            decreases n - v,
        {
            proof {
                assert(crate::phi::variables((v + 1) as nat) =~= crate::phi::variables(v as nat).push(v));
                lemma_filter_push(crate::phi::variables(v as nat), v, is_free_variable(self@));
            }
            if seen[v] {
                variables.push(v);
            }
            v += 1;
        }
        variables
    }

    /// The clauses that force a literal, going by the marks: clauses of
    /// three literals with two marked false, clauses of two with one marked
    /// false, and unit clauses.
    pub fn get_implications(&self) -> (r: Vec<Clause>)
        ensures
            r@ == self@.filter(is_forcing()),
    {
        let mut implications: Vec<Clause> = Vec::new();
        let mut i: usize = 0;
        while i < self.clauses.len()
            invariant
                i <= self.clauses.len(),
                implications@ == self@.take(i as int).filter(is_forcing()),
            decreases self.clauses.len() - i,
        {
            proof {
                assert(self@.take(i + 1) =~= self@.take(i as int).push(self@[i as int]));
                lemma_filter_push(self@.take(i as int), self@[i as int], is_forcing());
            }
            let clause = self.clauses[i];
            match clause {
                Clause::C3(l1, l2, l3) => {
                    let mut num_chosen: usize = 0;
                    if l1.assigned {
                        num_chosen += 1
                    }
                    if l2.assigned {
                        num_chosen += 1
                    }
                    if l3.assigned {
                        num_chosen += 1
                    }
                    if num_chosen == 2 {
                        implications.push(clause);
                    }
                },
                Clause::C2(l1, l2) => {
                    let mut num_chosen: usize = 0;
                    if l1.assigned {
                        num_chosen += 1
                    }
                    if l2.assigned {
                        num_chosen += 1
                    }
                    if num_chosen == 1 {
                        implications.push(clause);
                    }
                },
                Clause::C1(_) => {
                    implications.push(clause)
                },
                Clause::Empty => {},
            }
            i += 1;
        }
        assert(self@.take(i as int) =~= self@);
        implications
    }

    /// The unit clauses of the pure variables: for each variable that the
    /// clauses of at least two literals show with one polarity only, the
    /// unit clause of that polarity, in rising order of the variables.
    pub fn create_unit(&self) -> (r: Vec<Clause>)
        requires
            vars_of(self@) <= usize::MAX,
        ensures
            r@ == pure_units(self@),
    {
        let n = self.vars();
        let mut pos = all_false(n);
        let mut neg = all_false(n);
        proof {
            lemma_vars_of(self@, n as nat);
        }
        let mut i: usize = 0;
        while i < self.clauses.len()
            invariant
                i <= self.clauses.len(),
                pos@.len() == n,
                neg@.len() == n,
                bounded(self@, n as nat),
                forall|u: usize| u < n ==> #[trigger] pos@[u as int] == occurs_as(self@.take(i as int), u, true),
                forall|u: usize| u < n ==> #[trigger] neg@[u as int] == occurs_as(self@.take(i as int), u, false),
            decreases self.clauses.len() - i,
        {
            let ghost pos0 = pos@;
            let ghost neg0 = neg@;
            let ghost c = self@[i as int];
            assert(c.bounded(n as nat));
            match &self.clauses[i] {
                Clause::C3(l1, l2, l3) => {
                    note_polarity(&mut pos, &mut neg, l1);
                    note_polarity(&mut pos, &mut neg, l2);
                    note_polarity(&mut pos, &mut neg, l3);
                },
                Clause::C2(l1, l2) => {
                    note_polarity(&mut pos, &mut neg, l1);
                    note_polarity(&mut pos, &mut neg, l2);
                },
                _ => {},
            }
            proof {
                let init = self@.take(i as int);
                let next = self@.take(i + 1);
                assert(next =~= init.push(c));
                assert forall|u: usize, value: bool| u < n
                    implies occurs_as(next, u, value) == (occurs_as(init, u, value)
                    || c.shows(u, value)) by {
                    if occurs_as(init, u, value) {
                        let k = choose|k: int| 0 <= k < init.len() && (#[trigger] init[k]).shows(u, value);
                        assert(next[k].shows(u, value));
                    }
                    if c.shows(u, value) {
                        assert(next[i as int].shows(u, value));
                    }
                    if occurs_as(next, u, value) {
                        let k = choose|k: int| 0 <= k < next.len() && (#[trigger] next[k]).shows(u, value);
                        if k < i {
                            assert(init[k].shows(u, value));
                        }
                    }
                }
                assert forall|u: usize| u < n implies #[trigger] pos@[u as int] == occurs_as(next, u, true) by {
                    assert(pos@[u as int] == (pos0[u as int] || c.shows(u, true)));
                }
                assert forall|u: usize| u < n implies #[trigger] neg@[u as int] == occurs_as(next, u, false) by {
                    assert(neg@[u as int] == (neg0[u as int] || c.shows(u, false)));
                }
            }
            i += 1;
        }
        assert(self@.take(i as int) =~= self@);
        let mut new_units: Vec<Clause> = Vec::new();
        let mut index: usize = 0;
        while index < n
            invariant
                index <= n,
                n == vars_of(self@),
                pos@.len() == n,
                neg@.len() == n,
                forall|u: usize| u < n ==> #[trigger] pos@[u as int] == occurs_as(self@, u, true),
                forall|u: usize| u < n ==> #[trigger] neg@[u as int] == occurs_as(self@, u, false),
                new_units@ == variables(index as nat).filter(is_pure(self@)).map_values(unit_of_pure(self@)),
            decreases n - index,
        {
            proof {
                assert(variables((index + 1) as nat) =~= variables(index as nat).push(index));
                lemma_filter_push(variables(index as nat), index, is_pure(self@));
                let kept = variables(index as nat).filter(is_pure(self@));
                assert(kept.push(index).map_values(unit_of_pure(self@)) =~= kept.map_values(unit_of_pure(self@)).push(
                    unit_of_pure(self@)(index),
                ));
            }
            if pos[index] != neg[index] {
                new_units.push(
                    Clause::C1(Literal { index, value: pos[index], implicated: false, assigned: false }),
                );
            }
            index += 1;
        }
        new_units
    }

    /// The formula with the unit clauses of its pure variables added at the end.
    pub fn add_unit(&self) -> (r: Phi)
        requires
            vars_of(self@) <= usize::MAX,
        ensures
            r@ == self@ + pure_units(self@),
    {
        let mut new_units = self.create_unit();
        let mut ret = self.copy();
        ret.clauses.append(&mut new_units);
        ret
    }
}

/// Notes the variable of a literal that is not marked false.
fn note_open(seen: &mut Vec<bool>, l: &Literal)
    requires
        l.index < old(seen)@.len(),
    ensures
        final(seen)@.len() == old(seen)@.len(),
        forall|v: usize| v < old(seen)@.len() ==> #[trigger] final(seen)@[v as int] == (old(seen)@[v as int]
            || l.open_on(v)),
{
    if !l.assigned {
        seen.set(l.index, true);
    }
}

/// Notes the polarity of a literal.
fn note_polarity(pos: &mut Vec<bool>, neg: &mut Vec<bool>, l: &Literal)
    requires
        l.index < old(pos)@.len(),
        old(pos)@.len() == old(neg)@.len(),
    ensures
        final(pos)@.len() == old(pos)@.len(),
        final(neg)@.len() == old(neg)@.len(),
        forall|v: usize| v < old(pos)@.len() ==> #[trigger] final(pos)@[v as int] == (old(pos)@[v as int]
            || l.is_on(v, true)),
        forall|v: usize| v < old(neg)@.len() ==> #[trigger] final(neg)@[v as int] == (old(neg)@[v as int]
            || l.is_on(v, false)),
{
    if l.value {
        pos.set(l.index, true);
    } else {
        neg.set(l.index, true);
    }
}

/// A vector of `n` times `false`.
fn all_false(n: usize) -> (r: Vec<bool>)
    ensures
        r@.len() == n,
        forall|u: int| 0 <= u < n ==> !#[trigger] r@[u],
{
    let mut r: Vec<bool> = Vec::new();
    let mut v: usize = 0;
    while v < n
        invariant
            v <= n,
            r@.len() == v,
            forall|u: int| 0 <= u < v ==> !#[trigger] r@[u],
        decreases n - v,
    {
        r.push(false);
        v += 1;
    }
    r
}

// The proofs.

/// Filtering a sequence with one more element.
pub proof fn lemma_filter_push<A>(s: Seq<A>, x: A, p: spec_fn(A) -> bool)
    ensures
        s.push(x).filter(p) == if p(x) { s.filter(p).push(x) } else { s.filter(p) },
{
    reveal(Seq::filter);
    assert(s.push(x).drop_last() =~= s);
}

/// A formula is bounded by `n` exactly if it has at most `n` variables.
pub proof fn lemma_vars_of(cs: Seq<Clause>, n: nat)
    ensures
        bounded(cs, n) <==> vars_of(cs) <= n,
    decreases cs.len(),
{
    if cs.len() > 0 {
        let init = cs.drop_last();
        lemma_vars_of(init, n);
        if bounded(cs, n) {
            assert forall|k: int| 0 <= k < init.len() implies (#[trigger] init[k]).bounded(n) by {
                assert(init[k] == cs[k]);
            }
            assert(cs[cs.len() - 1].bounded(n));
        }
        if vars_of(cs) <= n {
            assert forall|k: int| 0 <= k < cs.len() implies (#[trigger] cs[k]).bounded(n) by {
                if k < init.len() {
                    assert(init[k] == cs[k]);
                }
            }
        }
    }
}

/// A prefix of a formula has no more variables than the formula.
pub proof fn lemma_vars_of_take(cs: Seq<Clause>, i: int)
    requires
        0 <= i <= cs.len(),
    ensures
        vars_of(cs.take(i)) <= vars_of(cs),
    decreases cs.len(),
{
    if i < cs.len() {
        assert(cs.drop_last().take(i) =~= cs.take(i));
        lemma_vars_of_take(cs.drop_last(), i);
    } else {
        assert(cs.take(i) =~= cs);
    }
}

/// The survivors of a sequence with one more element.
pub proof fn lemma_survivors_push(s: Seq<Option<Clause>>, x: Option<Clause>)
    ensures
        survivors(s.push(x)) == match x {
            Some(c) => survivors(s).push(c),
            None => survivors(s),
        },
{
    assert(s.push(x).drop_last() =~= s);
}

/// What a filter keeps satisfies the test and comes from the sequence, and
/// it keeps whatever satisfies the test.
pub proof fn lemma_filter_members<A>(s: Seq<A>, p: spec_fn(A) -> bool)
    ensures
        forall|j: int| 0 <= j < s.filter(p).len() ==> p(#[trigger] s.filter(p)[j]) && s.contains(s.filter(p)[j]),
        forall|k: int| 0 <= k < s.len() && p(#[trigger] s[k]) ==> s.filter(p).contains(s[k]),
        s.filter(p).len() <= s.len(),
    decreases s.len(),
{
    reveal(Seq::filter);
    if s.len() > 0 {
        let init = s.drop_last();
        lemma_filter_members(init, p);
        let f = s.filter(p);
        assert forall|j: int| 0 <= j < f.len() implies p(#[trigger] f[j]) && s.contains(f[j]) by {
            if j < init.filter(p).len() {
                let x = init.filter(p)[j];
                assert(init.contains(x));
                let k = choose|k: int| 0 <= k < init.len() && init[k] == x;
                assert(s[k] == x);
            } else {
                assert(f[j] == s[s.len() - 1]);
            }
        }
        assert forall|k: int| 0 <= k < s.len() && p(#[trigger] s[k]) implies f.contains(s[k]) by {
            if k < init.len() {
                assert(init[k] == s[k]);
                assert(init.filter(p).contains(s[k]));
                let j = choose|j: int| 0 <= j < init.filter(p).len() && init.filter(p)[j] == s[k];
                assert(f[j] == s[k]);
            } else {
                assert(f[f.len() - 1] == s[k]);
            }
        }
    }
}

/// The survivors of a sequence are its clauses that are there.
pub proof fn lemma_survivors_members(s: Seq<Option<Clause>>)
    ensures
        forall|j: int| 0 <= j < survivors(s).len() ==> s.contains(Some(#[trigger] survivors(s)[j])),
        forall|k: int| 0 <= k < s.len() && (#[trigger] s[k]) is Some ==> survivors(s).contains(s[k].unwrap()),
        survivors(s).len() <= s.len(),
        s.contains(None) ==> survivors(s).len() < s.len(),
    decreases s.len(),
{
    if s.len() > 0 {
        let init = s.drop_last();
        lemma_survivors_members(init);
        let f = survivors(s);
        assert forall|j: int| 0 <= j < f.len() implies s.contains(Some(#[trigger] f[j])) by {
            if j < survivors(init).len() {
                let x = Some(survivors(init)[j]);
                assert(init.contains(x));
                let k = choose|k: int| 0 <= k < init.len() && init[k] == x;
                assert(s[k] == x);
            } else {
                assert(Some(f[j]) == s[s.len() - 1]);
            }
        }
        assert forall|k: int| 0 <= k < s.len() && (#[trigger] s[k]) is Some implies f.contains(s[k].unwrap()) by {
            if k < init.len() {
                assert(init[k] == s[k]);
                assert(survivors(init).contains(s[k].unwrap()));
                let j = choose|j: int| 0 <= j < survivors(init).len() && survivors(init)[j] == s[k].unwrap();
                assert(f[j] == s[k].unwrap());
            } else {
                assert(f[f.len() - 1] == s[k].unwrap());
            }
        }
        if s.contains(None) {
            let k = choose|k: int| 0 <= k < s.len() && s[k] == None::<Clause>;
            if k < init.len() {
                assert(init[k] == s[k]);
                assert(init.contains(None));
            }
        }
    }
}

/// A reduced formula is `[Empty]`, or it holds, for each clause that was
/// not satisfied, what is left of it, and nothing empty.
pub proof fn lemma_reduced_shape(cs: Seq<Clause>, a: Seq<Option<bool>>)
    ensures
        reduced(cs, a) == seq![Clause::Empty] || {
            &&& forall|j: int| 0 <= j < reduced(cs, a).len() ==> !((#[trigger] reduced(cs, a)[j]) is Empty)
            &&& forall|j: int| 0 <= j < reduced(cs, a).len() ==> exists|k: int| 0 <= k < cs.len()
                && cs[k].spec_reduce(a) == Some(#[trigger] reduced(cs, a)[j])
            &&& forall|k: int| 0 <= k < cs.len() ==> (#[trigger] cs[k]).spec_reduce(a) != Some(Clause::Empty)
        },
        reduced(cs, a).len() <= cs.len() || reduced(cs, a) == seq![Clause::Empty],
        clean(reduced(cs, a), a),
        forall|n: nat| bounded(cs, n) ==> bounded(reduced(cs, a), n),
        narrow(cs) ==> narrow(reduced(cs, a)),
{
    let outcomes = cs.map_values(reduce_under(a));
    let r = reduced(cs, a);
    if outcomes.contains(Some(Clause::Empty)) {
        assert(r[0] == Clause::Empty);
    } else {
        lemma_survivors_members(outcomes);
        assert forall|j: int| 0 <= j < r.len() implies !((#[trigger] r[j]) is Empty) && (exists|k: int|
            0 <= k < cs.len() && cs[k].spec_reduce(a) == Some(r[j])) && r[j].clean(a) && (forall|n: nat|
            bounded(cs, n) ==> r[j].bounded(n)) && (narrow(cs) ==> r[j].width() <= 2) by {
            assert(outcomes.contains(Some(r[j])));
            let k = choose|k: int| 0 <= k < outcomes.len() && outcomes[k] == Some(r[j]);
            assert(cs[k].spec_reduce(a) == Some(r[j]));
            crate::clause::lemma_reduce_shape(cs[k], a);
            assert forall|n: nat| bounded(cs, n) implies r[j].bounded(n) by {
                assert(cs[k].bounded(n));
            }
        }
        assert forall|k: int| 0 <= k < cs.len() implies (#[trigger] cs[k]).spec_reduce(a) != Some(Clause::Empty) by {
            assert(outcomes[k] == cs[k].spec_reduce(a));
        }
    }
}

/// Reduction keeps the truth value of a formula under every total
/// assignment that extends the partial one.
pub proof fn lemma_reduced_sound(cs: Seq<Clause>, a: Seq<Option<bool>>, t: Seq<bool>)
    requires
        bounded(cs, t.len()),
        extends(t, a),
    ensures
        holds(cs, t) == holds(reduced(cs, a), t),
{
    let outcomes = cs.map_values(reduce_under(a));
    let r = reduced(cs, a);
    if outcomes.contains(Some(Clause::Empty)) {
        let k = choose|k: int| 0 <= k < outcomes.len() && outcomes[k] == Some(Clause::Empty);
        crate::clause::lemma_reduce_sound(cs[k], t, a);
        assert(!cs[k].spec_eval(t));
        assert(!r[0].spec_eval(t));
    } else {
        lemma_survivors_members(outcomes);
        if holds(cs, t) {
            assert forall|j: int| 0 <= j < r.len() implies (#[trigger] r[j]).spec_eval(t) by {
                assert(outcomes.contains(Some(r[j])));
                let k = choose|k: int| 0 <= k < outcomes.len() && outcomes[k] == Some(r[j]);
                crate::clause::lemma_reduce_sound(cs[k], t, a);
                assert(cs[k].spec_eval(t));
            }
        }
        if holds(r, t) {
            assert forall|k: int| 0 <= k < cs.len() implies (#[trigger] cs[k]).spec_eval(t) by {
                crate::clause::lemma_reduce_sound(cs[k], t, a);
                assert(outcomes[k] == cs[k].spec_reduce(a));
                if outcomes[k] is Some {
                    assert(r.contains(outcomes[k].unwrap()));
                    let j = choose|j: int| 0 <= j < r.len() && r[j] == outcomes[k].unwrap();
                    assert(r[j].spec_eval(t));
                }
            }
        }
    }
}

/// Recording unit clauses keeps what was set, and sets the variable of each.
pub proof fn lemma_record_shape(us: Seq<Clause>, a: Seq<Option<bool>>)
    requires
        bounded(us, a.len()),
    ensures
        refines(record(us, a), a),
        forall|k: int| 0 <= k < us.len() ==> ((#[trigger] us[k]) matches Clause::C1(l)
            ==> record(us, a)[l.index as int] is Some),
    decreases us.len(),
{
    if us.len() > 0 {
        let init = us.drop_last();
        assert(bounded(init, a.len())) by {
            assert forall|k: int| 0 <= k < init.len() implies (#[trigger] init[k]).bounded(a.len()) by {
                assert(init[k] == us[k]);
            }
        }
        lemma_record_shape(init, a);
        let b = record(init, a);
        let c = record(us, a);
        assert(us[us.len() - 1].bounded(a.len()));
        assert forall|k: int| 0 <= k < us.len() implies ((#[trigger] us[k]) matches Clause::C1(l)
            ==> c[l.index as int] is Some) by {
            if k < init.len() {
                assert(init[k] == us[k]);
            }
        }
        assert forall|i: int| 0 <= i < a.len() && a[i] is Some implies #[trigger] c[i] == a[i] by {
            assert(b[i] == a[i]);
        }
    }
}

/// A total assignment that makes the unit clauses true and extends `a`
/// extends `a` with the unit clauses recorded.
pub proof fn lemma_record_sound(us: Seq<Clause>, a: Seq<Option<bool>>, t: Seq<bool>)
    requires
        bounded(us, a.len()),
        extends(t, a),
        holds(us, t),
    ensures
        extends(t, record(us, a)),
    decreases us.len(),
{
    if us.len() > 0 {
        let init = us.drop_last();
        assert(bounded(init, a.len()) && holds(init, t)) by {
            assert forall|k: int| 0 <= k < init.len() implies (#[trigger] init[k]).bounded(a.len())
                && init[k].spec_eval(t) by {
                assert(init[k] == us[k]);
            }
        }
        lemma_record_sound(init, a, t);
        lemma_record_shape(init, a);
        let b = record(init, a);
        let c = record(us, a);
        assert(us[us.len() - 1].bounded(a.len()));
        assert(us[us.len() - 1].spec_eval(t));
        assert forall|i: int| 0 <= i < c.len() && c[i] is Some implies c[i] == Some(#[trigger] t[i]) by {
            if b[i] is Some {
                assert(b[i] == Some(t[i]));
            }
        }
    }
}

/// The unit clauses of a formula are clauses of it.
pub proof fn lemma_units(cs: Seq<Clause>)
    ensures
        forall|j: int| 0 <= j < units(cs).len() ==> (#[trigger] units(cs)[j]) is C1 && cs.contains(units(cs)[j]),
        forall|k: int| 0 <= k < cs.len() && (#[trigger] cs[k]) is C1 ==> units(cs).contains(cs[k]),
        forall|n: nat| bounded(cs, n) ==> bounded(units(cs), n),
        forall|t: Seq<bool>| holds(cs, t) ==> holds(units(cs), t),
{
    lemma_filter_members(cs, is_unit());
    let us = units(cs);
    assert forall|n: nat| bounded(cs, n) implies bounded(us, n) by {
        assert forall|j: int| 0 <= j < us.len() implies (#[trigger] us[j]).bounded(n) by {
            assert(cs.contains(us[j]));
            let k = choose|k: int| 0 <= k < cs.len() && cs[k] == us[j];
            assert(cs[k].bounded(n));
        }
    }
    assert forall|t: Seq<bool>| holds(cs, t) implies holds(us, t) by {
        assert forall|j: int| 0 <= j < us.len() implies (#[trigger] us[j]).spec_eval(t) by {
            assert(cs.contains(us[j]));
            let k = choose|k: int| 0 <= k < cs.len() && cs[k] == us[j];
            assert(cs[k].spec_eval(t));
        }
    }
}

/// One round of unit propagation on a formula with unit clauses ends in
/// `[Empty]` or in a shorter formula.
pub proof fn lemma_round_shrinks(cs: Seq<Clause>, a: Seq<Option<bool>>)
    requires
        bounded(cs, a.len()),
        units(cs).len() > 0,
    ensures
        reduced(cs, record(units(cs), a)) == seq![Clause::Empty]
            || reduced(cs, record(units(cs), a)).len() < cs.len(),
{
    let b = record(units(cs), a);
    let outcomes = cs.map_values(reduce_under(b));
    lemma_units(cs);
    lemma_record_shape(units(cs), a);
    if !outcomes.contains(Some(Clause::Empty)) {
        let u = units(cs)[0];
        assert(cs.contains(u));
        let k = choose|k: int| 0 <= k < cs.len() && cs[k] == u;
        crate::clause::lemma_filter_literals(u, Literal::is_free(b));
        assert(outcomes[k] == u.spec_reduce(b));
        assert(u.spec_reduce(b) != Some(Clause::Empty));
        assert(outcomes[k] == None::<Clause>);
        lemma_survivors_members(outcomes);
    }
}

/// Unit propagation ends in `[Empty]` or in a formula without unit clauses.
pub proof fn lemma_propagate_fixpoint(cs: Seq<Clause>, a: Seq<Option<bool>>)
    requires
        bounded(cs, a.len()),
    ensures
        propagate(cs, a).0 == seq![Clause::Empty] || units(propagate(cs, a).0).len() == 0,
    decreases cs.len(),
{
    if units(cs).len() > 0 {
        let b = record(units(cs), a);
        let rest = reduced(cs, b);
        lemma_units(cs);
        lemma_record_shape(units(cs), a);
        lemma_round_shrinks(cs, a);
        lemma_reduced_shape(cs, b);
        if rest.len() < cs.len() {
            lemma_propagate_fixpoint(rest, b);
        }
    }
}

/// What unit propagation leaves: the assignment refined, and a formula over
/// the same variables that is no wider and mentions no variable that is set
/// if the formula it began with mentioned none.
pub proof fn lemma_propagate_shape(cs: Seq<Clause>, a: Seq<Option<bool>>)
    requires
        bounded(cs, a.len()),
    ensures
        refines(propagate(cs, a).1, a),
        bounded(propagate(cs, a).0, a.len()),
        propagate(cs, a).0.len() <= cs.len() || propagate(cs, a).0 == seq![Clause::Empty],
        narrow(cs) ==> narrow(propagate(cs, a).0),
        clean(cs, a) ==> clean(propagate(cs, a).0, propagate(cs, a).1),
    decreases cs.len(),
{
    if units(cs).len() > 0 {
        let b = record(units(cs), a);
        let rest = reduced(cs, b);
        lemma_units(cs);
        lemma_record_shape(units(cs), a);
        lemma_reduced_shape(cs, b);
        if rest.len() < cs.len() {
            lemma_propagate_shape(rest, b);
            let c = propagate(rest, b).1;
            assert forall|i: int| 0 <= i < a.len() && a[i] is Some implies #[trigger] c[i] == a[i] by {
                assert(b[i] == a[i]);
            }
        }
    }
}

/// Unit propagation is sound: a total assignment that extends `a` satisfies
/// the formula exactly if it extends the assignment that propagation leaves
/// and satisfies the formula that it leaves.
pub proof fn lemma_propagate_sound(cs: Seq<Clause>, a: Seq<Option<bool>>, t: Seq<bool>)
    requires
        bounded(cs, a.len()),
        extends(t, a),
    ensures
        holds(cs, t) <==> extends(t, propagate(cs, a).1) && holds(propagate(cs, a).0, t),
    decreases cs.len(),
{
    if units(cs).len() > 0 {
        let b = record(units(cs), a);
        let rest = reduced(cs, b);
        lemma_units(cs);
        lemma_record_shape(units(cs), a);
        lemma_reduced_shape(cs, b);
        if holds(cs, t) {
            lemma_record_sound(units(cs), a, t);
        }
        if extends(t, b) {
            lemma_reduced_sound(cs, b, t);
            if rest.len() < cs.len() {
                lemma_propagate_sound(rest, b, t);
            }
        } else {
            if rest.len() < cs.len() {
                lemma_propagate_shape(rest, b);
                if extends(t, propagate(rest, b).1) {
                    crate::assignment::lemma_extends_refines(t, propagate(rest, b).1, b);
                }
            }
        }
    }
}

/// Flipping the polarity of a variable twice gives the formula back.
pub proof fn lemma_invert_twice(cs: Seq<Clause>, index: usize)
    ensures
        inverted(inverted(cs, index), index) == cs,
{
    assert forall|k: int| 0 <= k < cs.len() implies inverted(inverted(cs, index), index)[k] == cs[k] by {
        crate::clause::lemma_invert_twice(cs[k], index);
    }
    assert(inverted(inverted(cs, index), index) =~= cs);
}
} // verus!
