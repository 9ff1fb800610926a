//! The decision engine, the backtracking search that it falls back on, and
//! the solver that holds a formula.

use std::collections::HashMap;
use vstd::prelude::*;
use petgraph::graph::Graph;
use petgraph::Directed;
use crate::assignment::{
    complete, extends, lemma_extends_refines, lemma_unset_count_refines, lemma_unset_count_update, new_assignment,
    refines, unset, unset_count,
};
use crate::clause::{Clause, Literal};
use crate::error::Error;
use crate::graph::{
    add_literal_edge, add_literal_node, literal_edges, literal_node, literal_node_count, literal_nodes,
};
use crate::phi::{
    bounded, holds, is_forcing, lemma_filter_members, lemma_propagate_shape, lemma_propagate_sound,
    lemma_reduced_shape, lemma_reduced_sound, lemma_vars_of, mentions, narrow, Phi, propagate, reduced, satisfiable,
    stamped, vars_of,
};
use crate::two_satisfiability::{MAX_CLAUSES, probed, solve_2_sat};

verus! {

broadcast use vstd::std_specs::hash::group_hash_axioms;

/// How a sweep over the free variables ended.
enum Sweep {
    /// Both probes of a variable failed: the formula has no model.
    Refuted,
    /// No value was forced, and nothing has changed.
    Quiet,
    /// At least one value was forced.
    Forced,
}

/// A formula to solve.
pub struct Solver {
    pub phi: Phi,
    pub solution: Option<Vec<bool>>,
}

/// The nodes and edges of a graph of literals.
pub type Wiring = (Seq<Literal>, Seq<(usize, usize)>);

// What the values mean.

/// The formula `cur` under the partial assignment `a` stands for the formula
/// `phi` under `base`: `a` adds to `base` only values that every model of
/// `phi` over `base` has, and under `a` the two formulas have the same models.
#[verifier::opaque]
pub open spec fn tracks(
    phi: Seq<Clause>,
    base: Seq<Option<bool>>,
    cur: Seq<Clause>,
    a: Seq<Option<bool>>,
) -> bool {
    &&& refines(a, base)
    &&& bounded(phi, base.len())
    &&& bounded(cur, a.len())
    &&& forall|t: Seq<bool>| #[trigger] extends(t, base) && holds(phi, t) ==> extends(t, a)
    &&& forall|t: Seq<bool>| #[trigger] extends(t, a) ==> (holds(cur, t) <==> holds(phi, t))
}

/// The total assignment that a list of signed variable numbers stands for:
/// a variable is true where its entry is positive.
pub open spec fn signs(v: Seq<isize>) -> Seq<bool> {
    Seq::new(v.len(), |i: int| v[i] > 0)
}

/// Two literals are on the same variable with the same polarity.
pub open spec fn alike(x: Literal, y: Literal) -> bool {
    x.index == y.index && x.value == y.value
}

/// Node `k` is the first with a literal like `l`.
pub open spec fn first_like(nodes: Seq<Literal>, l: Literal, k: int) -> bool {
    &&& 0 <= k < nodes.len()
    &&& alike(nodes[k], l)
    &&& forall|j: int| 0 <= j < k ==> !alike(#[trigger] nodes[j], l)
}

/// Some node has a literal like `l`.
pub open spec fn has_like(nodes: Seq<Literal>, l: Literal) -> bool {
    exists|k: int| 0 <= k < nodes.len() && alike(#[trigger] nodes[k], l)
}

/// The first node with a literal like `l`.
pub open spec fn node_like(nodes: Seq<Literal>, l: Literal) -> usize {
    choose|k: usize| first_like(nodes, l, k as int)
}

/// The nodes with a node for `l` added, unless there is one like it.
pub open spec fn with_like(nodes: Seq<Literal>, l: Literal) -> Seq<Literal> {
    if has_like(nodes, l) {
        nodes
    } else {
        nodes.push(l)
    }
}

/// The nodes that an implication from `a`, and from `b` if there is one, to
/// `c` needs: a node like `a`, a node like `b`, and the node `c` itself,
/// each added where it is missing.
pub open spec fn implication_nodes(nodes: Seq<Literal>, a: Literal, b: Option<Literal>, c: Literal) -> Seq<Literal> {
    let with_a = with_like(nodes, a);
    let with_b = match b {
        Some(l) => with_like(with_a, l),
        None => with_a,
    };
    if with_b.contains(c) {
        with_b
    } else {
        with_b.push(c)
    }
}

/// The graph with the implication from `a`, and from `b` if there is one,
/// to `c`: the nodes that it needs, and an edge to the first node like `c`
/// from the first node like `b`, if there is a `b`, and then from the first
/// node like `a`.
pub open spec fn with_implication(w: Wiring, a: Literal, b: Option<Literal>, c: Literal) -> Wiring {
    let nodes = implication_nodes(w.0, a, b, c);
    let target = node_like(nodes, c);
    let edges = match b {
        Some(l) => w.1.push((node_like(nodes, l), target)).push((node_like(nodes, a), target)),
        None => w.1.push((node_like(nodes, a), target)),
    };
    (nodes, edges)
}

/// A literal as a conclusion: marked as derived, not as false.
pub open spec fn concluded(l: Literal) -> Literal {
    Literal { index: l.index, value: l.value, implicated: true, assigned: false }
}

/// The graph with the implication that a clause of three or two literals
/// gives for its first literal not marked false: from the other literals
/// of the clause to that literal as a conclusion. Other clauses give nothing.
pub open spec fn with_clause(w: Wiring, clause: Clause) -> Wiring {
    match clause {
        Clause::C3(l1, l2, l3) => {
            if !l1.assigned {
                with_implication(w, l2, Some(l3), concluded(l1))
            } else if !l2.assigned {
                with_implication(w, l1, Some(l3), concluded(l2))
            } else if !l3.assigned {
                with_implication(w, l1, Some(l2), concluded(l3))
            } else {
                w
            }
        },
        Clause::C2(l1, l2) => {
            if !l1.assigned {
                with_implication(w, l2, None, concluded(l1))
            } else if !l2.assigned {
                with_implication(w, l1, None, concluded(l2))
            } else {
                w
            }
        },
        _ => w,
    }
}

/// The graph with the implications of the clauses `cs`, in order.
pub open spec fn with_clauses(w: Wiring, cs: Seq<Clause>) -> Wiring
    decreases cs.len(),
{
    if cs.len() == 0 {
        w
    } else {
        with_clause(with_clauses(w, cs.drop_last()), cs.last())
    }
}

/// The conclusions that clash with an earlier one: the nodes marked as
/// derived on a variable on which an earlier node is marked as derived, in order.
pub open spec fn clashing(nodes: Seq<Literal>) -> Seq<Literal>
    decreases nodes.len(),
{
    if nodes.len() == 0 {
        Seq::empty()
    } else {
        let before = nodes.drop_last();
        let l = nodes.last();
        if l.implicated && concluded_before(before, l.index) {
            clashing(before).push(l)
        } else {
            clashing(before)
        }
    }
}

/// Some node is marked as derived on variable `index`.
pub open spec fn concluded_before(nodes: Seq<Literal>, index: usize) -> bool {
    exists|j: int| 0 <= j < nodes.len() && (#[trigger] nodes[j]).implicated && nodes[j].index == index
}

// The operations.

impl Solver {
    /// The number of variables of the formula.
    pub fn num_variables(&self) -> (r: usize)
        requires
            vars_of(self.phi@) <= usize::MAX,
        ensures
            r == vars_of(self.phi@),
    {
        self.phi.vars()
    }

    /// The number of clauses of the formula.
    pub fn num_clauses(&self) -> (r: usize)
        ensures
            r == self.phi@.len(),
    {
        self.phi.clauses.len()
    }

    /// Decides the formula. A model comes as one signed number for each
    /// variable, counted from one: positive where the variable is true,
    /// negative where it is false. `None` means that there is no model.
    pub fn solve(&self) -> (r: Option<Vec<isize>>)
        requires
            vars_of(self.phi@) <= isize::MAX,
            self.phi@.len() <= MAX_CLAUSES,
        ensures
            r matches Some(v) ==> {
                &&& v@.len() == vars_of(self.phi@)
                &&& forall|i: int| 0 <= i < v@.len() ==> #[trigger] v@[i] == i + 1 || v@[i] == -(i + 1)
                &&& holds(self.phi@, signs(v@))
            },
            r is None ==> !satisfiable(self.phi@, vars_of(self.phi@)),
    {
        match solve(&self.phi) {
            Some(solution) => {
                let mut assignment: Vec<isize> = Vec::new();
                let mut index: usize = 0;
                while index < solution.len()
                    invariant
                        index <= solution.len(),
                        solution@.len() <= isize::MAX,
                        assignment@.len() == index,
                        forall|i: int| 0 <= i < index
                            ==> #[trigger] assignment@[i] == if solution@[i] { i + 1 } else { -(i + 1) },
                    decreases solution.len() - index,
                {
                    if solution[index] {
                        assignment.push(index as isize + 1);
                    } else {
                        assignment.push(-(index as isize + 1));
                    }
                    index += 1;
                }
                assert(signs(assignment@) =~= solution@);
                Some(assignment)
            },
            None => None,
        }
    }
}

/// One probe of the forcing phase: the 2-SAT oracle on the clauses on
/// variable `v`, with `v` set to `value`.
///
/// An error means that no model of the formula over `a` gives `v` that
/// value; otherwise every such model has the values that come back.
fn probe(
    focus: &Phi,
    a: &mut Vec<Option<bool>>,
    v: usize,
    value: bool,
    Ghost(cur): Ghost<Seq<Clause>>,
) -> (r: Result<Vec<Option<bool>>, Error>)
    requires
        bounded(cur, old(a)@.len()),
        cur.len() <= MAX_CLAUSES,
        old(a)@.len() <= isize::MAX,
        focus@ == cur.filter(mentions(v)),
        v < old(a)@.len(),
        old(a)@[v as int] is None,
    ensures
        final(a)@ == old(a)@,
        r matches Ok(f) ==> forall|t: Seq<bool>|
            #[trigger] extends(t, old(a)@) && holds(cur, t) && t[v as int] == value ==> extends(t, f@),
        r is Err ==> forall|t: Seq<bool>| #[trigger] extends(t, old(a)@) && holds(cur, t) ==> t[v as int] != value,
{
    let n = a.len();
    let ghost before = a@;
    a.set(v, Some(value));
    proof {
        lemma_probed(cur, before, v, value);
        lemma_filter_members(cur, mentions(v));
        assert(bounded(focus@, n as nat)) by {
            assert forall|j: int| 0 <= j < focus@.len() implies (#[trigger] focus@[j]).bounded(n as nat) by {
                assert(cur.contains(focus@[j]));
                let k = choose|k: int| 0 <= k < cur.len() && cur[k] == focus@[j];
                assert(cur[k].bounded(n as nat));
            }
        }
    }
    let residue = focus.reduce(a.as_slice());
    let r = solve_2_sat(&residue, n);
    a.set(v, None);
    proof {
        assert(a@ =~= before);
        let p = probed(cur, before, v, value);
        assert(residue@ == p);
        if r is Ok {
            let f = r->Ok_0;
            assert forall|t: Seq<bool>| #[trigger] extends(t, before) && holds(cur, t) && t[v as int] == value
                implies extends(t, f@) by {
                crate::assignment::lemma_extends_unset(t);
                lemma_propagate_sound(p, unset(n as nat), t);
            }
        } else {
            assert forall|t: Seq<bool>| #[trigger] extends(t, before) && holds(cur, t)
                implies t[v as int] != value by {
                if t[v as int] == value {
                    assert(holds(p, t));
                    assert(satisfiable(p, n as nat));
                }
            }
        }
    }
    r
}

/// Records a forced value: sets variable `index` to `value` and marks the
/// formula by the forced literal.
fn force(cur: &mut Phi, a: &mut Vec<Option<bool>>, index: usize, value: bool)
    requires
        bounded(old(cur)@, old(a)@.len()),
        index < old(a)@.len(),
        old(a)@[index as int] is None,
        forall|t: Seq<bool>| #[trigger] extends(t, old(a)@) && holds(old(cur)@, t) ==> t[index as int] == value,
    ensures
        tracks(old(cur)@, old(a)@, final(cur)@, final(a)@),
        final(a)@.len() == old(a)@.len(),
        final(cur)@.len() == old(cur)@.len(),
        unset_count(final(a)@) < unset_count(old(a)@),
{
    let lit = Literal { index, value, implicated: true, assigned: false };
    let clause = Clause::C1(lit);
    proof {
        lemma_tracks_force(cur@, a@, lit);
        lemma_unset_count_update(a@, index as int, value);
    }
    cur.update_implications(&clause);
    a.set(index, Some(value));
}

/// The forcing phase: probes each variable of `free` that is still unset
/// with both values, and records what the probes force.
fn sweep(cur: &mut Phi, a: &mut Vec<Option<bool>>, free: &Vec<usize>) -> (r: Sweep)
    requires
        bounded(old(cur)@, old(a)@.len()),
        old(cur)@.len() <= MAX_CLAUSES,
        old(a)@.len() <= isize::MAX,
    ensures
        tracks(old(cur)@, old(a)@, final(cur)@, final(a)@),
        final(a)@.len() == old(a)@.len(),
        final(cur)@.len() == old(cur)@.len(),
        r is Refuted ==> forall|t: Seq<bool>| #[trigger] extends(t, final(a)@) ==> !holds(final(cur)@, t),
        r is Quiet ==> final(a)@ == old(a)@ && final(cur)@ == old(cur)@,
        r is Forced ==> unset_count(final(a)@) < unset_count(old(a)@),
{
    let ghost cur0 = cur@;
    let ghost a0 = a@;
    let n = a.len();
    let mut forced = false;
    let mut i: usize = 0;
    proof {
        lemma_tracks_start(cur0, a0);
    }
    while i < free.len()
        invariant
            i <= free.len(),
            a0 == old(a)@,
            cur0 == old(cur)@,
            n == a0.len(),
            a@.len() == n,
            cur@.len() == cur0.len(),
            cur0.len() <= MAX_CLAUSES,
            n <= isize::MAX,
            bounded(cur0, a0.len()),
            bounded(cur@, n as nat),
            tracks(cur0, a0, cur@, a@),
            !forced ==> a@ == a0 && cur@ == cur0,
            forced ==> unset_count(a@) < unset_count(a0),
        decreases free.len() - i,
    {
        let v = free[i];
        if v < n && a[v].is_none() {
            let ghost cur1 = cur@;
            let ghost a1 = a@;
            let focus = cur.phi_prime(v);
            let if_true = probe(&focus, a, v, true, Ghost(cur1));
            let if_false = probe(&focus, a, v, false, Ghost(cur1));
            match (if_true, if_false) {
                (Err(_), Err(_)) => {
                    assert forall|t: Seq<bool>| #[trigger] extends(t, a@) implies !holds(cur@, t) by {
                        if holds(cur@, t) {
                            assert(t[v as int] != true && t[v as int] != false);
                        }
                    }
                    return Sweep::Refuted;
                },
                (Ok(_), Err(_)) => {
                    force(cur, a, v, true);
                    forced = true;
                },
                (Err(_), Ok(_)) => {
                    force(cur, a, v, false);
                    forced = true;
                },
                (Ok(with_true), Ok(with_false)) => {
                    let agreed = record_agreement(cur, a, &with_true, &with_false, Ghost(v));
                    forced = forced || agreed;
                },
            }
            proof {
                lemma_tracks_trans(cur0, a0, cur1, a1, cur@, a@);
                lemma_tracks_use(cur1, a1, cur@, a@, Seq::empty());
                lemma_unset_count_refines(a@, a1);
            }
        }
        i += 1;
    }
    if forced {
        Sweep::Forced
    } else {
        Sweep::Quiet
    }
}

/// Records every value on which the two probes of variable `v` agree, for
/// the variables that are still unset. Says whether there was one.
fn record_agreement(
    cur: &mut Phi,
    a: &mut Vec<Option<bool>>,
    with_true: &Vec<Option<bool>>,
    with_false: &Vec<Option<bool>>,
    Ghost(v): Ghost<usize>,
) -> (agreed: bool)
    requires
        bounded(old(cur)@, old(a)@.len()),
        v < old(a)@.len(),
        forall|t: Seq<bool>|
            #[trigger] extends(t, old(a)@) && holds(old(cur)@, t) && t[v as int] == true ==> extends(t, with_true@),
        forall|t: Seq<bool>|
            #[trigger] extends(t, old(a)@) && holds(old(cur)@, t) && t[v as int] == false ==> extends(t, with_false@),
    ensures
        tracks(old(cur)@, old(a)@, final(cur)@, final(a)@),
        final(a)@.len() == old(a)@.len(),
        final(cur)@.len() == old(cur)@.len(),
        !agreed ==> final(a)@ == old(a)@ && final(cur)@ == old(cur)@,
        agreed ==> unset_count(final(a)@) < unset_count(old(a)@),
{
    let ghost cur0 = cur@;
    let ghost a0 = a@;
    let n = a.len();
    let mut agreed = false;
    let mut i: usize = 0;
    proof {
        lemma_tracks_start(cur0, a0);
    }
    while i < n
        invariant
            i <= n,
            a0 == old(a)@,
            cur0 == old(cur)@,
            n == a0.len(),
            a@.len() == n,
            v < n,
            cur@.len() == cur0.len(),
            bounded(cur0, a0.len()),
            bounded(cur@, n as nat),
            tracks(cur0, a0, cur@, a@),
            !agreed ==> a@ == a0 && cur@ == cur0,
            agreed ==> unset_count(a@) < unset_count(a0),
            forall|t: Seq<bool>| #[trigger] extends(t, a0) && holds(cur0, t) && t[v as int] == true
                ==> extends(t, with_true@),
            forall|t: Seq<bool>|
                #[trigger] extends(t, a0) && holds(cur0, t) && t[v as int] == false ==> extends(t, with_false@),
        decreases n - i,
    {
        if i < with_true.len() && i < with_false.len() && a[i].is_none() {
            match (with_true[i], with_false[i]) {
                (Some(l1), Some(l2)) => {
                    if l1 == l2 {
                        let ghost cur1 = cur@;
                        let ghost a1 = a@;
                        proof {
                            assert forall|t: Seq<bool>| #[trigger] extends(t, a1) && holds(cur1, t)
                                implies t[i as int] == l1 by {
                                lemma_tracks_use(cur0, a0, cur1, a1, t);
                                assert(extends(t, a0) && holds(cur0, t));
                                if t[v as int] {
                                    assert(extends(t, with_true@));
                                    assert(with_true@[i as int] == Some(t[i as int]));
                                } else {
                                    assert(extends(t, with_false@));
                                    assert(with_false@[i as int] == Some(t[i as int]));
                                }
                            }
                        }
                        force(cur, a, i, l1);
                        proof {
                            lemma_tracks_trans(cur0, a0, cur1, a1, cur@, a@);
                            lemma_tracks_use(cur0, a0, cur1, a1, Seq::empty());
                            lemma_tracks_use(cur1, a1, cur@, a@, Seq::empty());
                            lemma_unset_count_refines(a1, a0);
                        }
                        agreed = true;
                    }
                },
                _ => {},
            }
        }
        i += 1;
    }
    agreed
}

/// The variable to branch on: the first free variable of the formula that
/// the assignment leaves unset, and failing that the variable of the first
/// literal of the formula, if the assignment leaves it unset.
fn branch_variable(phi: &Phi, assignments: &Vec<Option<bool>>) -> (r: Option<usize>)
    requires
        bounded(phi@, assignments@.len()),
    ensures
        r matches Some(v) ==> v < assignments@.len() && assignments@[v as int] is None,
        phi@.len() > 0 && phi@[0].width() > 0 && phi@[0].clean(assignments@) ==> r is Some,
{
    let n = assignments.len();
    proof {
        lemma_vars_of(phi@, n as nat);
    }
    let free = phi.get_variables();
    let mut i: usize = 0;
    while i < free.len()
        invariant
            i <= free.len(),
        decreases free.len() - i,
    {
        let v = free[i];
        if v < assignments.len() && assignments[v].is_none() {
            return Some(v);
        }
        i += 1;
    }
    if phi.clauses.len() == 0 {
        return None;
    }
    assert(phi@[0].bounded(assignments@.len()));
    let first = match phi.clauses[0] {
        Clause::C3(l, _, _) => l,
        Clause::C2(l, _) => l,
        Clause::C1(l) => l,
        Clause::Empty => {
            return None;
        },
    };
    if assignments[first.index].is_none() {
        Some(first.index)
    } else {
        None
    }
}

/// A copy of a partial assignment.
fn copy_assignment(a: &Vec<Option<bool>>) -> (r: Vec<Option<bool>>)
    ensures
        r@ == a@,
{
    let mut r: Vec<Option<bool>> = Vec::new();
    let mut i: usize = 0;
    while i < a.len()
        invariant
            i <= a.len(),
            r@ == a@.take(i as int),
        decreases a.len() - i,
    {
        r.push(a[i]);
        assert(a@.take(i + 1) =~= a@.take(i as int).push(a@[i as int]));
        i += 1;
    }
    assert(a@.take(i as int) =~= a@);
    r
}

/// The decision engine on the formula under a partial assignment.
///
/// In turn: the formula is reduced and its unit clauses are propagated; a
/// sweep probes each free variable and records what is forced; and when a
/// sweep forces nothing, the search branches on a variable.
fn search(phi: &Phi, assignment: Vec<Option<bool>>) -> (r: Option<Vec<bool>>)
    requires
        bounded(phi@, assignment@.len()),
        phi@.len() <= MAX_CLAUSES,
        assignment@.len() <= isize::MAX,
    ensures
        r matches Some(t) ==> extends(t@, assignment@) && holds(phi@, t@),
        r is None ==> forall|t: Seq<bool>| #[trigger] extends(t, assignment@) ==> !holds(phi@, t),
    decreases unset_count(assignment@),
{
    let ghost base = assignment@;
    let n = assignment.len();
    let mut a = assignment;
    let mut cur = phi.copy();
    proof {
        lemma_tracks_start(phi@, base);
    }
    loop
        invariant
            base == assignment@,
            a@.len() == n,
            n == base.len(),
            n <= isize::MAX,
            0 < MAX_CLAUSES,
            cur@.len() <= MAX_CLAUSES,
            bounded(cur@, n as nat),
            tracks(phi@, base, cur@, a@),
            unset_count(a@) <= unset_count(base),
        decreases unset_count(a@),
    {
        let ghost cur1 = cur@;
        let ghost a1 = a@;
        proof {
            lemma_tracks_reduce(cur1, a1);
            lemma_reduced_shape(cur1, a1);
            lemma_tracks_propagate(reduced(cur1, a1), a1);
            lemma_propagate_shape(reduced(cur1, a1), a1);
            lemma_first_clause(cur1, a1);
        }
        cur = cur.reduce(a.as_slice());
        let ghost cur2 = cur@;
        cur = cur.autoreduce_with_assignments(&mut a);
        let ghost cur3 = cur@;
        let ghost a3 = a@;
        proof {
            lemma_tracks_trans(phi@, base, cur1, a1, cur2, a1);
            lemma_tracks_trans(phi@, base, cur2, a1, cur3, a3);
            lemma_unset_count_refines(a3, a1);
        }
        if cur.clauses.len() == 0 {
            let t = complete(&a);
            proof {
                crate::assignment::lemma_completed_extends(a3);
                lemma_tracks_use(phi@, base, cur3, a3, t@);
            }
            return Some(t);
        }
        if let Clause::Empty = cur.clauses[0] {
            proof {
                assert forall|t: Seq<bool>| #[trigger] extends(t, base) implies !holds(phi@, t) by {
                    lemma_tracks_use(phi@, base, cur3, a3, t);
                    lemma_empty_first(cur3, t);
                }
            }
            return None;
        }
        proof {
            lemma_vars_of(cur3, n as nat);
        }
        let free = cur.get_variables();
        let outcome = sweep(&mut cur, &mut a, &free);
        proof {
            lemma_tracks_trans(phi@, base, cur3, a3, cur@, a@);
            lemma_tracks_use(cur3, a3, cur@, a@, Seq::empty());
        }
        match outcome {
            Sweep::Refuted => {
                proof {
                    assert forall|t: Seq<bool>| #[trigger] extends(t, base) implies !holds(phi@, t) by {
                        lemma_tracks_use(phi@, base, cur@, a@, t);
                    }
                }
                return None;
            },
            Sweep::Forced => {},
            Sweep::Quiet => {
                let v = match branch_variable(&cur, &a) {
                    Some(v) => v,
                    None => {
                        return None;
                    },
                };
                let mut with_true = copy_assignment(&a);
                with_true.set(v, Some(true));
                let mut with_false = copy_assignment(&a);
                with_false.set(v, Some(false));
                proof {
                    lemma_unset_count_update(a@, v as int, true);
                    lemma_unset_count_update(a@, v as int, false);
                }
                match search(&cur, with_true) {
                    Some(t) => {
                        proof {
                            lemma_tracks_use(phi@, base, cur@, a@, t@);
                        }
                        return Some(t);
                    },
                    None => {},
                }
                match search(&cur, with_false) {
                    Some(t) => {
                        proof {
                            lemma_tracks_use(phi@, base, cur@, a@, t@);
                        }
                        return Some(t);
                    },
                    None => {
                        proof {
                            assert forall|t: Seq<bool>| #[trigger] extends(t, base) implies !holds(phi@, t) by {
                                lemma_tracks_use(phi@, base, cur@, a@, t);
                                if holds(phi@, t) {
                                    if t[v as int] {
                                        assert(extends(t, a@.update(v as int, Some(true))));
                                    } else {
                                        assert(extends(t, a@.update(v as int, Some(false))));
                                    }
                                }
                            }
                        }
                        return None;
                    },
                }
            },
        }
    }
}

/// Decides the formula: a total assignment over its variables that makes
/// every clause true, or `None` where there is none. Variables that the
/// search leaves open are false in the assignment.
pub fn solve(phi: &Phi) -> (r: Option<Vec<bool>>)
    requires
        vars_of(phi@) <= isize::MAX,
        phi@.len() <= MAX_CLAUSES,
    ensures
        r matches Some(t) ==> t@.len() == vars_of(phi@) && holds(phi@, t@),
        r is None ==> !satisfiable(phi@, vars_of(phi@)),
{
    let n_vars = phi.vars();
    let assignment = new_assignment(n_vars);
    proof {
        lemma_vars_of(phi@, n_vars as nat);
    }
    let r = search(phi, assignment);
    proof {
        if r is None {
            assert forall|t: Seq<bool>| t.len() == n_vars implies !#[trigger] holds(phi@, t) by {
                crate::assignment::lemma_extends_unset(t);
            }
        }
    }
    r
}

/// Backtracking search on the formula under a partial assignment: reduce,
/// propagate units, and branch on a variable, first with true, then with false.
fn _dpll(phi: &Phi, assignments: Vec<Option<bool>>) -> (r: Option<Vec<Option<bool>>>)
    requires
        bounded(phi@, assignments@.len()),
    ensures
        r matches Some(a) ==> refines(a@, assignments@) && forall|t: Seq<bool>| #[trigger] extends(t, a@)
            ==> holds(phi@, t),
        r is None ==> forall|t: Seq<bool>| #[trigger] extends(t, assignments@) ==> !holds(phi@, t),
    decreases unset_count(assignments@),
{
    let ghost base = assignments@;
    let mut a = assignments;
    proof {
        lemma_tracks_start(phi@, base);
        lemma_tracks_reduce(phi@, base);
        lemma_reduced_shape(phi@, base);
        lemma_tracks_propagate(reduced(phi@, base), base);
        lemma_first_clause(phi@, base);
    }
    let reduced_phi = phi.reduce(a.as_slice());
    let new_phi = reduced_phi.autoreduce_with_assignments(&mut a);
    proof {
        lemma_tracks_trans(phi@, base, reduced_phi@, base, new_phi@, a@);
        lemma_tracks_use(phi@, base, new_phi@, a@, Seq::empty());
        lemma_unset_count_refines(a@, base);
    }
    if new_phi.clauses.len() == 0 {
        proof {
            assert forall|t: Seq<bool>| #[trigger] extends(t, a@) implies holds(phi@, t) by {
                lemma_tracks_use(phi@, base, new_phi@, a@, t);
            }
        }
        return Some(a);
    }
    if let Clause::Empty = new_phi.clauses[0] {
        proof {
            assert forall|t: Seq<bool>| #[trigger] extends(t, base) implies !holds(phi@, t) by {
                lemma_tracks_use(phi@, base, new_phi@, a@, t);
                lemma_empty_first(new_phi@, t);
            }
        }
        return None;
    }
    let literal = match branch_variable(&new_phi, &a) {
        Some(v) => v,
        None => {
            return None;
        },
    };
    let mut with_true = copy_assignment(&a);
    with_true.set(literal, Some(true));
    let mut with_false = copy_assignment(&a);
    with_false.set(literal, Some(false));
    proof {
        lemma_unset_count_update(a@, literal as int, true);
        lemma_unset_count_update(a@, literal as int, false);
    }
    if let Some(found) = _dpll(&new_phi, with_true) {
        proof {
            assert forall|t: Seq<bool>| #[trigger] extends(t, found@) implies holds(phi@, t) by {
                lemma_extends_refines(t, found@, a@.update(literal as int, Some(true)));
                lemma_tracks_use(phi@, base, new_phi@, a@, t);
            }
            assert forall|i: int| 0 <= i < base.len() && base[i] is Some implies #[trigger] found@[i] == base[i] by {
                assert(a@[i] == base[i]);
                assert(a@.update(literal as int, Some(true))[i] == a@[i]);
            }
        }
        return Some(found);
    }
    if let Some(found) = _dpll(&new_phi, with_false) {
        proof {
            assert forall|t: Seq<bool>| #[trigger] extends(t, found@) implies holds(phi@, t) by {
                lemma_extends_refines(t, found@, a@.update(literal as int, Some(false)));
                lemma_tracks_use(phi@, base, new_phi@, a@, t);
            }
            assert forall|i: int| 0 <= i < base.len() && base[i] is Some implies #[trigger] found@[i] == base[i] by {
                assert(a@[i] == base[i]);
                assert(a@.update(literal as int, Some(false))[i] == a@[i]);
            }
        }
        return Some(found);
    }
    proof {
        assert forall|t: Seq<bool>| #[trigger] extends(t, base) implies !holds(phi@, t) by {
            lemma_tracks_use(phi@, base, new_phi@, a@, t);
            if holds(phi@, t) {
                if t[literal as int] {
                    assert(extends(t, a@.update(literal as int, Some(true))));
                } else {
                    assert(extends(t, a@.update(literal as int, Some(false))));
                }
            }
        }
    }
    None
}

/// Decides the formula by backtracking search: a partial assignment over
/// its variables of which every completion makes every clause true, or
/// `None` where the formula has no model.
pub fn dpll(phi: &Phi) -> (r: Option<Vec<Option<bool>>>)
    requires
        vars_of(phi@) <= usize::MAX,
    ensures
        r matches Some(a) ==> a@.len() == vars_of(phi@) && forall|t: Seq<bool>| #[trigger] extends(t, a@)
            ==> holds(phi@, t),
        r is None ==> !satisfiable(phi@, vars_of(phi@)),
{
    let assignments = new_assignment(phi.vars());
    proof {
        lemma_vars_of(phi@, vars_of(phi@));
    }
    let r = _dpll(phi, assignments);
    proof {
        if r is None {
            assert forall|t: Seq<bool>| t.len() == vars_of(phi@) implies !#[trigger] holds(phi@, t) by {
                crate::assignment::lemma_extends_unset(t);
            }
        }
    }
    r
}

/// Adds a decision to the graph: a node for the literal, marked as set and
/// not as derived. Returns the index of the node.
pub fn add_decision(lit: Literal, graph: &mut Graph<Literal, Literal, Directed, u32>) -> (id: usize)
    requires
        literal_nodes(*old(graph)).len() < u32::MAX,
    ensures
        literal_nodes(*final(graph)) == literal_nodes(*old(graph)).push(
            Literal { index: lit.index, value: lit.value, implicated: false, assigned: true },
        ),
        literal_edges(*final(graph)) == literal_edges(*old(graph)),
        id == literal_nodes(*old(graph)).len(),
{
    let lit = Literal { index: lit.index, value: lit.value, implicated: false, assigned: true };
    add_literal_node(graph, lit)
}

/// The first node with a literal like `l`, if there is one.
fn find_like(graph: &Graph<Literal, Literal, Directed, u32>, l: Literal) -> (r: Option<usize>)
    ensures
        match r {
            Some(k) => first_like(literal_nodes(*graph), l, k as int) && k == node_like(literal_nodes(*graph), l),
            None => !has_like(literal_nodes(*graph), l),
        },
{
    let n = literal_node_count(graph);
    let mut k: usize = 0;
    while k < n
        invariant
            k <= n,
            n == literal_nodes(*graph).len(),
            forall|j: int| 0 <= j < k ==> !alike(#[trigger] literal_nodes(*graph)[j], l),
        decreases n - k,
    {
        let x = literal_node(graph, k);
        if x.index == l.index && x.value == l.value {
            proof {
                lemma_first_like(literal_nodes(*graph), l, k as int);
            }
            return Some(k);
        }
        k += 1;
    }
    None
}

/// Whether some node holds exactly the literal `l`.
fn holds_node(graph: &Graph<Literal, Literal, Directed, u32>, l: Literal) -> (r: bool)
    ensures
        r == literal_nodes(*graph).contains(l),
{
    let n = literal_node_count(graph);
    let mut k: usize = 0;
    while k < n
        invariant
            k <= n,
            n == literal_nodes(*graph).len(),
            forall|j: int| 0 <= j < k ==> #[trigger] literal_nodes(*graph)[j] != l,
        decreases n - k,
    {
        let x = literal_node(graph, k);
        if x == l {
            return true;
        }
        k += 1;
    }
    false
}

/// Adds the implication "`a` and `b` imply `c`" to the graph, or "`a`
/// implies `c`" where there is no `b`.
///
/// A node is added for `a` and for `b` unless a node is on the same variable
/// with the same polarity, and for `c` unless a node holds exactly `c`. The
/// edges lead to the first node like `c`: from the first node like `b`, if
/// there is a `b`, and then from the first node like `a`. Returns the nodes
/// of `a`, `b` and `c` between which the edges were laid.
pub fn add_implication(
    a: Literal,
    b: Option<Literal>,
    c: Literal,
    graph: &mut Graph<Literal, Literal, Directed, u32>,
) -> (r: (usize, Option<usize>, usize))
    requires
        literal_nodes(*old(graph)).len() + 3 < u32::MAX,
        literal_edges(*old(graph)).len() + 2 < u32::MAX,
    ensures
        (literal_nodes(*final(graph)), literal_edges(*final(graph))) == with_implication(
            (literal_nodes(*old(graph)), literal_edges(*old(graph))),
            a,
            b,
            c,
        ),
        r.0 == node_like(literal_nodes(*final(graph)), a),
        r.1 == match b {
            Some(l) => Some(node_like(literal_nodes(*final(graph)), l)),
            None => None,
        },
        r.2 == node_like(literal_nodes(*final(graph)), c),
{
    if find_like(graph, a).is_none() {
        add_literal_node(graph, a);
    }
    if let Some(l) = b {
        if find_like(graph, l).is_none() {
            add_literal_node(graph, l);
        }
    }
    if !holds_node(graph, c) {
        add_literal_node(graph, c);
    }
    let ghost nodes = literal_nodes(*graph);
    proof {
        let with_a = with_like(literal_nodes(*old(graph)), a);
        assert(has_like(with_a, a)) by {
            if !has_like(literal_nodes(*old(graph)), a) {
                assert(alike(with_a[with_a.len() - 1], a));
            }
        }
        let with_b = match b {
            Some(l) => with_like(with_a, l),
            None => with_a,
        };
        assert(nodes == implication_nodes(literal_nodes(*old(graph)), a, b, c));
        let k = choose|k: int| 0 <= k < with_a.len() && alike(#[trigger] with_a[k], a);
        assert(alike(nodes[k], a));
        if let Some(l) = b {
            assert(has_like(with_b, l)) by {
                if !has_like(with_a, l) {
                    assert(alike(with_b[with_b.len() - 1], l));
                }
            }
            let k = choose|k: int| 0 <= k < with_b.len() && alike(#[trigger] with_b[k], l);
            assert(alike(nodes[k], l));
        }
        assert(nodes.contains(c)) by {
            if !with_b.contains(c) {
                assert(nodes[nodes.len() - 1] == c);
            }
        }
        let k = choose|k: int| 0 <= k < nodes.len() && nodes[k] == c;
        assert(alike(nodes[k], c));
    }
    let node1 = match find_like(graph, a) {
        Some(k) => k,
        None => 0,
    };
    let node3 = match find_like(graph, c) {
        Some(k) => k,
        None => 0,
    };
    let weight = Literal { index: 0, value: false, implicated: false, assigned: false };
    let node2 = match b {
        Some(l) => {
            let k = match find_like(graph, l) {
                Some(k) => k,
                None => 0,
            };
            add_literal_edge(graph, k, node3, weight);
            Some(k)
        },
        None => None,
    };
    add_literal_edge(graph, node1, node3, weight);
    (node1, node2, node3)
}

/// Adds to the graph the implications of the clauses that force a literal:
/// for each clause of three or two literals of which all but one are marked
/// false, the implication from the marked literals to the one that is left.
/// Unit clauses give no implication.
pub fn update_implication_graph(phi: &Phi, graph: &mut Graph<Literal, Literal, Directed, u32>)
    requires
        literal_nodes(*old(graph)).len() + 3 * phi@.len() + 3 < u32::MAX,
        literal_edges(*old(graph)).len() + 2 * phi@.len() + 2 < u32::MAX,
    ensures
        (literal_nodes(*final(graph)), literal_edges(*final(graph))) == with_clauses(
            (literal_nodes(*old(graph)), literal_edges(*old(graph))),
            phi@.filter(is_forcing()),
        ),
{
    let implications = phi.get_implications();
    let ghost start: Wiring = (literal_nodes(*graph), literal_edges(*graph));
    proof {
        lemma_filter_members(phi@, is_forcing());
    }
    let mut i: usize = 0;
    while i < implications.len()
        invariant
            i <= implications.len(),
            implications@.len() <= phi@.len(),
            forall|j: int| 0 <= j < implications@.len() ==> (#[trigger] implications@[j]).forcing(),
            start.0.len() + 3 * phi@.len() + 3 < u32::MAX,
            start.1.len() + 2 * phi@.len() + 2 < u32::MAX,
            literal_nodes(*graph).len() <= start.0.len() + 3 * i,
            literal_edges(*graph).len() <= start.1.len() + 2 * i,
            (literal_nodes(*graph), literal_edges(*graph)) == with_clauses(start, implications@.take(i as int)),
        decreases implications.len() - i,
    {
        let clause = implications[i];
        let ghost before: Wiring = (literal_nodes(*graph), literal_edges(*graph));
        proof {
            assert(implications@.take(i + 1).drop_last() =~= implications@.take(i as int));
            assert(clause.forcing());
        }
        match clause {
            Clause::C3(lit1, lit2, lit3) => {
                if !lit1.assigned {
                    let l1 = Literal { index: lit1.index, value: lit1.value, implicated: true, assigned: false };
                    add_implication(lit2, Some(lit3), l1, graph);
                }
                if !lit2.assigned {
                    let l2 = Literal { index: lit2.index, value: lit2.value, implicated: true, assigned: false };
                    add_implication(lit1, Some(lit3), l2, graph);
                }
                if !lit3.assigned {
                    let l3 = Literal { index: lit3.index, value: lit3.value, implicated: true, assigned: false };
                    add_implication(lit1, Some(lit2), l3, graph);
                }
            },
            Clause::C2(lit1, lit2) => {
                if !lit1.assigned {
                    let l1 = Literal { index: lit1.index, value: lit1.value, implicated: true, assigned: false };
                    add_implication(lit2, None, l1, graph);
                }
                if !lit2.assigned {
                    let l2 = Literal { index: lit2.index, value: lit2.value, implicated: true, assigned: false };
                    add_implication(lit1, None, l2, graph);
                }
            },
            _ => {},
        }
        proof {
            assert((literal_nodes(*graph), literal_edges(*graph)) == with_clause(before, clause));
            lemma_implication_grows(before, clause);
        }
        i += 1;
    }
    assert(implications@.take(i as int) =~= implications@);
}

/// The conclusions in the graph that clash with an earlier one: each node
/// marked as derived on a variable on which an earlier node is marked as
/// derived, in the order of the nodes.
pub fn find_conflicts(graph: &Graph<Literal, Literal, Directed, u32>) -> (r: Vec<Literal>)
    ensures
        r@ == clashing(literal_nodes(*graph)),
{
    let ghost nodes = literal_nodes(*graph);
    let mut literals_found: HashMap<usize, bool> = HashMap::new();
    let mut conflicts: Vec<Literal> = Vec::new();
    let n = literal_node_count(graph);
    let mut k: usize = 0;
    while k < n
        invariant
            k <= n,
            n == nodes.len(),
            nodes == literal_nodes(*graph),
            forall|index: usize| #[trigger] literals_found@.contains_key(index)
                <==> concluded_before(nodes.take(k as int), index),
            conflicts@ == clashing(nodes.take(k as int)),
        decreases n - k,
    {
        let node = literal_node(graph, k);
        proof {
            assert(nodes.take(k + 1).drop_last() =~= nodes.take(k as int));
            assert(nodes.take(k + 1).last() == node);
        }
        let ghost found_before = literals_found@;
        if node.implicated {
            if literals_found.contains_key(&node.index) {
                conflicts.push(node);
            } else {
                literals_found.insert(node.index, true);
            }
        }
        proof {
            let init = nodes.take(k as int);
            let next = nodes.take(k + 1);
            assert forall|index: usize| #[trigger] literals_found@.contains_key(index)
                <==> concluded_before(next, index) by {
                if concluded_before(init, index) {
                    let j = choose|j: int| 0 <= j < init.len() && (#[trigger] init[j]).implicated
                        && init[j].index == index;
                    assert(next[j].implicated && next[j].index == index);
                }
                if concluded_before(next, index) {
                    let j = choose|j: int| 0 <= j < next.len() && (#[trigger] next[j]).implicated
                        && next[j].index == index;
                    if j < k {
                        assert(init[j].implicated && init[j].index == index);
                    }
                }
                if node.implicated && node.index == index {
                    assert(next[k as int].implicated && next[k as int].index == index);
                }
            }
        }
        k += 1;
    }
    assert(nodes.take(k as int) =~= nodes);
    conflicts
}

// The proofs.

/// A formula stands for itself.
pub proof fn lemma_tracks_start(phi: Seq<Clause>, base: Seq<Option<bool>>)
    requires
        bounded(phi, base.len()),
    ensures
        tracks(phi, base, phi, base),
{
    reveal(tracks);
}

/// What stands for a formula that stands for another stands for the other.
pub proof fn lemma_tracks_trans(
    phi: Seq<Clause>,
    base: Seq<Option<bool>>,
    mid: Seq<Clause>,
    b: Seq<Option<bool>>,
    cur: Seq<Clause>,
    a: Seq<Option<bool>>,
)
    requires
        tracks(phi, base, mid, b),
        tracks(mid, b, cur, a),
    ensures
        tracks(phi, base, cur, a),
{
    reveal(tracks);
    assert forall|t: Seq<bool>| #[trigger] extends(t, base) && holds(phi, t) implies extends(t, a) by {
        assert(extends(t, b));
    }
    assert forall|t: Seq<bool>| #[trigger] extends(t, a) implies (holds(cur, t) <==> holds(phi, t)) by {
        lemma_extends_refines(t, a, b);
    }
    assert forall|i: int| 0 <= i < base.len() && base[i] is Some implies #[trigger] a[i] == base[i] by {
        assert(b[i] == base[i]);
    }
}

/// What `tracks` says, for one total assignment.
pub proof fn lemma_tracks_use(
    phi: Seq<Clause>,
    base: Seq<Option<bool>>,
    cur: Seq<Clause>,
    a: Seq<Option<bool>>,
    t: Seq<bool>,
)
    requires
        tracks(phi, base, cur, a),
    ensures
        refines(a, base),
        bounded(cur, a.len()),
        bounded(phi, base.len()),
        extends(t, base) && holds(phi, t) ==> extends(t, a),
        extends(t, a) ==> (holds(cur, t) <==> holds(phi, t)),
        extends(t, a) ==> extends(t, base),
{
    reveal(tracks);
    if extends(t, a) {
        lemma_extends_refines(t, a, base);
    }
}

/// A reduced formula stands for the formula.
pub proof fn lemma_tracks_reduce(cur: Seq<Clause>, a: Seq<Option<bool>>)
    requires
        bounded(cur, a.len()),
    ensures
        tracks(cur, a, reduced(cur, a), a),
{
    reveal(tracks);
    lemma_reduced_shape(cur, a);
    assert forall|t: Seq<bool>| #[trigger] extends(t, a) implies (holds(reduced(cur, a), t) <==> holds(cur, t)) by {
        lemma_reduced_sound(cur, a, t);
    }
}

/// What unit propagation leaves stands for the formula.
pub proof fn lemma_tracks_propagate(cur: Seq<Clause>, a: Seq<Option<bool>>)
    requires
        bounded(cur, a.len()),
    ensures
        tracks(cur, a, propagate(cur, a).0, propagate(cur, a).1),
{
    reveal(tracks);
    lemma_propagate_shape(cur, a);
    let (left, b) = propagate(cur, a);
    assert forall|t: Seq<bool>| #[trigger] extends(t, a) && holds(cur, t) implies extends(t, b) by {
        lemma_propagate_sound(cur, a, t);
    }
    assert forall|t: Seq<bool>| #[trigger] extends(t, b) implies (holds(left, t) <==> holds(cur, t)) by {
        lemma_extends_refines(t, b, a);
        lemma_propagate_sound(cur, a, t);
    }
}

/// Recording a value that every model has, and marking the formula by it,
/// leaves what stands for the formula.
pub proof fn lemma_tracks_force(cur: Seq<Clause>, a: Seq<Option<bool>>, lit: Literal)
    requires
        bounded(cur, a.len()),
        lit.index < a.len(),
        a[lit.index as int] is None,
        forall|t: Seq<bool>| #[trigger] extends(t, a) && holds(cur, t) ==> t[lit.index as int] == lit.value,
    ensures
        tracks(cur, a, stamped(cur, lit), a.update(lit.index as int, Some(lit.value))),
{
    reveal(tracks);
    let next = stamped(cur, lit);
    let b = a.update(lit.index as int, Some(lit.value));
    assert forall|k: int| 0 <= k < next.len() implies (#[trigger] next[k]).bounded(b.len()) by {
        crate::clause::lemma_stamp_eval(cur[k], lit, Seq::empty());
        assert(cur[k].bounded(a.len()));
    }
    assert forall|t: Seq<bool>| holds(next, t) == holds(cur, t) by {
        lemma_stamped_holds(cur, lit, t);
    }
    assert forall|t: Seq<bool>| #[trigger] extends(t, b) implies (holds(next, t) <==> holds(cur, t)) by {}
}

/// Marks do not change which assignments satisfy a formula.
pub proof fn lemma_stamped_holds(cur: Seq<Clause>, lit: Literal, t: Seq<bool>)
    ensures
        holds(stamped(cur, lit), t) == holds(cur, t),
{
    let next = stamped(cur, lit);
    if holds(cur, t) {
        assert forall|k: int| 0 <= k < next.len() implies (#[trigger] next[k]).spec_eval(t) by {
            crate::clause::lemma_stamp_eval(cur[k], lit, t);
            assert(cur[k].spec_eval(t));
        }
    }
    if holds(next, t) {
        assert forall|k: int| 0 <= k < cur.len() implies (#[trigger] cur[k]).spec_eval(t) by {
            crate::clause::lemma_stamp_eval(cur[k], lit, t);
            assert(next[k].spec_eval(t));
        }
    }
}

/// The formula of a probe is over the same variables, has no more clauses
/// than the formula probed and none of three literals, and holds under
/// every model of the formula that gives the variable the probed value.
pub proof fn lemma_probed(cur: Seq<Clause>, a: Seq<Option<bool>>, v: usize, value: bool)
    requires
        bounded(cur, a.len()),
        v < a.len(),
    ensures
        bounded(probed(cur, a, v, value), a.len()),
        probed(cur, a, v, value).len() <= cur.len() || probed(cur, a, v, value) == seq![Clause::Empty],
        narrow(probed(cur, a, v, value)),
        forall|t: Seq<bool>|
            #[trigger] extends(t, a) && holds(cur, t) && t[v as int] == value ==> holds(probed(cur, a, v, value), t),
{
    let focus = cur.filter(mentions(v));
    let b = a.update(v as int, Some(value));
    let p = probed(cur, a, v, value);
    lemma_filter_members(cur, mentions(v));
    assert(bounded(focus, a.len())) by {
        assert forall|j: int| 0 <= j < focus.len() implies (#[trigger] focus[j]).bounded(a.len()) by {
            assert(cur.contains(focus[j]));
            let k = choose|k: int| 0 <= k < cur.len() && cur[k] == focus[j];
            assert(cur[k].bounded(a.len()));
        }
    }
    lemma_reduced_shape(focus, b);
    assert(narrow(p)) by {
        if p != seq![Clause::Empty] {
            assert forall|j: int| 0 <= j < p.len() implies (#[trigger] p[j]).width() <= 2 by {
                let k = choose|k: int| 0 <= k < focus.len() && focus[k].spec_reduce(b) == Some(p[j]);
                assert(mentions(v)(focus[k]));
                crate::clause::lemma_reduce_narrows(focus[k], b, v);
            }
        }
    }
    assert forall|t: Seq<bool>| #[trigger] extends(t, a) && holds(cur, t) && t[v as int] == value
        implies holds(p, t) by {
        assert(extends(t, b));
        assert(holds(focus, t)) by {
            assert forall|j: int| 0 <= j < focus.len() implies (#[trigger] focus[j]).spec_eval(t) by {
                assert(cur.contains(focus[j]));
                let k = choose|k: int| 0 <= k < cur.len() && cur[k] == focus[j];
                assert(cur[k].spec_eval(t));
            }
        }
        lemma_reduced_sound(focus, b, t);
    }
}

/// A formula whose first clause is empty has no model.
pub proof fn lemma_empty_first(cs: Seq<Clause>, t: Seq<bool>)
    requires
        cs.len() > 0,
        cs[0] is Empty,
    ensures
        !holds(cs, t),
{
    if holds(cs, t) {
        assert(cs[0].spec_eval(t));
    }
}

/// After reduction and unit propagation, a formula that is neither without
/// clauses nor `[Empty]` begins with a clause of free literals.
pub proof fn lemma_first_clause(cur: Seq<Clause>, a: Seq<Option<bool>>)
    requires
        bounded(cur, a.len()),
    ensures
        ({
            let (left, b) = propagate(reduced(cur, a), a);
            left.len() > 0 && !(left[0] is Empty) ==> left[0].width() > 0 && left[0].clean(b)
        }),
{
    lemma_reduced_shape(cur, a);
    lemma_propagate_shape(reduced(cur, a), a);
    let (left, b) = propagate(reduced(cur, a), a);
    if left.len() > 0 {
        assert(left[0].clean(b));
    }
}

/// The first node like a literal is the only one that is first.
pub proof fn lemma_first_like(nodes: Seq<Literal>, l: Literal, k: int)
    requires
        first_like(nodes, l, k),
        nodes.len() <= usize::MAX,
    ensures
        node_like(nodes, l) == k,
{
    let found = node_like(nodes, l);
    assert(first_like(nodes, l, (k as usize) as int));
    assert(first_like(nodes, l, found as int));
    if found < k {
        assert(!alike(nodes[found as int], l));
    }
    if k < found {
        assert(!alike(nodes[k], l));
    }
}

/// The implication of a clause adds at most three nodes and two edges.
pub proof fn lemma_implication_grows(w: Wiring, clause: Clause)
    ensures
        with_clause(w, clause).0.len() <= w.0.len() + 3,
        with_clause(w, clause).1.len() <= w.1.len() + 2,
{
}
} // verus!
