//! The 2-SAT oracle: satisfiability of formulas whose clauses have at most
//! two literals, decided on the strongly connected components of the
//! implication graph.

use std::collections::HashMap;
use vstd::prelude::*;
use petgraph::graph::Graph;
use petgraph::Directed;
use crate::assignment::{extends, new_assignment, unset};
use crate::clause::{Clause, Literal};
use crate::error::{Error, Reason};
use crate::graph::{
    add_edge, add_node, covered, edge_ends, in_part, is_condensation, is_walk, new_graph, node_weight, node_weights,
    reaches, tarjan_scc,
};
use crate::phi::{
    bounded, clean, free_variables, holds, lemma_filter_members, lemma_filter_push, lemma_reduced_shape,
    lemma_vars_of, mentions, narrow, occurs, Phi, propagate, reduced, satisfiable, units, variables, vars_of,
};

verus! {

broadcast use vstd::std_specs::hash::group_hash_axioms;

/// The largest number of clauses for which an implication graph is built:
/// four nodes a clause must fit the graph library's 32-bit node indices.
pub const MAX_CLAUSES: usize = 0x3fff_ffff;

/// What the oracle finds out about a satisfiable formula: the values that
/// unit propagation forces, and the implication graph of what it leaves
/// with its strongly connected components.
struct Analysis {
    forced: Vec<Option<bool>>,
    graph: Graph<isize, isize, Directed, u32>,
    parts: Vec<Vec<usize>>,
}

// What the values mean.

/// The literal with signed number `w` is true under the total assignment `t`.
pub open spec fn code_holds(w: int, t: Seq<bool>) -> bool {
    if w > 0 {
        t[w - 1]
    } else {
        !t[-w - 1]
    }
}

/// Every clause of `cs` has exactly two literals.
pub open spec fn binary(cs: Seq<Clause>) -> bool {
    forall|k: int| 0 <= k < cs.len() ==> (#[trigger] cs[k]) is C2
}

/// One of the two implications of a binary clause `(a or b)`, as a pair of
/// signed numbers: `not a -> b` for side 0, `not b -> a` for side 1.
pub open spec fn implication(c: Clause, side: int) -> (int, int) {
    match c {
        Clause::C2(l1, l2) => if side == 0 { (-l1.code(), l2.code()) } else { (-l2.code(), l1.code()) },
        _ => (0, 0),
    }
}

/// `g` is the implication graph of the binary clauses `cs`: its nodes are
/// the literals that occur in an implication, each once, named by its
/// signed number and in the order of first appearance, and its edges are
/// the two implications of each clause, in the order of the clauses.
#[verifier::opaque]
pub open spec fn is_implication_graph(g: Graph<isize, isize, Directed, u32>, cs: Seq<Clause>) -> bool {
    wires(node_weights(g), edge_ends(g), cs)
}

/// The nodes with a node for the literal `code` added at the end, unless
/// there is one.
pub open spec fn touch(nodes: Seq<isize>, code: int) -> Seq<isize> {
    if nodes.contains(code as isize) {
        nodes
    } else {
        nodes.push(code as isize)
    }
}

/// The nodes with those that the two implications of a clause need, each
/// added when an implication first names it.
pub open spec fn clause_nodes(nodes: Seq<isize>, c: Clause) -> Seq<isize> {
    touch(
        touch(touch(touch(nodes, implication(c, 0).0), implication(c, 0).1), implication(c, 1).0),
        implication(c, 1).1,
    )
}

/// The literals that the implications of `cs` name, each once, in the
/// order in which they first appear.
pub open spec fn appearing(cs: Seq<Clause>) -> Seq<isize>
    decreases cs.len(),
{
    if cs.len() == 0 {
        Seq::empty()
    } else {
        clause_nodes(appearing(cs.drop_last()), cs.last())
    }
}

/// The nodes and edges of the implication graph of `cs`.
pub open spec fn wires(nodes: Seq<isize>, edges: Seq<(usize, usize)>, cs: Seq<Clause>) -> bool {
    &&& nodes == appearing(cs)
    &&& nodes.no_duplicates()
    &&& edges.len() == 2 * cs.len()
    &&& forall|j: int| 0 <= j < cs.len() ==> wired(nodes, edges, #[trigger] cs[j], j)
    &&& forall|v: int| 0 <= v < nodes.len() ==> #[trigger] touched(edges, v)
}

/// Edges `2j` and `2j + 1` are the two implications of the clause `c`.
pub open spec fn wired(nodes: Seq<isize>, edges: Seq<(usize, usize)>, c: Clause, j: int) -> bool {
    &&& joins(nodes, edges[2 * j], implication(c, 0))
    &&& joins(nodes, edges[2 * j + 1], implication(c, 1))
}

/// The edge `ends` joins the nodes that stand for the two literals of `pair`.
pub open spec fn joins(nodes: Seq<isize>, ends: (usize, usize), pair: (int, int)) -> bool {
    &&& ends.0 < nodes.len()
    &&& ends.1 < nodes.len()
    &&& nodes[ends.0 as int] == pair.0
    &&& nodes[ends.1 as int] == pair.1
}

/// Node `v` is an end of some edge.
pub open spec fn touched(edges: Seq<(usize, usize)>, v: int) -> bool {
    exists|e: int| 0 <= e < edges.len() && ((#[trigger] edges[e]).0 == v || edges[e].1 == v)
}

/// `added` finds each node of `nodes` by its weight, and nothing else.
pub open spec fn catalogues(added: Map<isize, usize>, nodes: Seq<isize>) -> bool {
    &&& nodes.no_duplicates()
    &&& forall|w: isize| #[trigger] added.contains_key(w) ==> added[w] < nodes.len() && nodes[added[w] as int] == w
    &&& forall|v: int| 0 <= v < nodes.len() ==> added.contains_key(#[trigger] nodes[v])
}

/// Clause `k` is the first of `cs` that does not have exactly two literals.
pub open spec fn first_refusal(cs: Seq<Clause>, k: int) -> bool {
    &&& 0 <= k < cs.len()
    &&& !(cs[k] is C2)
    &&& forall|j: int| 0 <= j < k ==> (#[trigger] cs[j]) is C2
}

/// Why a clause that is not binary has no place in an implication graph.
pub open spec fn refusal(c: Clause) -> Reason {
    if c is C3 {
        Reason::NotA2SatFormula
    } else {
        Reason::EmptyClauseGiven
    }
}

/// The nodes `after` are the nodes `before` with a node for `code`, which is node `id`.
pub open spec fn grown(before: Seq<isize>, after: Seq<isize>, id: usize, code: int) -> bool {
    &&& id < after.len()
    &&& after[id as int] == code
    &&& after.no_duplicates()
    &&& after == touch(before, code)
}

/// A literal and its negation stand in one component.
pub open spec fn clash(nodes: Seq<isize>, parts: Seq<Vec<usize>>) -> bool {
    exists|c: int| 0 <= c < parts.len() && #[trigger] opposed(nodes, parts[c]@)
}

/// Two of the nodes `part` stand for a literal and its negation.
pub open spec fn opposed(nodes: Seq<isize>, part: Seq<usize>) -> bool {
    exists|i: int, j: int|
        0 <= i < part.len() && 0 <= j < part.len()
            && nodes[(#[trigger] part[i]) as int] == -nodes[(#[trigger] part[j]) as int]
}

/// The node that stands for the literal with signed number `w`.
pub open spec fn node_of(nodes: Seq<isize>, w: int) -> usize {
    choose|v: usize| v < nodes.len() && nodes[v as int] == w
}

/// The place of the component in which node `v` stands.
pub open spec fn part_of(parts: Seq<Vec<usize>>, v: usize) -> int {
    choose|c: int| in_part(parts, c, v)
}

/// The place of the component of the literal with signed number `w`.
pub open spec fn rank(nodes: Seq<isize>, parts: Seq<Vec<usize>>, w: int) -> int {
    part_of(parts, node_of(nodes, w))
}

/// The assignment read off the order of the components: a variable is true
/// if its positive literal stands in an earlier component than its negative one.
pub open spec fn model(nodes: Seq<isize>, parts: Seq<Vec<usize>>, n: nat) -> Seq<bool> {
    Seq::new(n, |i: int| rank(nodes, parts, i + 1) < rank(nodes, parts, -(i + 1)))
}

/// The total assignment `t` with the values that `a` sets put in their place.
pub open spec fn overridden(t: Seq<bool>, a: Seq<Option<bool>>) -> Seq<bool> {
    Seq::new(t.len(), |i: int| if a[i] is Some { a[i].unwrap() } else { t[i] })
}

/// What the oracle says of the formula `cs` over `n` variables, for each result.
pub open spec fn verdict<T>(cs: Seq<Clause>, n: nat, r: Result<T, Error>) -> bool {
    let left = propagate(cs, unset(n)).0;
    &&& r is Ok ==> binary(left) && satisfiable(cs, n)
    &&& r matches Err(e) ==> if binary(left) {
        e.says(Reason::NegationInSameSCC) && !satisfiable(cs, n)
    } else {
        exists|k: int| first_refusal(left, k) && e.says(refusal(left[k]))
    }
    &&& binary(left) ==> ((r matches Err(e) && e.reason == Reason::NegationInSameSCC) <==> !satisfiable(cs, n))
    &&& r is Err && narrow(cs) ==> !satisfiable(cs, n)
}

/// The variable of the literal with signed number `w`.
pub open spec fn variable_of(w: int) -> int {
    if w > 0 {
        w - 1
    } else {
        -w - 1
    }
}

/// The variables of the first `upto` nodes of `part` are set in `a`.
pub open spec fn settled(a: Seq<Option<bool>>, nodes: Seq<isize>, part: Seq<usize>, upto: int) -> bool {
    forall|j: int| 0 <= j < upto ==> is_set(a, variable_of(nodes[(#[trigger] part[j]) as int] as int))
}

/// Variable `i` is one of the variables of `a`, and `a` sets it.
pub open spec fn is_set(a: Seq<Option<bool>>, i: int) -> bool {
    0 <= i < a.len() && a[i] is Some
}

/// `a` sets variables that unit propagation did not force as the order of
/// the components says.
pub open spec fn follows_order(
    a: Seq<Option<bool>>,
    forced: Seq<Option<bool>>,
    nodes: Seq<isize>,
    parts: Seq<Vec<usize>>,
) -> bool {
    forall|i: int|
        0 <= i < a.len() && (#[trigger] a[i]) is Some && forced[i] is None
            ==> a[i] == Some(model(nodes, parts, a.len())[i])
}

/// The formula that a probe of variable `v` with `value` decides: the
/// clauses of `cur` on `v`, under `a` with `v` set to `value`.
pub open spec fn probed(cur: Seq<Clause>, a: Seq<Option<bool>>, v: usize, value: bool) -> Seq<Clause> {
    reduced(cur.filter(mentions(v)), a.update(v as int, Some(value)))
}

/// The oracle accepts the probe of variable `v` with `value` on the
/// formula `cs` over `n` variables: unit propagation leaves a binary
/// formula of the probe, and the probe is satisfiable.
pub open spec fn passes(cs: Seq<Clause>, n: nat, v: usize, value: bool) -> bool {
    let p = probed(cs, unset(n), v, value);
    binary(propagate(p, unset(n)).0) && satisfiable(p, n)
}

/// The test for a variable that the oracle accepts with either value.
pub open spec fn is_unrestrained(cs: Seq<Clause>) -> spec_fn(usize) -> bool {
    |v: usize| passes(cs, vars_of(cs), v, true) && passes(cs, vars_of(cs), v, false)
}

// The operations.

/// The node that stands for the literal `code`, added to the graph if it is
/// not there yet.
fn node_for(
    graph: &mut Graph<isize, isize, Directed, u32>,
    added: &mut HashMap<isize, usize>,
    code: isize,
) -> (id: usize)
    requires
        catalogues(old(added)@, node_weights(*old(graph))),
        node_weights(*old(graph)).len() < u32::MAX,
    ensures
        catalogues(final(added)@, node_weights(*final(graph))),
        edge_ends(*final(graph)) == edge_ends(*old(graph)),
        grown(node_weights(*old(graph)), node_weights(*final(graph)), id, code as int),
{
    match added.get(&code) {
        Some(node) => {
            assert(node_weights(*graph)[*node as int] == code);
            *node
        },
        None => {
            let ghost before = node_weights(*graph);
            let node = add_node(graph, code);
            added.insert(code, node);
            proof {
                let after = node_weights(*graph);
                assert forall|i: int, j: int| 0 <= i < after.len() && 0 <= j < after.len() && i != j implies after[i]
                    != after[j] by {
                    if i < before.len() && j < before.len() {
                        assert(before[i] != before[j]);
                    } else if i < before.len() {
                        assert(old(added)@.contains_key(before[i]));
                    } else if j < before.len() {
                        assert(old(added)@.contains_key(before[j]));
                    }
                }
                assert forall|v: int| 0 <= v < after.len() implies added@.contains_key(#[trigger] after[v]) by {
                    if v < before.len() {
                        assert(old(added)@.contains_key(before[v]));
                    }
                }
            }
            node
        },
    }
}

/// The implication graph of what unit propagation leaves of the formula.
///
/// Fails with `NotA2SatFormula` or `EmptyClauseGiven` where the first clause
/// left that is not binary has three literals or none.
pub fn create_graph(phi: &Phi) -> (r: Result<Graph<isize, isize, Directed, u32>, Error>)
    requires
        vars_of(phi@) <= isize::MAX,
        phi@.len() <= MAX_CLAUSES,
    ensures
        ({
            let left = propagate(phi@, unset(vars_of(phi@))).0;
            &&& r is Ok <==> binary(left)
            &&& r matches Ok(g) ==> is_implication_graph(g, left)
            &&& r matches Err(e) ==> exists|k: int| first_refusal(left, k) && e.says(refusal(left[k]))
        }),
{
    let mut graph = new_graph();
    let mut added: HashMap<isize, usize> = HashMap::new();
    let mut assignments = new_assignment(phi.vars());
    proof {
        crate::phi::lemma_vars_of(phi@, vars_of(phi@));
        crate::phi::lemma_propagate_shape(phi@, assignments@);
    }
    let rphi = phi.autoreduce_with_assignments(&mut assignments);
    let ghost left = rphi@;
    let mut k: usize = 0;
    while k < rphi.clauses.len()
        invariant
            k <= rphi.clauses.len(),
            left == rphi@,
            left == propagate(phi@, unset(vars_of(phi@))).0,
            left.len() <= MAX_CLAUSES,
            bounded(left, isize::MAX as nat),
            left == seq![Clause::Empty] || units(left).len() == 0,
            catalogues(added@, node_weights(graph)),
            node_weights(graph).len() <= 4 * k,
            forall|j: int| 0 <= j < k ==> (#[trigger] left[j]) is C2,
            wires(node_weights(graph), edge_ends(graph), left.take(k as int)),
        decreases rphi.clauses.len() - k,
    {
        match rphi.clauses[k] {
            Clause::C3(_, _, _) => {
                assert(first_refusal(left, k as int));
                return Err(Error::because(Reason::NotA2SatFormula));
            },
            Clause::C2(l1, l2) => {
                assert(left[k as int].bounded(isize::MAX as nat));
                let a = l1.as_isize();
                let b = l2.as_isize();
                let ghost edges0 = edge_ends(graph);
                let ghost nodes0 = node_weights(graph);
                let n1 = node_for(&mut graph, &mut added, -a);
                let ghost nodes1 = node_weights(graph);
                let n2 = node_for(&mut graph, &mut added, b);
                let ghost nodes2 = node_weights(graph);
                add_edge(&mut graph, n1, n2, 0);
                let n3 = node_for(&mut graph, &mut added, -b);
                let ghost nodes3 = node_weights(graph);
                let n4 = node_for(&mut graph, &mut added, a);
                add_edge(&mut graph, n3, n4, 0);
                proof {
                    lemma_wires_step(
                        nodes0,
                        nodes1,
                        nodes2,
                        nodes3,
                        node_weights(graph),
                        edges0,
                        left.take(k as int),
                        left[k as int],
                        (n1, n2),
                        (n3, n4),
                    );
                    assert(left.take(k + 1) =~= left.take(k as int).push(left[k as int]));
                }
            },
            Clause::C1(_) => {
                proof {
                    lemma_no_unit(left, k as int);
                }
                return Err(Error::because(Reason::EmptyClauseGiven));
            },
            Clause::Empty => {
                assert(first_refusal(left, k as int));
                return Err(Error::because(Reason::EmptyClauseGiven));
            },
        }
        k += 1;
    }
    proof {
        assert(left.take(k as int) =~= left);
        reveal(is_implication_graph);
    }
    Ok(graph)
}

/// Whether two of the nodes `part` stand for a literal and its negation.
fn holds_negation(graph: &Graph<isize, isize, Directed, u32>, part: &Vec<usize>) -> (found: bool)
    requires
        forall|j: int| 0 <= j < part@.len() ==> (#[trigger] part@[j]) < node_weights(*graph).len(),
        forall|v: int| 0 <= v < node_weights(*graph).len() ==> (#[trigger] node_weights(*graph)[v]) != 0
            && node_weights(*graph)[v] > isize::MIN,
    ensures
        found == opposed(node_weights(*graph), part@),
{
    let ghost nodes = node_weights(*graph);
    let mut seen: HashMap<isize, usize> = HashMap::new();
    let mut k: usize = 0;
    while k < part.len()
        invariant
            k <= part.len(),
            nodes == node_weights(*graph),
            forall|j: int| 0 <= j < part@.len() ==> (#[trigger] part@[j]) < nodes.len(),
            forall|v: int| 0 <= v < nodes.len() ==> (#[trigger] nodes[v]) != 0 && nodes[v] > isize::MIN,
            forall|w: isize| #[trigger] seen@.contains_key(w) ==> exists|j: int| 0 <= j < k
                && nodes[(#[trigger] part@[j]) as int] == w,
            forall|j: int| 0 <= j < k ==> seen@.contains_key(nodes[(#[trigger] part@[j]) as int]),
            forall|i: int, j: int| 0 <= i < k && 0 <= j < k
                ==> nodes[(#[trigger] part@[i]) as int] != -nodes[(#[trigger] part@[j]) as int],
        decreases part.len() - k,
    {
        let node = part[k];
        let w = node_weight(graph, node);
        let negation = -w;
        if seen.contains_key(&negation) {
            proof {
                let j = choose|j: int| 0 <= j < k && nodes[(#[trigger] part@[j]) as int] == negation;
                assert(nodes[part@[j] as int] == -nodes[part@[k as int] as int]);
            }
            return true;
        }
        let ghost earlier = seen@;
        seen.insert(w, node);
        proof {
            assert forall|i: int, j: int| 0 <= i < k + 1 && 0 <= j < k + 1 implies nodes[(#[trigger] part@[i]) as int]
                != -nodes[(#[trigger] part@[j]) as int] by {
                if i == k && j < k {
                    assert(earlier.contains_key(nodes[part@[j] as int]));
                } else if j == k && i < k {
                    assert(earlier.contains_key(nodes[part@[i] as int]));
                }
            }
        }
        k += 1;
    }
    false
}

/// Propagates the unit clauses, builds the implication graph of what is
/// left and looks for a literal in one component with its negation.
fn analyse(phi: &Phi, n: usize) -> (r: Result<Analysis, Error>)
    requires
        bounded(phi@, n as nat),
        n <= isize::MAX,
        phi@.len() <= MAX_CLAUSES,
    ensures
        verdict(phi@, n as nat, r),
        r matches Ok(x) ==> {
            &&& x.forced@ == propagate(phi@, unset(n as nat)).1
            &&& is_implication_graph(x.graph, propagate(phi@, unset(n as nat)).0)
            &&& is_condensation(node_weights(x.graph).len(), edge_ends(x.graph), x.parts@)
            &&& !clash(node_weights(x.graph), x.parts@)
        },
{
    let mut assignments = new_assignment(n);
    proof {
        crate::phi::lemma_propagate_shape(phi@, assignments@);
        crate::phi::lemma_propagate_fixpoint(phi@, assignments@);
        lemma_refused_unsat(phi@, n as nat);
    }
    let rphi = phi.autoreduce_with_assignments(&mut assignments);
    let ghost left = rphi@;
    proof {
        lemma_propagate_again(left, unset(vars_of(left)));
        crate::phi::lemma_vars_of(left, n as nat);
    }
    let graph = match create_graph(&rphi) {
        Ok(g) => g,
        Err(e) => {
            return Err(e);
        },
    };
    let parts = tarjan_scc(&graph);
    let ghost nodes = node_weights(graph);
    proof {
        assert(bounded(left, isize::MAX as nat)) by {
            assert forall|k: int| 0 <= k < left.len() implies (#[trigger] left[k]).bounded(isize::MAX as nat) by {
                assert(left[k].bounded(n as nat));
            }
        }
        lemma_weights(graph, left);
    }
    let mut c: usize = 0;
    while c < parts.len()
        invariant
            c <= parts.len(),
            nodes == node_weights(graph),
            is_condensation(nodes.len(), edge_ends(graph), parts@),
            forall|v: int| 0 <= v < nodes.len() ==> (#[trigger] nodes[v]) != 0 && nodes[v] > isize::MIN,
            forall|d: int| 0 <= d < c ==> !#[trigger] opposed(nodes, parts@[d]@),
            is_implication_graph(graph, left),
            binary(left),
            bounded(phi@, n as nat),
            n <= isize::MAX,
            left == propagate(phi@, unset(n as nat)).0,
        decreases parts.len() - c,
    {
        let part = &parts[c];
        proof {
            assert forall|j: int| 0 <= j < part@.len() implies (#[trigger] part@[j]) < nodes.len() by {
                assert(in_part(parts@, c as int, part@[j]));
                lemma_part_reaches(nodes.len(), edge_ends(graph), parts@, c as int, part@[j], part@[j]);
            }
        }
        if holds_negation(&graph, part) {
            proof {
                lemma_clash_refutes(graph, phi@, parts@, n as nat);
            }
            return Err(Error::because(Reason::NegationInSameSCC));
        }
        c += 1;
    }
    proof {
        lemma_no_clash_satisfies(graph, phi@, parts@, n as nat);
    }
    Ok(Analysis { forced: assignments, graph, parts })
}

/// Decides a formula whose clauses have at most two literals once its unit
/// clauses are propagated, over `n` variables.
///
/// Unit propagation from the assignment that sets nothing leaves a formula
/// and the values that it forced. If the formula left is binary, the result
/// is `Ok` with the forced values exactly if the formula is satisfiable, and
/// `NegationInSameSCC` otherwise. If it is not, the error is that of its
/// first clause that is not binary: `NotA2SatFormula` for three literals,
/// `EmptyClauseGiven` for none.
pub fn solve_2_sat(phi: &Phi, n: usize) -> (r: Result<Vec<Option<bool>>, Error>)
    requires
        bounded(phi@, n as nat),
        n <= isize::MAX,
        phi@.len() <= MAX_CLAUSES,
    ensures
        verdict(phi@, n as nat, r),
        r matches Ok(v) ==> v@ == propagate(phi@, unset(n as nat)).1,
{
    match analyse(phi, n) {
        Ok(x) => Ok(x.forced),
        Err(e) => Err(e),
    }
}

/// Decides a formula whose clauses have at most two literals once its unit
/// clauses are propagated, and gives a candidate assignment.
///
/// The verdict is that of `solve_2_sat` over the variables of the formula.
/// On success the assignment holds the values that unit propagation forced
/// and sets every variable of the formula that is left: going through the
/// components of the implication graph in their order, a variable gets the
/// polarity of its first literal on the way. Every total assignment that
/// extends it satisfies the formula.
pub fn _solve_2_sat(phi: &Phi) -> (r: Result<Vec<Option<bool>>, Error>)
    requires
        vars_of(phi@) <= isize::MAX,
        phi@.len() <= MAX_CLAUSES,
    ensures
        verdict(phi@, vars_of(phi@), r),
        r matches Ok(a) ==> {
            let (left, forced) = propagate(phi@, unset(vars_of(phi@)));
            &&& a@.len() == vars_of(phi@)
            &&& crate::assignment::refines(a@, forced)
            &&& forall|i: int| 0 <= i < a@.len() ==> ((#[trigger] a@[i]) is Some <==> forced[i] is Some
                || occurs(left, i as usize))
            &&& forall|t: Seq<bool>| #[trigger] extends(t, a@) ==> holds(phi@, t)
        },
{
    let n = phi.vars();
    proof {
        lemma_vars_of(phi@, n as nat);
        crate::phi::lemma_propagate_shape(phi@, unset(n as nat));
    }
    let x = match analyse(phi, n) {
        Ok(x) => x,
        Err(e) => {
            return Err(e);
        },
    };
    let ghost left = propagate(phi@, unset(n as nat)).0;
    let ghost forced = x.forced@;
    let ghost nodes = node_weights(x.graph);
    let ghost edges = edge_ends(x.graph);
    let graph = x.graph;
    let parts = x.parts;
    let mut a = x.forced;
    let mut c: usize = 0;
    while c < parts.len()
        invariant
            c <= parts.len(),
            n == vars_of(phi@),
            a@.len() == n,
            forced.len() == n,
            left == propagate(phi@, unset(n as nat)).0,
            forced == propagate(phi@, unset(n as nat)).1,
            nodes == node_weights(graph),
            edges == edge_ends(graph),
            bounded(left, n as nat),
            binary(left),
            is_implication_graph(graph, left),
            is_condensation(nodes.len(), edges, parts@),
            !clash(nodes, parts@),
            crate::assignment::refines(a@, forced),
            follows_order(a@, forced, nodes, parts@),
            forall|i: int| 0 <= i < n && (#[trigger] a@[i]) is Some ==> forced[i] is Some || occurs(left, i as usize),
            forall|d: int| 0 <= d < c ==> #[trigger] settled(a@, nodes, parts@[d]@, parts@[d]@.len() as int),
        decreases parts.len() - c,
    {
        let part = &parts[c];
        let mut k: usize = 0;
        while k < part.len()
            invariant
                k <= part.len(),
                0 <= c < parts.len(),
                part@ == parts@[c as int]@,
                n == vars_of(phi@),
                a@.len() == n,
                forced.len() == n,
                nodes == node_weights(graph),
                edges == edge_ends(graph),
                bounded(left, n as nat),
                binary(left),
                is_implication_graph(graph, left),
                is_condensation(nodes.len(), edges, parts@),
                !clash(nodes, parts@),
                crate::assignment::refines(a@, forced),
                follows_order(a@, forced, nodes, parts@),
                forall|i: int| 0 <= i < n && (#[trigger] a@[i]) is Some ==> forced[i] is Some
                    || occurs(left, i as usize),
                forall|d: int| 0 <= d < c ==> #[trigger] settled(a@, nodes, parts@[d]@, parts@[d]@.len() as int),
                settled(a@, nodes, part@, k as int),
            decreases part.len() - k,
        {
            let node = part[k];
            proof {
                assert(in_part(parts@, c as int, node));
                lemma_part_reaches(nodes.len(), edges, parts@, c as int, node, node);
                lemma_node(graph, left, n as nat, node as int);
            }
            let w = node_weight(&graph, node);
            let variable = if w > 0 { (w - 1) as usize } else { (-(w + 1)) as usize };
            assert(variable == variable_of(w as int));
            let ghost before = a@;
            if a[variable].is_none() {
                proof {
                    lemma_first_met(graph, left, parts@, n as nat, before, c as int, node);
                }
                a.set(variable, Some(w > 0));
            }
            proof {
                assert forall|d: int| 0 <= d < c
                    implies #[trigger] settled(a@, nodes, parts@[d]@, parts@[d]@.len() as int) by {
                    lemma_settled_stays(before, a@, nodes, parts@[d]@, parts@[d]@.len() as int);
                }
                lemma_settled_stays(before, a@, nodes, part@, k as int);
                assert(is_set(a@, variable_of(nodes[part@[k as int] as int] as int)));
            }
            k += 1;
        }
        c += 1;
    }
    proof {
        assert forall|t: Seq<bool>| #[trigger] extends(t, a@) implies holds(phi@, t) by {
            lemma_candidate(graph, phi@, parts@, n as nat, a@, t);
        }
        assert forall|i: int| 0 <= i < n && occurs(left, i as usize) implies (#[trigger] a@[i]) is Some by {
            lemma_occurring_set(graph, left, parts@, a@, i as usize);
        }
    }
    Ok(a)
}

/// The free variables that neither value refutes: those for which the
/// 2-SAT oracle accepts the clauses on the variable with the variable true
/// and with the variable false. In rising order.
pub fn unrestrained_vector(phi: &Phi) -> (r: Vec<usize>)
    requires
        vars_of(phi@) <= isize::MAX,
        phi@.len() <= MAX_CLAUSES,
    ensures
        r@ == free_variables(phi@).filter(is_unrestrained(phi@)),
{
    let mut reserves: Vec<usize> = Vec::new();
    let var_count = phi.vars();
    let vars = phi.get_variables();
    let mut assignment = new_assignment(var_count);
    proof {
        lemma_vars_of(phi@, var_count as nat);
        lemma_filter_members(variables(var_count as nat), crate::phi::is_free_variable(phi@));
    }
    let mut i: usize = 0;
    while i < vars.len()
        invariant
            i <= vars.len(),
            var_count == vars_of(phi@),
            var_count <= isize::MAX,
            phi@.len() <= MAX_CLAUSES,
            bounded(phi@, var_count as nat),
            vars@ == free_variables(phi@),
            forall|j: int| 0 <= j < vars@.len() ==> (#[trigger] vars@[j]) < var_count,
            assignment@ == unset(var_count as nat),
            reserves@ == vars@.take(i as int).filter(is_unrestrained(phi@)),
        decreases vars.len() - i,
    {
        let index = vars[i];
        proof {
            assert(vars@.take(i + 1) =~= vars@.take(i as int).push(index));
            lemma_filter_push(vars@.take(i as int), index, is_unrestrained(phi@));
            crate::phi::lemma_filter_members(phi@, mentions(index));
            assert(bounded(phi@.filter(mentions(index)), var_count as nat)) by {
                let focus = phi@.filter(mentions(index));
                assert forall|j: int| 0 <= j < focus.len()
                    implies (#[trigger] focus[j]).bounded(var_count as nat) by {
                    assert(phi@.contains(focus[j]));
                    let k = choose|k: int| 0 <= k < phi@.len() && phi@[k] == focus[j];
                    assert(phi@[k].bounded(var_count as nat));
                }
            }
            lemma_reduced_shape(phi@.filter(mentions(index)), unset(var_count as nat).update(index as int, Some(true)));
            lemma_reduced_shape(phi@.filter(mentions(index)), unset(var_count as nat).update(index as int, Some(false)));
        }
        let phi_prime = phi.phi_prime(index);
        assignment.set(index, Some(true));
        let phi_prime_true = phi_prime.reduce(assignment.as_slice());
        assert(phi_prime_true@ == probed(phi@, unset(var_count as nat), index, true));
        assignment.set(index, Some(false));
        assert(assignment@ =~= unset(var_count as nat).update(index as int, Some(false)));
        let phi_prime_false = phi_prime.reduce(assignment.as_slice());
        assert(phi_prime_false@ == probed(phi@, unset(var_count as nat), index, false));
        assignment.set(index, None);
        assert(assignment@ =~= unset(var_count as nat));
        let result_true = solve_2_sat(&phi_prime_true, var_count).is_ok();
        let result_false = solve_2_sat(&phi_prime_false, var_count).is_ok();
        assert(result_true == passes(phi@, var_count as nat, index, true));
        assert(result_false == passes(phi@, var_count as nat, index, false));
        if result_true && result_false {
            reserves.push(index);
        }
        i += 1;
    }
    assert(vars@.take(i as int) =~= vars@);
    reserves
}

// The proofs.

/// A formula that unit propagation leaves has no unit clause.
pub proof fn lemma_no_unit(cs: Seq<Clause>, k: int)
    requires
        cs == seq![Clause::Empty] || units(cs).len() == 0,
        0 <= k < cs.len(),
    ensures
        !(cs[k] is C1),
{
    crate::phi::lemma_units(cs);
}

/// Unit propagation changes nothing in a formula that it has left.
pub proof fn lemma_propagate_again(cs: Seq<Clause>, a: Seq<Option<bool>>)
    requires
        cs == seq![Clause::Empty] || units(cs).len() == 0,
    ensures
        propagate(cs, a) == (cs, a),
{
    crate::phi::lemma_units(cs);
    if units(cs).len() > 0 {
        let u = units(cs)[0];
        assert(cs.contains(u));
    }
}

/// The wiring of a formula, when the nodes and the two edges of one more
/// clause are added.
pub proof fn lemma_wires_step(
    nodes0: Seq<isize>,
    nodes1: Seq<isize>,
    nodes2: Seq<isize>,
    nodes3: Seq<isize>,
    nodes4: Seq<isize>,
    edges0: Seq<(usize, usize)>,
    cs: Seq<Clause>,
    c: Clause,
    first: (usize, usize),
    second: (usize, usize),
)
    requires
        wires(nodes0, edges0, cs),
        c is C2,
        grown(nodes0, nodes1, first.0, implication(c, 0).0),
        grown(nodes1, nodes2, first.1, implication(c, 0).1),
        grown(nodes2, nodes3, second.0, implication(c, 1).0),
        grown(nodes3, nodes4, second.1, implication(c, 1).1),
    ensures
        wires(nodes4, edges0.push(first).push(second), cs.push(c)),
{
    let edges = edges0.push(first).push(second);
    let all = cs.push(c);
    assert(all.drop_last() =~= cs);
    assert forall|i: int| 0 <= i < nodes0.len() implies nodes4[i] == nodes0[i] by {}
    assert forall|j: int| 0 <= j < all.len() implies wired(nodes4, edges, #[trigger] all[j], j) by {
        if j < cs.len() {
            assert(wired(nodes0, edges0, cs[j], j));
            assert(edges[2 * j] == edges0[2 * j]);
            assert(edges[2 * j + 1] == edges0[2 * j + 1]);
        } else {
            assert(edges[2 * j] == first);
            assert(edges[2 * j + 1] == second);
            assert(nodes4[first.0 as int] == nodes1[first.0 as int]);
            assert(nodes4[first.1 as int] == nodes2[first.1 as int]);
            assert(nodes4[second.0 as int] == nodes3[second.0 as int]);
        }
    }
    assert forall|v: int| 0 <= v < nodes4.len() implies #[trigger] touched(edges, v) by {
        if v < nodes0.len() {
            assert(touched(edges0, v));
            let e = choose|e: int| 0 <= e < edges0.len() && (edges0[e].0 == v || edges0[e].1 == v);
            assert(edges[e] == edges0[e]);
        } else {
            assert(v == first.0 || v == first.1 || v == second.0 || v == second.1);
            assert(edges[edges0.len() as int] == first);
            assert(edges[edges0.len() as int + 1] == second);
        }
    }
}

/// The signed number of a literal says when the literal holds.
pub proof fn lemma_code(l: Literal, t: Seq<bool>)
    requires
        l.index < t.len(),
    ensures
        code_holds(l.code(), t) == l.holds(t),
        code_holds(-l.code(), t) == !l.holds(t),
{
}

/// The signed number of a negated literal holds exactly if that of the literal does not.
pub proof fn lemma_code_negation(w: int, t: Seq<bool>)
    requires
        w != 0,
    ensures
        code_holds(-w, t) == !code_holds(w, t),
{
}

/// The two edges of clause `j` of an implication graph.
pub proof fn lemma_wired(g: Graph<isize, isize, Directed, u32>, cs: Seq<Clause>, j: int)
    requires
        is_implication_graph(g, cs),
        0 <= j < cs.len(),
    ensures
        wired(node_weights(g), edge_ends(g), cs[j], j),
        edge_ends(g).len() == 2 * cs.len(),
        node_weights(g).no_duplicates(),
{
    reveal(is_implication_graph);
}

/// Every edge of an implication graph is an implication of a clause.
pub proof fn lemma_edge(g: Graph<isize, isize, Directed, u32>, cs: Seq<Clause>, e: int)
    requires
        is_implication_graph(g, cs),
        0 <= e < edge_ends(g).len(),
    ensures
        0 <= e / 2 < cs.len(),
        joins(node_weights(g), edge_ends(g)[e], implication(cs[e / 2], e % 2)),
{
    reveal(is_implication_graph);
    let j = e / 2;
    assert(wired(node_weights(g), edge_ends(g), cs[j], j));
    if e % 2 == 0 {
        assert(e == 2 * j);
    } else {
        assert(e == 2 * j + 1);
    }
}

/// The weights of an implication graph are signed numbers of literals.
pub proof fn lemma_weights(g: Graph<isize, isize, Directed, u32>, cs: Seq<Clause>)
    requires
        is_implication_graph(g, cs),
        binary(cs),
        bounded(cs, isize::MAX as nat),
    ensures
        forall|v: int| 0 <= v < node_weights(g).len() ==> (#[trigger] node_weights(g)[v]) != 0
            && node_weights(g)[v] > isize::MIN,
{
    let nodes = node_weights(g);
    let edges = edge_ends(g);
    assert forall|v: int| 0 <= v < nodes.len() implies (#[trigger] nodes[v]) != 0 && nodes[v] > isize::MIN by {
        assert(touched(edges, v)) by {
            reveal(is_implication_graph);
        }
        let e = choose|e: int| 0 <= e < edges.len() && (edges[e].0 == v || edges[e].1 == v);
        lemma_edge(g, cs, e);
        assert(cs[e / 2] is C2);
        assert(cs[e / 2].bounded(isize::MAX as nat));
    }
}

/// Along a walk in the implication graph of a satisfied formula, truth is
/// handed on: if the first literal holds, so does the last.
pub proof fn lemma_walk_carries_truth(
    g: Graph<isize, isize, Directed, u32>,
    cs: Seq<Clause>,
    t: Seq<bool>,
    walk: Seq<usize>,
)
    requires
        is_implication_graph(g, cs),
        binary(cs),
        bounded(cs, t.len()),
        holds(cs, t),
        is_walk(edge_ends(g), walk),
        code_holds(node_weights(g)[walk.first() as int] as int, t),
    ensures
        code_holds(node_weights(g)[walk.last() as int] as int, t),
    decreases walk.len(),
{
    let nodes = node_weights(g);
    let edges = edge_ends(g);
    if walk.len() > 1 {
        let init = walk.drop_last();
        assert(is_walk(edges, init)) by {
            assert forall|k: int| 0 <= k < init.len() - 1
                implies edges.contains((#[trigger] init[k], init[k + 1])) by {
                assert(edges.contains((walk[k], walk[k + 1])));
            }
        }
        assert(init.first() == walk.first());
        lemma_walk_carries_truth(g, cs, t, init);
        let x = walk[walk.len() - 2];
        let y = walk[walk.len() - 1];
        assert(edges.contains((x, walk[walk.len() - 2 + 1])));
        let e = choose|e: int| 0 <= e < edges.len() && edges[e] == (x, y);
        lemma_edge(g, cs, e);
        let c = cs[e / 2];
        assert(c is C2 && c.bounded(t.len()) && c.spec_eval(t));
        match c {
            Clause::C2(l1, l2) => {
                lemma_code(l1, t);
                lemma_code(l2, t);
            },
            _ => {},
        }
    }
}

/// The nodes of one component reach each other.
pub proof fn lemma_part_reaches(n: nat, edges: Seq<(usize, usize)>, parts: Seq<Vec<usize>>, c: int, v: usize, w: usize)
    requires
        is_condensation(n, edges, parts),
        in_part(parts, c, v),
        in_part(parts, c, w),
    ensures
        reaches(edges, v, w),
        v < n,
{
    reveal(is_condensation);
}

/// Every node stands in the component that `part_of` names, and in no other.
pub proof fn lemma_part_of(n: nat, edges: Seq<(usize, usize)>, parts: Seq<Vec<usize>>, v: usize)
    requires
        is_condensation(n, edges, parts),
        v < n,
    ensures
        in_part(parts, part_of(parts, v), v),
        forall|c: int| in_part(parts, c, v) ==> c == part_of(parts, v),
{
    reveal(is_condensation);
    assert(covered(parts, v));
}

/// No edge leads from a component to a later one.
pub proof fn lemma_part_order(n: nat, edges: Seq<(usize, usize)>, parts: Seq<Vec<usize>>, e: int)
    requires
        is_condensation(n, edges, parts),
        0 <= e < edges.len(),
        edges[e].0 < n,
        edges[e].1 < n,
    ensures
        part_of(parts, edges[e].1) <= part_of(parts, edges[e].0),
{
    lemma_part_of(n, edges, parts, edges[e].0);
    lemma_part_of(n, edges, parts, edges[e].1);
    reveal(is_condensation);
}

/// A formula is unsatisfiable if a literal and its negation stand in one
/// strongly connected component of its implication graph.
pub proof fn lemma_clash_unsat(
    g: Graph<isize, isize, Directed, u32>,
    cs: Seq<Clause>,
    parts: Seq<Vec<usize>>,
    t: Seq<bool>,
)
    requires
        is_implication_graph(g, cs),
        binary(cs),
        bounded(cs, t.len()),
        bounded(cs, isize::MAX as nat),
        is_condensation(node_weights(g).len(), edge_ends(g), parts),
        clash(node_weights(g), parts),
    ensures
        !holds(cs, t),
{
    let nodes = node_weights(g);
    let edges = edge_ends(g);
    if holds(cs, t) {
        let c = choose|c: int| 0 <= c < parts.len() && #[trigger] opposed(nodes, parts[c]@);
        let part = parts[c]@;
        let (i, j) = choose|i: int, j: int|
            0 <= i < part.len() && 0 <= j < part.len()
                && nodes[(#[trigger] part[i]) as int] == -nodes[(#[trigger] part[j]) as int];
        let v = part[i];
        let w = part[j];
        assert(in_part(parts, c, v) && in_part(parts, c, w));
        lemma_part_reaches(nodes.len(), edges, parts, c, v, w);
        lemma_part_reaches(nodes.len(), edges, parts, c, w, v);
        lemma_weights(g, cs);
        assert(nodes[v as int] != 0);
        lemma_code_negation(nodes[v as int] as int, t);
        if code_holds(nodes[v as int] as int, t) {
            let walk = choose|walk: Seq<usize>| #[trigger] is_walk(edges, walk) && walk.first() == v
                && walk.last() == w;
            lemma_walk_carries_truth(g, cs, t, walk);
        } else {
            let walk = choose|walk: Seq<usize>| #[trigger] is_walk(edges, walk) && walk.first() == w
                && walk.last() == v;
            lemma_walk_carries_truth(g, cs, t, walk);
        }
    }
}

/// In an implication graph without a clash, a literal holds under the
/// assignment read off the components exactly if its component comes
/// before that of its negation.
pub proof fn lemma_model_literal(
    nodes: Seq<isize>,
    parts: Seq<Vec<usize>>,
    n: nat,
    l: Literal,
    this: usize,
    other: usize,
)
    requires
        nodes.no_duplicates(),
        l.index < n,
        this < nodes.len(),
        other < nodes.len(),
        nodes[this as int] == l.code(),
        nodes[other as int] == -l.code(),
        part_of(parts, this) != part_of(parts, other),
    ensures
        l.holds(model(nodes, parts, n)) <==> part_of(parts, this) < part_of(parts, other),
{
    let t = model(nodes, parts, n);
    let i = l.index as int;
    assert(t[i] == (rank(nodes, parts, i + 1) < rank(nodes, parts, -(i + 1))));
    assert(node_of(nodes, l.code()) == this);
    assert(node_of(nodes, -l.code()) == other);
}

/// A formula is satisfied by the assignment read off the order of the
/// components of its implication graph, if no literal stands in one
/// component with its negation.
pub proof fn lemma_model_holds(
    g: Graph<isize, isize, Directed, u32>,
    cs: Seq<Clause>,
    parts: Seq<Vec<usize>>,
    n: nat,
)
    requires
        is_implication_graph(g, cs),
        binary(cs),
        bounded(cs, n),
        is_condensation(node_weights(g).len(), edge_ends(g), parts),
        !clash(node_weights(g), parts),
    ensures
        holds(cs, model(node_weights(g), parts, n)),
{
    let nodes = node_weights(g);
    let edges = edge_ends(g);
    let t = model(nodes, parts, n);
    assert forall|k: int| 0 <= k < cs.len() implies (#[trigger] cs[k]).spec_eval(t) by {
        assert(cs[k] is C2 && cs[k].bounded(n));
        lemma_wired(g, cs, k);
        match cs[k] {
            Clause::C2(l1, l2) => {
                let e0 = 2 * k;
                let e1 = 2 * k + 1;
                let x0 = edges[e0].0;
                let y0 = edges[e0].1;
                let x1 = edges[e1].0;
                let y1 = edges[e1].1;
                lemma_part_order(nodes.len(), edges, parts, e0);
                lemma_part_order(nodes.len(), edges, parts, e1);
                lemma_part_of(nodes.len(), edges, parts, x0);
                lemma_part_of(nodes.len(), edges, parts, y0);
                lemma_part_of(nodes.len(), edges, parts, x1);
                lemma_part_of(nodes.len(), edges, parts, y1);
                lemma_no_clash(nodes, parts, part_of(parts, y1), y1, x0);
                lemma_no_clash(nodes, parts, part_of(parts, y0), y0, x1);
                lemma_model_literal(nodes, parts, n, l1, y1, x0);
                lemma_model_literal(nodes, parts, n, l2, y0, x1);
            },
            _ => {},
        }
    }
}

/// Without a clash, the nodes of a literal and of its negation stand in
/// different components.
pub proof fn lemma_no_clash(nodes: Seq<isize>, parts: Seq<Vec<usize>>, c: int, v: usize, w: usize)
    requires
        !clash(nodes, parts),
        in_part(parts, c, v),
        nodes[v as int] == -nodes[w as int],
    ensures
        !in_part(parts, c, w),
{
    if in_part(parts, c, w) {
        let part = parts[c]@;
        let i = choose|i: int| 0 <= i < part.len() && part[i] == v;
        let j = choose|j: int| 0 <= j < part.len() && part[j] == w;
        assert(nodes[part[i] as int] == -nodes[part[j] as int]);
        assert(opposed(nodes, part));
    }
}

/// Putting the values of `a` into a total assignment keeps every clause
/// that mentions no variable that `a` sets.
pub proof fn lemma_overridden(cs: Seq<Clause>, t: Seq<bool>, a: Seq<Option<bool>>)
    requires
        t.len() == a.len(),
        bounded(cs, t.len()),
        clean(cs, a),
    ensures
        extends(overridden(t, a), a),
        holds(cs, overridden(t, a)) == holds(cs, t),
{
    let u = overridden(t, a);
    assert forall|k: int| 0 <= k < cs.len() implies (#[trigger] cs[k]).spec_eval(u) == cs[k].spec_eval(t) by {
        assert(cs[k].clean(a) && cs[k].bounded(t.len()));
    }
    if holds(cs, t) {
        assert forall|k: int| 0 <= k < cs.len() implies (#[trigger] cs[k]).spec_eval(u) by {
            assert(cs[k].spec_eval(t));
        }
    }
    if holds(cs, u) {
        assert forall|k: int| 0 <= k < cs.len() implies (#[trigger] cs[k]).spec_eval(t) by {
            assert(cs[k].spec_eval(u));
        }
    }
}

/// A formula without clauses of three literals is unsatisfiable if unit
/// propagation leaves a clause of it that is not binary.
pub proof fn lemma_refused_unsat(cs: Seq<Clause>, n: nat)
    requires
        bounded(cs, n),
    ensures
        narrow(cs) && !binary(propagate(cs, unset(n)).0) ==> !satisfiable(cs, n),
{
    let left = propagate(cs, unset(n)).0;
    crate::phi::lemma_propagate_shape(cs, unset(n));
    crate::phi::lemma_propagate_fixpoint(cs, unset(n));
    if narrow(cs) && !binary(left) {
        let k = choose|k: int| 0 <= k < left.len() && !((#[trigger] left[k]) is C2);
        lemma_no_unit(left, k);
        assert(left[k].width() <= 2);
        assert(left[k] is Empty);
        assert forall|t: Seq<bool>| t.len() == n implies !#[trigger] holds(cs, t) by {
            crate::phi::lemma_propagate_sound(cs, unset(n), t);
            if holds(left, t) {
                assert(left[k].spec_eval(t));
            }
        }
    }
}

/// A binary formula is unsatisfiable if its implication graph has a clash,
/// and so is every formula of which unit propagation leaves it.
pub proof fn lemma_clash_refutes(
    g: Graph<isize, isize, Directed, u32>,
    cs: Seq<Clause>,
    parts: Seq<Vec<usize>>,
    n: nat,
)
    requires
        bounded(cs, n),
        n <= isize::MAX,
        binary(propagate(cs, unset(n)).0),
        is_implication_graph(g, propagate(cs, unset(n)).0),
        is_condensation(node_weights(g).len(), edge_ends(g), parts),
        clash(node_weights(g), parts),
    ensures
        !satisfiable(cs, n),
{
    let left = propagate(cs, unset(n)).0;
    crate::phi::lemma_propagate_shape(cs, unset(n));
    assert(bounded(left, isize::MAX as nat)) by {
        assert forall|k: int| 0 <= k < left.len() implies (#[trigger] left[k]).bounded(isize::MAX as nat) by {
            assert(left[k].bounded(n));
        }
    }
    assert forall|t: Seq<bool>| t.len() == n implies !#[trigger] holds(cs, t) by {
        lemma_clash_unsat(g, left, parts, t);
        crate::phi::lemma_propagate_sound(cs, unset(n), t);
    }
}

/// A formula is satisfiable if unit propagation leaves a binary formula of
/// it whose implication graph has no clash.
pub proof fn lemma_no_clash_satisfies(
    g: Graph<isize, isize, Directed, u32>,
    cs: Seq<Clause>,
    parts: Seq<Vec<usize>>,
    n: nat,
)
    requires
        bounded(cs, n),
        binary(propagate(cs, unset(n)).0),
        is_implication_graph(g, propagate(cs, unset(n)).0),
        is_condensation(node_weights(g).len(), edge_ends(g), parts),
        !clash(node_weights(g), parts),
    ensures
        satisfiable(cs, n),
{
    let (left, forced) = propagate(cs, unset(n));
    crate::phi::lemma_propagate_shape(cs, unset(n));
    lemma_model_holds(g, left, parts, n);
    let t = model(node_weights(g), parts, n);
    assert(clean(cs, unset(n))) by {
        assert forall|k: int| 0 <= k < cs.len() implies (#[trigger] cs[k]).clean(unset(n)) by {
            assert(cs[k].bounded(n));
        }
    }
    lemma_overridden(left, t, forced);
    let u = overridden(t, forced);
    crate::phi::lemma_propagate_sound(cs, unset(n), u);
    assert(holds(cs, u));
}

/// What is settled stays settled when more variables are set.
pub proof fn lemma_settled_stays(
    a: Seq<Option<bool>>,
    b: Seq<Option<bool>>,
    nodes: Seq<isize>,
    part: Seq<usize>,
    upto: int,
)
    requires
        settled(a, nodes, part, upto),
        a.len() == b.len(),
        forall|i: int| 0 <= i < a.len() && a[i] is Some ==> (#[trigger] b[i]) is Some,
    ensures
        settled(b, nodes, part, upto),
{
    assert forall|j: int| 0 <= j < upto implies is_set(b, variable_of(nodes[(#[trigger] part[j]) as int] as int)) by {
        let i = variable_of(nodes[part[j] as int] as int);
        assert(is_set(a, i));
        assert(b[i] is Some);
    }
}

/// A node of an implication graph stands for a literal on a variable of the
/// formula, and the graph has a node for the negation of the literal.
pub proof fn lemma_node(g: Graph<isize, isize, Directed, u32>, cs: Seq<Clause>, n: nat, v: int)
    requires
        is_implication_graph(g, cs),
        binary(cs),
        bounded(cs, n),
        0 <= v < node_weights(g).len(),
    ensures
        node_weights(g)[v] != 0,
        0 <= variable_of(node_weights(g)[v] as int) < n,
        occurs(cs, variable_of(node_weights(g)[v] as int) as usize),
        exists|w: usize| w < node_weights(g).len() && node_weights(g)[w as int] == -node_weights(g)[v],
{
    let nodes = node_weights(g);
    let edges = edge_ends(g);
    assert(touched(edges, v)) by {
        reveal(is_implication_graph);
    }
    let e = choose|e: int| 0 <= e < edges.len() && (edges[e].0 == v || edges[e].1 == v);
    lemma_edge(g, cs, e);
    let j = e / 2;
    assert(cs[j] is C2 && cs[j].bounded(n));
    lemma_wired(g, cs, j);
    let e0 = edges[2 * j];
    let e1 = edges[2 * j + 1];
    match cs[j] {
        Clause::C2(l1, l2) => {
            assert(variable_of(l1.code()) == l1.index && variable_of(-l1.code()) == l1.index);
            assert(variable_of(l2.code()) == l2.index && variable_of(-l2.code()) == l2.index);
            assert(cs[j].find(l1.index) is Some && cs[j].find(l2.index) is Some);
            if e == 2 * j {
                if edges[e].0 == v {
                    assert(nodes[e1.1 as int] == -nodes[v]);
                } else {
                    assert(nodes[e1.0 as int] == -nodes[v]);
                }
            } else {
                assert(e == 2 * j + 1);
                if edges[e].0 == v {
                    assert(nodes[e0.1 as int] == -nodes[v]);
                } else {
                    assert(nodes[e0.0 as int] == -nodes[v]);
                }
            }
        },
        _ => {},
    }
}

/// The first literal of a variable that the walk through the components
/// meets holds under the assignment read off their order.
pub proof fn lemma_first_met(
    g: Graph<isize, isize, Directed, u32>,
    cs: Seq<Clause>,
    parts: Seq<Vec<usize>>,
    n: nat,
    a: Seq<Option<bool>>,
    c: int,
    node: usize,
)
    requires
        is_implication_graph(g, cs),
        binary(cs),
        bounded(cs, n),
        is_condensation(node_weights(g).len(), edge_ends(g), parts),
        !clash(node_weights(g), parts),
        in_part(parts, c, node),
        forall|d: int| 0 <= d < c ==> #[trigger] settled(a, node_weights(g), parts[d]@, parts[d]@.len() as int),
        node < node_weights(g).len(),
        0 <= variable_of(node_weights(g)[node as int] as int) < a.len(),
        a[variable_of(node_weights(g)[node as int] as int)] is None,
    ensures
        model(node_weights(g), parts, n)[variable_of(node_weights(g)[node as int] as int)]
            == (node_weights(g)[node as int] > 0),
{
    let nodes = node_weights(g);
    let edges = edge_ends(g);
    lemma_part_reaches(nodes.len(), edges, parts, c, node, node);
    lemma_node(g, cs, n, node as int);
    assert(nodes.no_duplicates()) by {
        reveal(is_implication_graph);
    }
    let w = nodes[node as int] as int;
    let other = choose|o: usize| o < nodes.len() && nodes[o as int] == -nodes[node as int];
    lemma_part_of(nodes.len(), edges, parts, node);
    lemma_part_of(nodes.len(), edges, parts, other);
    let d = part_of(parts, other);
    lemma_no_clash(nodes, parts, c, node, other);
    assert(d != c);
    if d < c {
        assert(settled(a, nodes, parts[d]@, parts[d]@.len() as int));
        let j = choose|j: int| 0 <= j < parts[d]@.len() && parts[d]@[j] == other;
        assert(is_set(a, variable_of(nodes[parts[d]@[j] as int] as int)));
    }
    assert(node_of(nodes, w) == node);
    assert(node_of(nodes, -w) == other);
    let i = variable_of(w);
    assert(model(nodes, parts, n)[i] == (rank(nodes, parts, i + 1) < rank(nodes, parts, -(i + 1))));
}

/// Every total assignment satisfies the formula if it extends a partial one
/// that keeps what unit propagation forced, follows the order of the
/// components elsewhere, and sets the variable of every node.
pub proof fn lemma_candidate(
    g: Graph<isize, isize, Directed, u32>,
    cs: Seq<Clause>,
    parts: Seq<Vec<usize>>,
    n: nat,
    a: Seq<Option<bool>>,
    t: Seq<bool>,
)
    requires
        bounded(cs, n),
        binary(propagate(cs, unset(n)).0),
        is_implication_graph(g, propagate(cs, unset(n)).0),
        is_condensation(node_weights(g).len(), edge_ends(g), parts),
        !clash(node_weights(g), parts),
        a.len() == n,
        crate::assignment::refines(a, propagate(cs, unset(n)).1),
        follows_order(a, propagate(cs, unset(n)).1, node_weights(g), parts),
        forall|d: int| 0 <= d < parts.len()
            ==> #[trigger] settled(a, node_weights(g), parts[d]@, parts[d]@.len() as int),
        extends(t, a),
    ensures
        holds(cs, t),
{
    let nodes = node_weights(g);
    let edges = edge_ends(g);
    let (left, forced) = propagate(cs, unset(n));
    crate::phi::lemma_propagate_shape(cs, unset(n));
    lemma_model_holds(g, left, parts, n);
    let m = model(nodes, parts, n);
    assert(clean(cs, unset(n))) by {
        assert forall|k: int| 0 <= k < cs.len() implies (#[trigger] cs[k]).clean(unset(n)) by {
            assert(cs[k].bounded(n));
        }
    }
    lemma_overridden(left, m, forced);
    let u = overridden(m, forced);
    assert forall|k: int| 0 <= k < left.len() implies (#[trigger] left[k]).spec_eval(t) by {
        assert(left[k].spec_eval(u));
        assert(left[k] is C2 && left[k].bounded(n));
        lemma_wired(g, left, k);
        match left[k] {
            Clause::C2(l1, l2) => {
                let y1 = edges[2 * k + 1].1;
                let y0 = edges[2 * k].1;
                lemma_settled(nodes, edges, parts, a, y1);
                lemma_settled(nodes, edges, parts, a, y0);
                assert(variable_of(l1.code()) == l1.index);
                assert(variable_of(l2.code()) == l2.index);
                assert(a[l1.index as int] is Some && a[l2.index as int] is Some);
                assert(t[l1.index as int] == u[l1.index as int]);
                assert(t[l2.index as int] == u[l2.index as int]);
            },
            _ => {},
        }
    }
    crate::assignment::lemma_extends_refines(t, a, forced);
    crate::assignment::lemma_extends_unset(t);
    crate::phi::lemma_propagate_sound(cs, unset(n), t);
}

/// Once the variables of the nodes of every component are set, every
/// variable that occurs in the formula is.
pub proof fn lemma_occurring_set(
    g: Graph<isize, isize, Directed, u32>,
    cs: Seq<Clause>,
    parts: Seq<Vec<usize>>,
    a: Seq<Option<bool>>,
    i: usize,
)
    requires
        is_implication_graph(g, cs),
        binary(cs),
        is_condensation(node_weights(g).len(), edge_ends(g), parts),
        forall|d: int| 0 <= d < parts.len()
            ==> #[trigger] settled(a, node_weights(g), parts[d]@, parts[d]@.len() as int),
        occurs(cs, i),
    ensures
        is_set(a, i as int),
{
    let nodes = node_weights(g);
    let edges = edge_ends(g);
    let k = choose|k: int| 0 <= k < cs.len() && (#[trigger] cs[k]).find(i) is Some;
    assert(cs[k] is C2);
    lemma_wired(g, cs, k);
    match cs[k] {
        Clause::C2(l1, l2) => {
            assert(variable_of(l1.code()) == l1.index);
            assert(variable_of(l2.code()) == l2.index);
            lemma_settled(nodes, edges, parts, a, edges[2 * k + 1].1);
            lemma_settled(nodes, edges, parts, a, edges[2 * k].1);
        },
        _ => {},
    }
}

/// Once the variables of the nodes of every component are set, the variable
/// of every node is.
pub proof fn lemma_settled(
    nodes: Seq<isize>,
    edges: Seq<(usize, usize)>,
    parts: Seq<Vec<usize>>,
    a: Seq<Option<bool>>,
    v: usize,
)
    requires
        is_condensation(nodes.len(), edges, parts),
        forall|d: int| 0 <= d < parts.len() ==> #[trigger] settled(a, nodes, parts[d]@, parts[d]@.len() as int),
        v < nodes.len(),
    ensures
        is_set(a, variable_of(nodes[v as int] as int)),
{
    lemma_part_of(nodes.len(), edges, parts, v);
    let d = part_of(parts, v);
    assert(settled(a, nodes, parts[d]@, parts[d]@.len() as int));
    let j = choose|j: int| 0 <= j < parts[d]@.len() && parts[d]@[j] == v;
    assert(is_set(a, variable_of(nodes[parts[d]@[j] as int] as int)));
}
} // verus!
