use colombini_sat::clause::{Clause, Literal};
use colombini_sat::phi::Phi;
use colombini_sat::solver::Solver;

const EXAMPLE: &str = "p cnf 3 3\n1 2 3 0\n-1 -2 3 0\n1 -2 3 0\n";

fn example() -> Phi {
    Phi { clauses: vec![Clause::new_c3(1, 2, 3), Clause::new_c3(-1, -2, 3), Clause::new_c3(1, -2, 3)] }
}

fn pigeons() -> Phi {
    // Pigeon i sits in hole j: variable 2 * (i - 1) + j, for three pigeons and two holes.
    let mut clauses = Vec::new();
    for i in 0..3isize {
        clauses.push(Clause::new_c2(2 * i + 1, 2 * i + 2));
    }
    for j in 1..=2isize {
        for i in 0..3isize {
            for k in i + 1..3isize {
                clauses.push(Clause::new_c2(-(2 * i + j), -(2 * k + j)));
            }
        }
    }
    Phi { clauses }
}

fn brute_force(phi: &Phi) -> bool {
    let n = phi.vars();
    (0..1u32 << n).any(|bits| {
        let t: Vec<bool> = (0..n).map(|i| bits & (1 << i) != 0).collect();
        phi.eval(&t)
    })
}

#[test]
fn solve() {
    let phi = Phi::from_dimacs(EXAMPLE).unwrap();
    let result = colombini_sat::solver::solve(&phi);
    assert!(result.is_some());
    let result = result.unwrap();
    println!("{:?}", result);
}

#[test]
fn solve_finds_a_model_of_the_example() {
    let phi = example();
    let model = colombini_sat::solver::solve(&phi).unwrap();
    assert_eq!(model.len(), 3);
    assert!(phi.eval(&model));
}

#[test]
fn dpll() {
    let phi = Phi::from_dimacs(EXAMPLE).unwrap();
    let result = colombini_sat::solver::dpll(&phi);
    assert!(result.is_some());
}

#[test]
fn dpll_result_satisfies_whatever_is_filled_in() {
    let phi = example();
    let partial = colombini_sat::solver::dpll(&phi).unwrap();
    assert_eq!(partial.len(), 3);
    for fill in [false, true] {
        let total: Vec<bool> = partial.iter().map(|x| x.unwrap_or(fill)).collect();
        assert!(phi.eval(&total));
    }
}

#[test]
fn contradicting_units_are_unsatisfiable() {
    let phi = Phi { clauses: vec![Clause::new_c1(1), Clause::new_c1(-1)] };
    assert_eq!(colombini_sat::solver::solve(&phi), None);
    assert_eq!(colombini_sat::solver::dpll(&phi), None);
}

#[test]
fn all_four_binary_clauses_are_unsatisfiable() {
    let phi = Phi {
        clauses: vec![Clause::new_c2(1, -2), Clause::new_c2(-1, 2), Clause::new_c2(-1, -2), Clause::new_c2(1, 2)],
    };
    assert_eq!(colombini_sat::solver::solve(&phi), None);
    assert_eq!(colombini_sat::solver::dpll(&phi), None);
}

#[test]
fn equivalence_has_two_models() {
    let phi = Phi { clauses: vec![Clause::new_c2(1, -2), Clause::new_c2(-1, 2)] };
    let model = colombini_sat::solver::solve(&phi).unwrap();
    assert!(model == vec![true, true] || model == vec![false, false]);
    assert!(phi.eval(&model));
}

#[test]
fn pigeonhole_is_unsatisfiable() {
    let phi = pigeons();
    assert_eq!(phi.clauses.len(), 9);
    assert_eq!(phi.vars(), 6);
    assert_eq!(colombini_sat::solver::solve(&phi), None);
    assert_eq!(colombini_sat::solver::dpll(&phi), None);
}

#[test]
fn formula_without_clauses_is_satisfied() {
    assert_eq!(colombini_sat::solver::solve(&Phi::new()), Some(vec![]));
    assert_eq!(colombini_sat::solver::dpll(&Phi::new()), Some(vec![]));
    assert_eq!(colombini_sat::solver::solve(&Phi::new_unsat()), None);
    assert_eq!(colombini_sat::solver::dpll(&Phi::new_unsat()), None);
}

#[test]
fn an_empty_clause_anywhere_refutes() {
    let phi = Phi { clauses: vec![Clause::new_c2(1, 2), Clause::Empty] };
    assert_eq!(colombini_sat::solver::solve(&phi), None);
    assert_eq!(colombini_sat::solver::dpll(&phi), None);
}

#[test]
fn open_variables_are_false_in_the_model() {
    let phi = Phi { clauses: vec![Clause::new_c1(3)] };
    assert_eq!(colombini_sat::solver::solve(&phi), Some(vec![false, false, true]));
}

#[test]
fn marks_on_the_input_do_not_change_the_answer() {
    let gone = Literal { index: 0, value: true, implicated: false, assigned: true };
    let also = Literal { index: 1, value: true, implicated: false, assigned: true };
    let phi = Phi { clauses: vec![Clause::C2(gone, also), Clause::new_c2(-1, -2)] };
    let model = colombini_sat::solver::solve(&phi).unwrap();
    assert!(phi.eval(&model));
    let partial = colombini_sat::solver::dpll(&phi).unwrap();
    let total: Vec<bool> = partial.iter().map(|x| x.unwrap_or(false)).collect();
    assert!(phi.eval(&total));
}

#[test]
fn solver_reports_signed_variables() {
    let solver = Solver { phi: example(), solution: None };
    assert_eq!(solver.num_variables(), 3);
    assert_eq!(solver.num_clauses(), 3);
    let model = solver.solve().unwrap();
    assert_eq!(model.len(), 3);
    for (i, v) in model.iter().enumerate() {
        assert_eq!(v.unsigned_abs(), i + 1);
    }
    let total: Vec<bool> = model.iter().map(|v| *v > 0).collect();
    assert!(solver.phi.eval(&total));
    assert_eq!(model[2], 3);

    let solver = Solver { phi: pigeons(), solution: None };
    assert_eq!(solver.solve(), None);
}

fn random_formula(seed: &mut u64, n: usize, count: usize) -> Phi {
    let mut next = |bound: u64| {
        *seed = seed.wrapping_mul(6364136223846793005).wrapping_add(1442695040888963407);
        (*seed >> 33) % bound
    };
    let mut clauses = Vec::new();
    for _ in 0..count {
        let mut vars: Vec<isize> = Vec::new();
        while vars.len() < 3 {
            let v = next(n as u64) as isize + 1;
            if !vars.contains(&v) {
                vars.push(v);
            }
        }
        let signed: Vec<isize> = vars.iter().map(|v| if next(2) == 0 { *v } else { -*v }).collect();
        clauses.push(Clause::new_c3(signed[0], signed[1], signed[2]));
    }
    Phi { clauses }
}

/// Both searches agree with enumeration on formulas over six variables,
/// and every model they return satisfies the formula.
#[test]
fn searches_agree_with_enumeration() {
    let mut seed: u64 = 0x9e37_79b9_7f4a_7c15;
    let mut refuted = 0;
    for round in 0..150 {
        let phi = random_formula(&mut seed, 6, 18 + round % 14);
        let expected = brute_force(&phi);
        match colombini_sat::solver::solve(&phi) {
            Some(model) => {
                assert!(expected);
                assert_eq!(model.len(), phi.vars());
                assert!(phi.eval(&model));
            },
            None => {
                assert!(!expected);
                refuted += 1;
            },
        }
        match colombini_sat::solver::dpll(&phi) {
            Some(partial) => {
                assert!(expected);
                let total: Vec<bool> = partial.iter().map(|x| x.unwrap_or(false)).collect();
                assert!(phi.eval(&total));
            },
            None => assert!(!expected),
        }
    }
    assert!(refuted > 0);
}

/// A random formula over twenty variables with a planted model, as DIMACS text.
fn twenty_variables() -> String {
    let mut seed: u64 = 0x0123_4567_89ab_cdef;
    let planted: Vec<bool> = (0..20).map(|i| i % 3 == 0).collect();
    let mut clauses: Vec<Clause> = Vec::new();
    while clauses.len() < 80 || (Phi { clauses: clauses.clone() }).vars() < 20 {
        let candidate = random_formula(&mut seed, 20, 1).clauses[0];
        if candidate.eval(&planted) {
            clauses.push(candidate);
        }
    }
    let mut text = format!("c twenty variables\np cnf 20 {}\n", clauses.len());
    for c in &clauses {
        for l in c.literals_vector() {
            text.push_str(&format!("{} ", l.as_isize()));
        }
        text.push_str("0\n");
    }
    text
}

#[test]
fn solve_20() {
    let text = twenty_variables();
    let mut bad_results = 0;
    for _ in 0..100 {
        let phi = Phi::from_dimacs(&text).unwrap();
        let result = colombini_sat::solver::solve(&phi);
        if result.is_none() {
            bad_results += 1;
        }
    }
    assert_eq!(bad_results, 0);
}

/// The answer for twenty variables is a model, and the same on every run.
#[test]
fn twenty_variables_give_the_same_model() {
    let phi = Phi::from_dimacs(&twenty_variables()).unwrap();
    assert_eq!(phi.vars(), 20);
    let first = colombini_sat::solver::solve(&phi).unwrap();
    assert!(phi.eval(&first));
    for _ in 0..5 {
        assert_eq!(colombini_sat::solver::solve(&phi), Some(first.clone()));
    }
}

#[test]
fn create_implications() {
    let mut graph = petgraph::graph::DiGraph::<Literal, Literal>::new();
    let x1 = Literal { index: 0, value: true, implicated: false, assigned: false };
    let x2 = Literal { index: 1, value: true, implicated: false, assigned: false };
    let x3 = Literal { index: 2, value: true, implicated: false, assigned: false };
    let x4 = Literal { index: 3, value: true, implicated: false, assigned: false };

    colombini_sat::solver::add_decision(x1, &mut graph);
    colombini_sat::solver::add_decision(x2, &mut graph);

    colombini_sat::solver::add_implication(x1, None, x3, &mut graph);
    colombini_sat::solver::add_implication(x2, None, x3, &mut graph);

    let (n3, _, _) = colombini_sat::solver::add_implication(x3, None, x4, &mut graph);

    println!("{:?}", graph);
    assert_eq!(graph.node_count(), 4);
    assert_eq!(graph.edge_count(), 3);
    assert_eq!(
        graph.neighbors_directed(petgraph::graph::NodeIndex::new(n3), petgraph::Direction::Incoming).count(),
        2
    );
}

#[test]
fn update_implications() {
    let l1 = Literal { index: 0, value: true, implicated: false, assigned: true };
    let l2 = Literal { index: 1, value: true, implicated: false, assigned: true };
    let l3 = Literal { index: 2, value: true, implicated: false, assigned: false };
    let l4 = Literal { index: 3, value: true, implicated: false, assigned: true };

    let c1 = Clause::C3(l1, l2, l3);
    let c2 = Clause::C2(l3, l4);
    let phi = Phi { clauses: vec![c1, c2] };
    let mut graph = petgraph::graph::DiGraph::<Literal, Literal>::new();

    colombini_sat::solver::update_implication_graph(&phi, &mut graph);
    assert_eq!(graph.edge_count(), 3);
}

#[test]
fn find_conflict() {
    let l1 = Literal { index: 0, value: true, implicated: false, assigned: true };
    let l2 = Literal { index: 1, value: true, implicated: false, assigned: true };
    let l3 = Literal { index: 2, value: true, implicated: false, assigned: false };
    let l4 = Literal { index: 3, value: true, implicated: false, assigned: false };
    let nl3 = Literal { index: 2, value: false, implicated: false, assigned: false };
    let nl4 = Literal { index: 3, value: false, implicated: false, assigned: false };

    let c1 = Clause::C3(l1, l2, l3);
    let c2 = Clause::C3(l1, l2, nl3);
    let c3 = Clause::C2(l1, l4);
    let c4 = Clause::C2(l2, nl4);
    let phi = Phi { clauses: vec![c1, c2, c3, c4] };
    let mut graph = petgraph::graph::DiGraph::<Literal, Literal>::new();

    colombini_sat::solver::update_implication_graph(&phi, &mut graph);
    let conflicts = colombini_sat::solver::find_conflicts(&graph);

    assert_eq!(conflicts.len(), 2);
    assert_eq!(conflicts[0].index, l3.index);
    assert_eq!(conflicts[1].index, l4.index);
}

#[test]
fn implication_graph_nodes_and_edges() {
    let mut graph = petgraph::graph::DiGraph::<Literal, Literal>::new();
    let a = Literal { index: 0, value: true, implicated: false, assigned: true };
    let b = Literal { index: 1, value: false, implicated: false, assigned: true };
    let c = Literal { index: 2, value: true, implicated: true, assigned: false };
    let id = colombini_sat::solver::add_decision(
        Literal { index: 0, value: true, implicated: true, assigned: false },
        &mut graph,
    );
    assert_eq!(id, 0);
    assert_eq!(graph[petgraph::graph::NodeIndex::new(0)], a);
    let nodes = colombini_sat::solver::add_implication(a, Some(b), c, &mut graph);
    assert_eq!(nodes, (0, Some(1), 2));
    assert_eq!(graph.node_count(), 3);
    let edges: Vec<(usize, usize)> = graph
        .edge_indices()
        .map(|e| {
            let (from, to) = graph.edge_endpoints(e).unwrap();
            (from.index(), to.index())
        })
        .collect();
    assert_eq!(edges, vec![(1, 2), (0, 2)]);
    assert_eq!(colombini_sat::solver::find_conflicts(&graph), vec![]);
    // A conclusion on the same variable with other marks gets a node of
    // its own, and the edge leads to the first node like it.
    let again = Literal { index: 2, value: true, implicated: true, assigned: true };
    let nodes = colombini_sat::solver::add_implication(a, None, again, &mut graph);
    assert_eq!(nodes, (0, None, 2));
    assert_eq!(graph.node_count(), 4);
    assert_eq!(graph.edge_count(), 3);
    assert_eq!(colombini_sat::solver::find_conflicts(&graph), vec![again]);
}
