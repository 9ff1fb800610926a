use colombini_sat::clause::Clause;
use colombini_sat::error::{Error, Reason};
use colombini_sat::phi::Phi;
use colombini_sat::two_satisfiability::create_graph;

#[test]
fn unrestrained_vector() {
    let phi = Phi {
        clauses: vec![
            Clause::new_c3(-2, 3, -4),
            Clause::new_c3(-1, 3, 5),
            Clause::new_c3(-2, 3, -5),
            Clause::new_c3(-1, 4, -5),
            Clause::new_c3(-2, 4, 5),
            Clause::new_c3(-1, 4, -5),
            Clause::new_c3(2, 3, -4),
            Clause::new_c3(-1, -3, 4),
            Clause::new_c3(-1, 3, 5),
            Clause::new_c3(-1, -2, 4),
            Clause::new_c3(-1, 3, -5),
            Clause::new_c3(1, -2, 3),
        ],
    };
    let result = colombini_sat::two_satisfiability::unrestrained_vector(&phi);
    println!("{:?}", result);
    assert!(result.contains(&0));
    assert!(result.contains(&1));
    assert!(result.contains(&2));
    assert!(result.contains(&3));
    assert!(result.contains(&4));
}

#[test]
fn unrestrained_vector_leaves_out_forced_variables() {
    // With 1 false, the clauses on 1 leave (2) and (not 2).
    let phi = Phi { clauses: vec![Clause::new_c2(1, 2), Clause::new_c2(1, -2), Clause::new_c2(2, 3)] };
    assert_eq!(colombini_sat::two_satisfiability::unrestrained_vector(&phi), vec![1, 2]);
}

#[test]
fn solve_2_sat() {
    let phi = Phi {
        clauses: vec![Clause::new_c2(1, -2), Clause::new_c2(-1, 2), Clause::new_c2(-1, -2), Clause::new_c2(1, -3)],
    };
    let result = colombini_sat::two_satisfiability::solve_2_sat(&phi, phi.vars());
    assert!(result.is_ok());

    let phi = Phi {
        clauses: vec![
            Clause::new_c2(1, -2),
            Clause::new_c2(1, 2),
            Clause::new_c2(-1, 2),
            Clause::new_c2(-1, -2),
            Clause::new_c2(1, -3),
        ],
    };
    let result = colombini_sat::two_satisfiability::solve_2_sat(&phi, phi.vars());
    assert!(result.is_err());
}

#[test]
fn graph() {
    let phi = Phi {
        clauses: vec![Clause::new_c2(1, -2), Clause::new_c2(-1, 2), Clause::new_c2(-1, -2), Clause::new_c2(1, -3)],
    };

    let graph = create_graph(&phi);
    println!("{:?}", graph);
}

#[test]
fn create_graph_has_two_edges_for_each_clause() {
    let phi = Phi { clauses: vec![Clause::new_c2(1, -2), Clause::new_c2(-1, 2), Clause::new_c2(1, -3)] };
    let graph = create_graph(&phi).unwrap();
    assert_eq!(graph.edge_count(), 6);
    assert_eq!(graph.node_count(), 6);
    // Nodes come in the order in which the implications first name them.
    let weights: Vec<isize> = graph.node_weights().copied().collect();
    assert_eq!(weights, vec![-1, -2, 2, 1, -3, 3]);
    let mut edges: Vec<(isize, isize)> = graph
        .edge_indices()
        .map(|e| {
            let (a, b) = graph.edge_endpoints(e).unwrap();
            (graph[a], graph[b])
        })
        .collect();
    assert_eq!(edges[0], (-1, -2));
    assert_eq!(edges[1], (2, 1));
    edges.sort();
    assert_eq!(edges, vec![(-2, -1), (-1, -3), (-1, -2), (1, 2), (2, 1), (3, 1)]);
}

#[test]
fn create_graph_propagates_units_first() {
    // 1 is forced, which leaves (2 or 3).
    let phi = Phi { clauses: vec![Clause::new_c1(1), Clause::new_c3(-1, 2, 3)] };
    let graph = create_graph(&phi).unwrap();
    assert_eq!(graph.node_count(), 4);
    assert_eq!(graph.edge_count(), 2);
}

fn reason(r: Result<Vec<Option<bool>>, Error>) -> Reason {
    r.unwrap_err().reason
}

#[test]
fn oracle_errors_name_their_reason() {
    let wide = Phi { clauses: vec![Clause::new_c2(1, 2), Clause::new_c3(1, 2, 3)] };
    assert_eq!(reason(colombini_sat::two_satisfiability::solve_2_sat(&wide, 3)), Reason::NotA2SatFormula);
    assert_eq!(create_graph(&wide).unwrap_err().reason, Reason::NotA2SatFormula);

    let empty = Phi { clauses: vec![Clause::new_c2(1, 2), Clause::Empty] };
    assert_eq!(reason(colombini_sat::two_satisfiability::solve_2_sat(&empty, 2)), Reason::EmptyClauseGiven);
    assert_eq!(create_graph(&empty).unwrap_err().reason, Reason::EmptyClauseGiven);

    let units = Phi { clauses: vec![Clause::new_c1(1), Clause::new_c1(-1)] };
    assert_eq!(reason(colombini_sat::two_satisfiability::solve_2_sat(&units, 1)), Reason::EmptyClauseGiven);

    let clash = Phi {
        clauses: vec![Clause::new_c2(1, -2), Clause::new_c2(-1, 2), Clause::new_c2(-1, -2), Clause::new_c2(1, 2)],
    };
    let e = colombini_sat::two_satisfiability::solve_2_sat(&clash, 2).unwrap_err();
    assert_eq!(e.reason, Reason::NegationInSameSCC);
    assert_eq!(
        e.to_string(),
        "Not satisfiable, found a node with a completely connected path to its negation."
    );
}

#[test]
fn oracle_returns_the_forced_values() {
    // 1 forces 2, and (3 or 4) stays open.
    let phi = Phi { clauses: vec![Clause::new_c1(1), Clause::new_c2(-1, 2), Clause::new_c2(3, 4)] };
    let forced = colombini_sat::two_satisfiability::solve_2_sat(&phi, 6).unwrap();
    assert_eq!(forced, vec![Some(true), Some(true), None, None, None, None]);
    let open = Phi { clauses: vec![Clause::new_c2(1, -2), Clause::new_c2(-1, 2)] };
    assert_eq!(colombini_sat::two_satisfiability::solve_2_sat(&open, 2).unwrap(), vec![None, None]);
    assert_eq!(colombini_sat::two_satisfiability::solve_2_sat(&Phi::new(), 0).unwrap(), vec![]);
}

fn satisfiable(phi: &Phi, n: usize) -> bool {
    (0..1u32 << n).any(|bits| {
        let t: Vec<bool> = (0..n).map(|i| bits & (1 << i) != 0).collect();
        phi.eval(&t)
    })
}

/// The oracle agrees with enumeration on binary formulas over four variables.
#[test]
fn oracle_agrees_with_enumeration() {
    let mut seed: u64 = 0x2545_f491_4f6c_dd1d;
    let mut next = |bound: u64| {
        seed = seed.wrapping_mul(6364136223846793005).wrapping_add(1442695040888963407);
        (seed >> 33) % bound
    };
    let mut refuted = 0;
    for _ in 0..400 {
        let n = 4usize;
        let count = 2 + next(9) as usize;
        let mut clauses = Vec::new();
        for _ in 0..count {
            let a = next(n as u64) as isize + 1;
            let mut b = next(n as u64) as isize + 1;
            if b == a {
                b = a % n as isize + 1;
            }
            let a = if next(2) == 0 { a } else { -a };
            let b = if next(2) == 0 { b } else { -b };
            clauses.push(Clause::new_c2(a, b));
        }
        let phi = Phi { clauses };
        let result = colombini_sat::two_satisfiability::solve_2_sat(&phi, n);
        let expected = satisfiable(&phi, n);
        assert_eq!(result.is_ok(), expected);
        if let Err(e) = result {
            assert_eq!(e.reason, Reason::NegationInSameSCC);
            refuted += 1;
        }
    }
    assert!(refuted > 0);
}

#[test]
fn error_new_is_about_malformed_input() {
    let e = Error::new("Error while parsing clause");
    assert_eq!(e.reason, Reason::Malformed);
    assert_eq!(e.message, "Error while parsing clause");
    assert_eq!(e.to_string(), "Error while parsing clause");
    assert_eq!(Error::because(Reason::NotA2SatFormula).to_string(), "Not a 2-sat formula");
    assert_eq!(Error::because(Reason::EmptyClauseGiven).to_string(), "Not satisfiable, empty clause given.");
}

#[test]
fn candidate_of_an_equivalence() {
    let phi = Phi { clauses: vec![Clause::new_c2(1, -2), Clause::new_c2(-1, 2)] };
    let candidate = colombini_sat::two_satisfiability::_solve_2_sat(&phi).unwrap();
    assert!(candidate == vec![Some(true), Some(true)] || candidate == vec![Some(false), Some(false)]);
}

#[test]
fn candidate_keeps_forced_values_and_leaves_absent_variables_open() {
    // 1 forces 2; 3 does not occur; (4 or 5) and (not 4 or 5) need 5.
    let phi = Phi {
        clauses: vec![Clause::new_c1(1), Clause::new_c2(-1, 2), Clause::new_c2(4, 5), Clause::new_c2(-4, 5)],
    };
    let candidate = colombini_sat::two_satisfiability::_solve_2_sat(&phi).unwrap();
    assert_eq!(candidate.len(), 5);
    assert_eq!(candidate[0], Some(true));
    assert_eq!(candidate[1], Some(true));
    assert_eq!(candidate[2], None);
    assert!(candidate[3].is_some());
    assert_eq!(candidate[4], Some(true));
}

#[test]
fn candidate_follows_the_implications() {
    // (1 or 2) and (1 or not 2) need 1, though no unit clause says so.
    let phi = Phi { clauses: vec![Clause::new_c2(1, 2), Clause::new_c2(1, -2)] };
    let candidate = colombini_sat::two_satisfiability::_solve_2_sat(&phi).unwrap();
    assert_eq!(candidate[0], Some(true));
    assert!(candidate[1].is_some());
    let total: Vec<bool> = candidate.iter().map(|x| x.unwrap()).collect();
    assert!(phi.eval(&total));
}

#[test]
fn candidate_errors_are_those_of_the_oracle() {
    let clash = Phi {
        clauses: vec![Clause::new_c2(1, -2), Clause::new_c2(-1, 2), Clause::new_c2(-1, -2), Clause::new_c2(1, 2)],
    };
    assert_eq!(reason(colombini_sat::two_satisfiability::_solve_2_sat(&clash)), Reason::NegationInSameSCC);
    let wide = Phi { clauses: vec![Clause::new_c3(1, 2, 3)] };
    assert_eq!(reason(colombini_sat::two_satisfiability::_solve_2_sat(&wide)), Reason::NotA2SatFormula);
    let units = Phi { clauses: vec![Clause::new_c1(1), Clause::new_c1(-1)] };
    assert_eq!(reason(colombini_sat::two_satisfiability::_solve_2_sat(&units)), Reason::EmptyClauseGiven);
}

/// Every completion of a candidate satisfies the formula.
#[test]
fn candidates_satisfy_binary_formulas() {
    let mut seed: u64 = 0x1357_9bdf_0246_8ace;
    let mut next = |bound: u64| {
        seed = seed.wrapping_mul(6364136223846793005).wrapping_add(1442695040888963407);
        (seed >> 33) % bound
    };
    let mut accepted = 0;
    for _ in 0..300 {
        let n = 5usize;
        let count = 1 + next(8) as usize;
        let mut clauses = Vec::new();
        for _ in 0..count {
            let a = next(n as u64) as isize + 1;
            let mut b = next(n as u64) as isize + 1;
            if b == a {
                b = a % n as isize + 1;
            }
            let a = if next(2) == 0 { a } else { -a };
            let b = if next(2) == 0 { b } else { -b };
            clauses.push(Clause::new_c2(a, b));
        }
        if next(3) == 0 {
            clauses.push(Clause::new_c1(if next(2) == 0 { 1 } else { -2 }));
        }
        let phi = Phi { clauses };
        let result = colombini_sat::two_satisfiability::_solve_2_sat(&phi);
        assert_eq!(result.is_ok(), satisfiable(&phi, phi.vars()));
        if let Ok(candidate) = result {
            accepted += 1;
            for fill in [false, true] {
                let total: Vec<bool> = candidate.iter().map(|x| x.unwrap_or(fill)).collect();
                assert!(phi.eval(&total));
            }
        }
    }
    assert!(accepted > 0);
}
