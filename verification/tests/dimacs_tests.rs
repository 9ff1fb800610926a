use colombini_sat::clause::Clause;
use colombini_sat::dimacs::parse_clause;
use colombini_sat::error::Reason;
use colombini_sat::phi::Phi;
use colombini_sat::solver::Solver;

const EXAMPLE: &str = "c an example\np cnf 3 3\n1 2 3 0\n-1 -2 3 0\n1 -2 3 0\n";

#[test]
fn from_file() {
    let phi = Phi::from_dimacs(EXAMPLE).unwrap();
    assert_eq!(phi.clauses.len(), 3);
    assert_eq!(phi.clauses[0], Clause::new_c3(1, 2, 3));
    assert_eq!(phi.clauses[1], Clause::new_c3(-1, -2, 3));
    assert_eq!(phi.clauses[2], Clause::new_c3(1, -2, 3));
    let phi = Phi::from_dimacs("p cnf 3 4\n1 2 3 0\n-1 -2 3 0\n1 -2 3 0\n");
    assert!(phi.is_err());
}

#[test]
fn dimacs_tolerates_blanks_and_line_ends() {
    let text = "c comment\r\n\r\np  cnf\t2   2\r\n  1   -2 0  \r\n\n-1\t2 0";
    let phi = Phi::from_dimacs(text).unwrap();
    assert_eq!(phi.clauses, vec![Clause::new_c2(1, -2), Clause::new_c2(-1, 2)]);
}

#[test]
fn dimacs_without_clauses() {
    assert_eq!(Phi::from_dimacs("p cnf 0 0\n").unwrap(), Phi::new());
    assert_eq!(Phi::from_dimacs("p cnf 0 0").unwrap().vars(), 0);
}

#[test]
fn dimacs_rejects_what_the_problem_line_does_not_cover() {
    let malformed = [
        "",
        "1 2 3 0\n",
        "p cnf 3 1\n1 2 0\n",
        "p cnf 2 2\n1 2 0\n",
        "p cnf 2 1\np cnf 2 1\n1 2 0\n",
        "p cnf 2\n1 2 0\n",
        "p dnf 2 1\n1 2 0\n",
        "problem cnf 2 1\n1 2 0\n",
        "p cnf two 1\n1 2 0\n",
        "p cnf 2 1 5\n1 2 0\n",
        "p cnf -2 1\n1 2 0\n",
        "p cnf 4 1\n1 2 3 4 0\n",
        "p cnf 2 1\n1 2\n",
        "p cnf 99999999999999999999999999 1\n1 2 0\n",
    ];
    for text in malformed {
        let e = Phi::from_dimacs(text).unwrap_err();
        assert_eq!(e.reason, Reason::Malformed);
        assert_eq!(e.to_string(), "Error while parsing the file");
    }
}

#[test]
fn dimacs_passes_over_lines_that_are_no_clauses() {
    let text = "p cnf 3 2\n1 2 0\nthis is no clause\n%\n0\n1 0 2 0\n1 2 3 4 5\n-3 0\n";
    let phi = Phi::from_dimacs(text).unwrap();
    assert_eq!(phi.clauses, vec![Clause::new_c2(1, 2), Clause::new_c1(-3)]);
}

#[test]
fn dimacs_rejects_clauses_of_more_than_three_literals() {
    assert!(Phi::from_dimacs("p cnf 3 2\n1 2 0\n-3 0\n").is_ok());
    for text in ["p cnf 3 2\n1 2 0\n1 2 3 4 0\n-3 0\n", "p cnf 3 2\n1 2 0\n-3 0\n 1 -2 3 -4 5 -6 0\n"] {
        let e = Phi::from_dimacs(text).unwrap_err();
        assert_eq!(e.reason, Reason::Malformed);
    }
}

#[test]
fn clause_from_str() {
    assert_eq!(Clause::from_str("1 -2 3 0").unwrap(), Clause::new_c3(1, -2, 3));
    assert_eq!(Clause::from_str("  -7 4 0\n").unwrap(), Clause::new_c2(-7, 4));
    assert_eq!(Clause::from_str("+5 0").unwrap(), Clause::new_c1(5));
    assert_eq!(Clause::from_str("12\t0").unwrap(), Clause::new_c1(12));
    assert_eq!(Clause::from_str("9223372036854775807 0").unwrap(), Clause::new_c1(isize::MAX));
    for line in [
        "1 2", "1 2 3", "1 0 0", "0 1 0", "1 x 0", "1 - 0", "1 -- 0", "1 2 3 1", "-9223372036854775808 0",
        "9223372036854775808 0", "1 2 00000000000000000000001",
    ] {
        let e = Clause::from_str(line).unwrap_err();
        assert_eq!(e.reason, Reason::Malformed);
        assert_eq!(e.to_string(), "Error while parsing clause");
    }
    for line in ["", "   ", "0", "1", "1 2 3 4 0", "1 2 3 4 5 6"] {
        let e = Clause::from_str(line).unwrap_err();
        assert_eq!(e.reason, Reason::Malformed);
        assert_eq!(e.to_string(), "Clause is not 3-SAT or empty");
    }
    assert_eq!(Clause::from_str("1 2 000").unwrap(), Clause::new_c2(1, 2));
    assert_eq!(Clause::from_str("007 0").unwrap(), Clause::new_c1(7));
    assert_eq!(parse_clause(b"3 -1 0"), Some(Clause::new_c2(3, -1)));
    assert_eq!(parse_clause(b"3 -1"), None);
}

#[test]
fn solver_from_text() {
    let solver = Solver::create(EXAMPLE).unwrap();
    assert_eq!(solver.num_variables(), 3);
    assert_eq!(solver.num_clauses(), 3);
    assert!(solver.solution.is_none());
    let model = solver.solve().unwrap();
    assert_eq!(model.len(), 3);
    assert_eq!(model[2], 3);
    let total: Vec<bool> = model.iter().map(|v| *v > 0).collect();
    assert!(solver.phi.eval(&total));
    assert!(Solver::create("p cnf 1 1\n").is_err());
}

#[test]
fn scenarios_from_text() {
    let solver = Solver::create("p cnf 1 2\n1 0\n-1 0\n").unwrap();
    assert_eq!(solver.solve(), None);

    let solver = Solver::create("p cnf 2 4\n1 -2 0\n-1 2 0\n-1 -2 0\n1 2 0\n").unwrap();
    assert_eq!(solver.solve(), None);

    let solver = Solver::create("p cnf 2 2\n1 -2 0\n-1 2 0\n").unwrap();
    let model = solver.solve().unwrap();
    assert!(model == vec![1, 2] || model == vec![-1, -2]);

    let pigeons = "p cnf 6 9\n1 2 0\n3 4 0\n5 6 0\n-1 -3 0\n-1 -5 0\n-3 -5 0\n-2 -4 0\n-2 -6 0\n-4 -6 0\n";
    let solver = Solver::create(pigeons).unwrap();
    assert_eq!(solver.solve(), None);
}
