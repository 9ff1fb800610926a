use colombini_sat::clause::{Clause, Implication, Literal};
use colombini_sat::phi::Phi;

fn lit(index: usize, value: bool) -> Literal {
    Literal { index, value, implicated: false, assigned: false }
}

#[test]
fn phi_prime() {
    let c1 = Clause::new_c3(1, 2, 3);
    let c2 = Clause::new_c3(-2, -3, 4);
    let c3 = Clause::new_c3(1, -2, 3);
    let phi = Phi { clauses: vec![c1, c2, c3] };

    let phi_p = phi.phi_prime(0);
    assert_eq!(phi_p.clauses[0], c1);
    assert_eq!(phi_p.clauses[1], c3);
    assert_eq!(phi_p.clauses.len(), 2);
}

#[test]
fn phi_prime_leaves_out_derived_clauses() {
    let derived = Implication::new(1, 2).to_clause();
    let phi = Phi { clauses: vec![Clause::new_c2(1, 3), derived, Clause::new_c3(-1, 2, 4)] };
    assert_eq!(phi.phi_prime(0).clauses, vec![Clause::new_c2(1, 3), Clause::new_c3(-1, 2, 4)]);
    assert_eq!(phi.phi_prime(1).clauses, vec![Clause::new_c3(-1, 2, 4)]);
    assert_eq!(phi.phi_prime(9).clauses, vec![]);
}

#[test]
fn create_unit() {
    let c1 = Clause::new_c3(1, 2, 3);
    let c2 = Clause::new_c3(2, 3, 4);
    let c3 = Clause::new_c3(1, -2, -3);
    let phi = Phi { clauses: vec![c1, c2, c3] };
    let units = phi.create_unit();
    assert_eq!(units.len(), 2);
    assert_eq!(units[0], Clause::new_c1(1));
    assert_eq!(units[1], Clause::new_c1(4));
}

#[test]
fn create_unit_sees_negative_polarity_and_skips_units() {
    let phi = Phi { clauses: vec![Clause::new_c2(-1, 2), Clause::new_c2(-1, -2), Clause::new_c1(3)] };
    assert_eq!(phi.create_unit(), vec![Clause::new_c1(-1)]);
    let more = phi.add_unit();
    assert_eq!(
        more.clauses,
        vec![Clause::new_c2(-1, 2), Clause::new_c2(-1, -2), Clause::new_c1(3), Clause::new_c1(-1)]
    );
}

#[test]
fn phi_invert_literals() {
    let c1 = Clause::new_c3(1, 2, 3);
    let c2 = Clause::new_c3(2, 3, 4);
    let c3 = Clause::new_c3(1, -2, -3);
    let mut phi = Phi { clauses: vec![c1, c2, c3] };
    phi.invert_literal(1);
    assert_eq!(phi.clauses[0], Clause::new_c3(1, -2, 3));
    assert_eq!(phi.clauses[1], Clause::new_c3(-2, 3, 4));
    assert_eq!(phi.clauses[2], Clause::new_c3(1, 2, -3));
}

#[test]
fn inverting_twice_gives_the_formula_back() {
    let formula = Phi {
        clauses: vec![Clause::new_c3(1, 2, 3), Clause::new_c2(-2, 4), Clause::new_c1(-2), Clause::Empty],
    };
    for v in 0..5 {
        let mut phi = formula.clone();
        phi.invert_literal(v);
        phi.invert_literal(v);
        assert_eq!(phi, formula);
    }
}

#[test]
fn get_implications() {
    let l1 = Literal { index: 0, value: true, implicated: false, assigned: true };
    let l2 = Literal { index: 1, value: true, implicated: false, assigned: false };
    let l3 = Literal { index: 2, value: true, implicated: false, assigned: true };
    let l4 = Literal { index: 3, value: true, implicated: false, assigned: false };

    let c1 = Clause::C3(l1, l2, l3);
    let c2 = Clause::C3(l1, l2, l4);
    let c3 = Clause::C2(l1, l2);

    let phi = Phi { clauses: vec![c1, c2, c3] };
    let implications = phi.get_implications();

    assert_eq!(implications, vec![c1, c3]);
}

#[test]
fn get_added_clauses() {
    let c1 = Clause::new_c3(1, 2, 3);
    let c2 = Clause::new_c3(2, 3, 4);
    let c3 = Clause::new_c3(1, -2, -3);
    let c4 = Implication::new(1, 2).to_clause();
    let phi = Phi { clauses: vec![c1, c2, c3, c4] };
    let implications = phi.get_added_clauses();
    assert_eq!(implications.len(), 1);
    assert_eq!(implications[0], Implication::new(1, 2).to_clause());
}

#[test]
fn vars_counts_to_the_largest_variable() {
    assert_eq!(Phi::new().vars(), 0);
    assert_eq!(Phi::new_unsat().vars(), 0);
    assert_eq!(Phi::new_unsat().clauses, vec![Clause::Empty]);
    assert_eq!(Phi { clauses: vec![Clause::new_c1(1)] }.vars(), 1);
    assert_eq!(Phi { clauses: vec![Clause::new_c3(1, -7, 3), Clause::new_c2(2, 4)] }.vars(), 7);
}

#[test]
fn phi_eval_is_the_conjunction() {
    let phi = Phi { clauses: vec![Clause::new_c3(1, 2, 3), Clause::new_c3(-1, -2, 3), Clause::new_c3(1, -2, 3)] };
    assert!(phi.eval(&vec![false, false, true]));
    assert!(phi.eval(&vec![true, false, false]));
    assert!(!phi.eval(&vec![true, true, false]));
    assert!(!phi.eval(&vec![false, false, false]));
    assert!(Phi::new().eval(&vec![]));
    assert!(!Phi::new_unsat().eval(&vec![]));
}

#[test]
fn phi_reduce_drops_and_shortens() {
    let phi = Phi { clauses: vec![Clause::new_c3(1, 2, 3), Clause::new_c3(-1, -2, 3), Clause::new_c2(1, -3)] };
    let reduced = phi.reduce(&[Some(true), None, None]);
    assert_eq!(reduced.clauses, vec![Clause::new_c2(-2, 3)]);
    let reduced = phi.reduce(&[Some(false), None, None]);
    assert_eq!(reduced.clauses, vec![Clause::new_c2(2, 3), Clause::new_c1(-3)]);
    let reduced = phi.reduce(&[Some(false), None, Some(true)]);
    assert_eq!(reduced.clauses, vec![Clause::Empty]);
    let reduced = phi.reduce(&[None, None, None]);
    assert_eq!(reduced, phi);
}

#[test]
fn phi_adapt_reads_the_marks() {
    let gone = Literal { index: 0, value: true, implicated: false, assigned: true };
    let done = Literal { index: 1, value: true, implicated: true, assigned: false };
    let phi = Phi { clauses: vec![Clause::C3(gone, lit(2, true), lit(3, true)), Clause::C2(done, lit(2, false))] };
    assert_eq!(phi.adapt().clauses, vec![Clause::C2(lit(2, true), lit(3, true))]);
    let phi = Phi { clauses: vec![Clause::new_c2(1, 2), Clause::C1(gone)] };
    assert_eq!(phi.adapt().clauses, vec![Clause::Empty]);
}

#[test]
fn find_unit_returns_every_unit_clause() {
    let phi = Phi { clauses: vec![Clause::new_c1(2), Clause::new_c2(1, 3), Clause::new_c1(-3), Clause::Empty] };
    assert_eq!(phi.find_unit(), vec![Clause::new_c1(2), Clause::new_c1(-3)]);
    assert_eq!(Phi::new().find_unit(), vec![]);
}

#[test]
fn autoreduce_propagates_to_the_fixpoint() {
    // 1, (-1 or 2), (-2 or 3 or 4), (-3 or -4 or 5)
    let phi = Phi {
        clauses: vec![Clause::new_c1(1), Clause::new_c2(-1, 2), Clause::new_c3(-2, 3, 4), Clause::new_c3(-3, -4, 5)],
    };
    let mut assignments = vec![None; 5];
    let left = phi.autoreduce_with_assignments(&mut assignments);
    assert_eq!(left.clauses, vec![Clause::new_c2(3, 4), Clause::new_c3(-3, -4, 5)]);
    assert_eq!(assignments, vec![Some(true), Some(true), None, None, None]);
    assert!(left.find_unit().is_empty());
    assert_eq!(phi.autoreduce(), left);
}

#[test]
fn autoreduce_ends_in_the_unsatisfiable_formula() {
    let phi = Phi { clauses: vec![Clause::new_c1(1), Clause::new_c1(-1)] };
    let mut assignments = vec![None; 1];
    let left = phi.autoreduce_with_assignments(&mut assignments);
    assert_eq!(left, Phi::new_unsat());
    assert_eq!(assignments, vec![Some(true)]);

    let phi = Phi { clauses: vec![Clause::new_c1(1), Clause::new_c2(-1, 2), Clause::new_c2(-1, -2)] };
    let mut assignments = vec![None; 2];
    let left = phi.autoreduce_with_assignments(&mut assignments);
    assert_eq!(left, Phi::new_unsat());
    assert_eq!(phi.autoreduce(), Phi::new_unsat());
}

#[test]
fn autoreduce_keeps_what_is_set() {
    let phi = Phi { clauses: vec![Clause::new_c1(2), Clause::new_c2(1, 3)] };
    let mut assignments = vec![None, Some(false), None];
    let left = phi.autoreduce_with_assignments(&mut assignments);
    assert_eq!(left, Phi::new_unsat());
    assert_eq!(assignments, vec![None, Some(false), None]);

    let phi = Phi { clauses: vec![Clause::new_c2(1, 3)] };
    let mut assignments = vec![Some(false), None, None];
    let left = phi.autoreduce_with_assignments(&mut assignments);
    assert_eq!(left, phi);
    assert_eq!(assignments, vec![Some(false), None, None]);
}

#[test]
fn get_variables_lists_free_variables_in_order() {
    let gone = Literal { index: 5, value: true, implicated: false, assigned: true };
    let phi = Phi {
        clauses: vec![Clause::new_c3(4, -2, 7), Clause::C2(gone, lit(1, true)), Clause::new_c1(-4), Clause::Empty],
    };
    assert_eq!(phi.get_variables(), vec![1, 3, 6]);
    assert_eq!(Phi::new().get_variables(), vec![]);
}

#[test]
fn phi_update_implications_marks_every_clause() {
    let mut phi = Phi { clauses: vec![Clause::new_c3(1, 2, 3), Clause::new_c2(-2, 4), Clause::new_c1(4)] };
    let before = phi.clone();
    phi.update_implications(&Clause::new_c2(1, 2));
    assert_eq!(phi, before);
    phi.update_implications(&Clause::new_c1_implicated(2));
    assert_eq!(
        phi.clauses,
        vec![
            Clause::C3(lit(0, true), Literal { index: 1, value: true, implicated: true, assigned: false }, lit(2, true)),
            Clause::C2(Literal { index: 1, value: false, implicated: false, assigned: true }, lit(3, true)),
            Clause::new_c1(4),
        ]
    );
}

#[test]
fn copy_is_equal() {
    let phi = Phi { clauses: vec![Clause::new_c3(1, 2, 3), Clause::Empty] };
    assert_eq!(phi.copy(), phi);
}

#[test]
fn fits_compares_with_the_number_of_variables() {
    let phi = Phi { clauses: vec![Clause::new_c3(1, -7, 3), Clause::Empty, Clause::new_c2(2, 4)] };
    assert!(phi.fits(7));
    assert!(phi.fits(8));
    assert!(!phi.fits(6));
    assert!(Phi::new_unsat().fits(0));
    assert!(Clause::new_c2(2, 4).fits(4));
    assert!(!Clause::new_c2(2, 4).fits(3));
    assert!(Clause::Empty.fits(0));
}
