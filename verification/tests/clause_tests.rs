use colombini_sat::clause::{Clause, Implication, Literal};

fn lit(index: usize, value: bool) -> Literal {
    Literal { index, value, implicated: false, assigned: false }
}

#[test]
fn eval() {
    let c = Clause::C3(
        Literal { index: 0, value: true, implicated: false, assigned: false },
        Literal { index: 1, value: false, implicated: false, assigned: false },
        Literal { index: 2, value: true, implicated: false, assigned: false },
    );

    let mut values = [true, true, false];
    assert_eq!(c.eval(&values), true);
    values = [false, true, true];
    assert_eq!(c.eval(&values), true);
    values = [false, false, false];
    assert_eq!(c.eval(&values), true);
}

#[test]
fn eval_false_and_empty() {
    let c = Clause::C3(lit(0, true), lit(1, false), lit(2, true));
    assert_eq!(c.eval(&[false, true, false]), false);
    assert_eq!(Clause::C2(lit(0, true), lit(1, true)).eval(&[false, false]), false);
    assert_eq!(Clause::C1(lit(0, false)).eval(&[false]), true);
    assert_eq!(Clause::Empty.eval(&[]), false);
    assert_eq!(Clause::Empty.eval(&[true, true]), false);
}

#[test]
fn reduce() {
    let c = Clause::C3(
        Literal { index: 0, value: true, implicated: false, assigned: false },
        Literal { index: 1, value: false, implicated: false, assigned: false },
        Literal { index: 2, value: true, implicated: false, assigned: false },
    );

    let mut values: [Option<bool>; 3] = [None, None, None];
    assert_eq!(c.reduce(&values), Some(c));
    values = [Some(true), None, None];
    assert_eq!(c.reduce(&values), None);
    values = [Some(false), Some(true), Some(false)];
    assert_eq!(c.reduce(&values), Some(Clause::Empty));
    values = [Some(false), None, Some(false)];
    assert_eq!(
        c.reduce(&values),
        Some(Clause::C1(Literal { index: 1, value: false, implicated: false, assigned: false }))
    );
}

#[test]
fn reduce_keeps_free_literals_in_order() {
    let c = Clause::C3(lit(4, true), lit(2, false), lit(7, true));
    let mut values = vec![None; 8];
    values[2] = Some(true);
    assert_eq!(c.reduce(&values), Some(Clause::C2(lit(4, true), lit(7, true))));
    values[2] = Some(false);
    assert_eq!(c.reduce(&values), None);
    values[2] = None;
    values[7] = Some(false);
    assert_eq!(c.reduce(&values), Some(Clause::C2(lit(4, true), lit(2, false))));
    values[4] = Some(false);
    assert_eq!(c.reduce(&values), Some(Clause::C1(lit(2, false))));
    assert_eq!(Clause::Empty.reduce(&values), Some(Clause::Empty));
    assert_eq!(Clause::C1(lit(4, true)).reduce(&values), Some(Clause::Empty));
    assert_eq!(Clause::C1(lit(4, false)).reduce(&values), None);
}

#[test]
fn reduce_ignores_marks() {
    let marked = Literal { index: 0, value: true, implicated: true, assigned: true };
    let c = Clause::C2(marked, lit(1, true));
    assert_eq!(c.reduce(&[None, None]), Some(c));
    assert_eq!(c.reduce(&[Some(false), None]), Some(Clause::C1(lit(1, true))));
}

/// Under every total assignment, a clause has the truth value of what is
/// left of it under every partial assignment that the total one extends.
#[test]
fn reduction_agrees_with_evaluation() {
    let clauses = [
        Clause::C3(lit(0, true), lit(1, false), lit(2, true)),
        Clause::C3(lit(2, false), lit(0, false), lit(1, false)),
        Clause::C2(lit(1, true), lit(2, false)),
        Clause::C1(lit(2, true)),
        Clause::Empty,
    ];
    for c in clauses {
        for bits in 0..8u32 {
            let total: Vec<bool> = (0..3).map(|i| bits & (1 << i) != 0).collect();
            for mask in 0..8u32 {
                let partial: Vec<Option<bool>> =
                    (0..3).map(|i| if mask & (1 << i) != 0 { Some(total[i]) } else { None }).collect();
                let expected = c.eval(&total);
                let got = match c.reduce(&partial) {
                    None => true,
                    Some(rest) => rest.eval(&total),
                };
                assert_eq!(got, expected);
            }
        }
    }
}

#[test]
fn clause_invert_literal() {
    let mut c3 = Clause::C3(
        Literal { index: 0, value: true, implicated: false, assigned: false },
        Literal { index: 1, value: false, implicated: false, assigned: false },
        Literal { index: 2, value: true, implicated: false, assigned: false },
    );

    let mut c2 = Clause::C2(
        Literal { index: 0, value: true, implicated: false, assigned: false },
        Literal { index: 1, value: false, implicated: false, assigned: false },
    );

    let mut c1 = Clause::C1(Literal { index: 0, value: true, implicated: false, assigned: false });

    c3.invert_literal(0);
    c2.invert_literal(0);
    c1.invert_literal(0);

    assert_eq!(
        c3,
        Clause::C3(
            Literal { index: 0, value: false, implicated: false, assigned: false },
            Literal { index: 1, value: false, implicated: false, assigned: false },
            Literal { index: 2, value: true, implicated: false, assigned: false }
        )
    );

    assert_eq!(
        c2,
        Clause::C2(
            Literal { index: 0, value: false, implicated: false, assigned: false },
            Literal { index: 1, value: false, implicated: false, assigned: false }
        )
    );

    assert_eq!(c1, Clause::C1(Literal { index: 0, value: false, implicated: false, assigned: false }));

    c3.invert_literal(0);
    assert_eq!(
        c3,
        Clause::C3(
            Literal { index: 0, value: true, implicated: false, assigned: false },
            Literal { index: 1, value: false, implicated: false, assigned: false },
            Literal { index: 2, value: true, implicated: false, assigned: false }
        )
    );
}

#[test]
fn invert_literal_leaves_other_variables() {
    let mut c = Clause::C3(lit(0, true), lit(1, false), lit(2, true));
    c.invert_literal(5);
    assert_eq!(c, Clause::C3(lit(0, true), lit(1, false), lit(2, true)));
    c.invert_literal(2);
    assert_eq!(c, Clause::C3(lit(0, true), lit(1, false), lit(2, false)));
    let mut e = Clause::Empty;
    e.invert_literal(0);
    assert_eq!(e, Clause::Empty);
}

#[test]
fn reduction() {
    let lit1 = Literal { index: 0, value: true, implicated: false, assigned: false };
    let lit2 = Literal { index: 1, value: true, implicated: false, assigned: false };
    let lit3 = Literal { index: 2, value: true, implicated: false, assigned: false };
    let lit4 = Literal { index: 3, value: true, implicated: false, assigned: false };

    let c = vec![lit1, lit2, lit3, lit4];

    let result = Clause::from_k_clause(c, 4);

    let correct = vec![
        Clause::C3(
            Literal { index: 3, value: true, implicated: false, assigned: false },
            Literal { index: 2, value: true, implicated: false, assigned: false },
            Literal { index: 4, value: true, implicated: false, assigned: false },
        ),
        Clause::C3(
            Literal { index: 4, value: false, implicated: false, assigned: false },
            Literal { index: 1, value: true, implicated: false, assigned: false },
            Literal { index: 0, value: true, implicated: false, assigned: false },
        ),
    ];
    assert_eq!(result.len(), 2);
    assert_eq!(result, correct);

    let lit5 = Literal { index: 4, value: true, implicated: false, assigned: false };
    let c = vec![lit1, lit2, lit3, lit4, lit5];

    let result = Clause::from_k_clause(c, 5);

    let correct = vec![
        Clause::C3(
            Literal { index: 4, value: true, implicated: false, assigned: false },
            Literal { index: 3, value: true, implicated: false, assigned: false },
            Literal { index: 5, value: true, implicated: false, assigned: false },
        ),
        Clause::C3(
            Literal { index: 5, value: false, implicated: false, assigned: false },
            Literal { index: 2, value: true, implicated: false, assigned: false },
            Literal { index: 6, value: true, implicated: false, assigned: false },
        ),
        Clause::C3(
            Literal { index: 6, value: false, implicated: false, assigned: false },
            Literal { index: 1, value: true, implicated: false, assigned: false },
            Literal { index: 0, value: true, implicated: false, assigned: false },
        ),
    ];
    assert_eq!(result.len(), 3);
    assert_eq!(result, correct);
}

#[test]
fn from_k_clause_keeps_short_clauses() {
    assert_eq!(Clause::from_k_clause(vec![lit(3, false)], 9), vec![Clause::C1(lit(3, false))]);
    assert_eq!(
        Clause::from_k_clause(vec![lit(3, false), lit(1, true)], 9),
        vec![Clause::C2(lit(3, false), lit(1, true))]
    );
    assert_eq!(
        Clause::from_k_clause(vec![lit(3, false), lit(1, true), lit(0, true)], 9),
        vec![Clause::C3(lit(3, false), lit(1, true), lit(0, true))]
    );
}

/// A clause of six literals and its chain have the same models over the
/// variables of the clause.
#[test]
fn from_k_clause_is_equisatisfiable() {
    let lits: Vec<Literal> = (0..6).map(|i| lit(i, i % 2 == 0)).collect();
    let chain = Clause::from_k_clause(lits.clone(), 6);
    assert_eq!(chain.len(), 4);
    for bits in 0..64u32 {
        let base: Vec<bool> = (0..6).map(|i| bits & (1 << i) != 0).collect();
        let wide = lits.iter().any(|l| base[l.index] == l.value);
        let mut narrow = false;
        for aux in 0..8u32 {
            let mut all = base.clone();
            all.extend((0..3).map(|i| aux & (1 << i) != 0));
            if chain.iter().all(|c| c.eval(&all)) {
                narrow = true;
            }
        }
        assert_eq!(narrow, wide);
    }
}

#[test]
fn constructors_count_variables_from_one() {
    assert_eq!(Clause::new_c1(-5), Clause::C1(lit(4, false)));
    assert_eq!(Clause::new_c2(1, -2), Clause::C2(lit(0, true), lit(1, false)));
    assert_eq!(Clause::new_c3(3, -1, 2), Clause::C3(lit(2, true), lit(0, false), lit(1, true)));
    assert_eq!(
        Clause::new_c1_implicated(7),
        Clause::C1(Literal { index: 6, value: true, implicated: true, assigned: false })
    );
    assert_eq!(lit(4, false).as_isize(), -5);
    assert_eq!(lit(0, true).as_isize(), 1);
    assert_eq!(Literal::from_isize(-5), lit(4, false));
}

#[test]
fn implication_as_clause() {
    let i = Implication::new(1, -2);
    assert_eq!(i.from, lit(0, true));
    assert_eq!(i.to, Literal { index: 1, value: false, implicated: true, assigned: false });
    assert_eq!(
        i.to_clause(),
        Clause::C2(lit(0, false), Literal { index: 1, value: false, implicated: true, assigned: false })
    );
    assert!(i.to_clause().is_implicated());
}

#[test]
fn queries() {
    let c = Clause::C3(lit(4, true), lit(2, false), lit(7, true));
    assert!(c.contains(2));
    assert!(!c.contains(3));
    assert_eq!(c.get_literal(7), Some(lit(7, true)));
    assert_eq!(c.get_literal(0), None);
    assert_eq!(c.max_literal(), 7);
    assert_eq!(Clause::Empty.max_literal(), 0);
    assert_eq!(Clause::C2(lit(9, true), lit(3, true)).max_literal(), 9);
    assert_eq!(c.literals_vector(), vec![lit(4, true), lit(2, false), lit(7, true)]);
    assert_eq!(c.get_variables(), vec![lit(4, true), lit(2, false), lit(7, true)]);
    assert_eq!(Clause::Empty.literals_vector(), vec![]);
    assert!(!c.is_implicated());
}

#[test]
fn remove_drops_one_literal() {
    let c = Clause::C3(lit(4, true), lit(2, false), lit(7, true));
    assert_eq!(c.remove(2), Clause::C2(lit(4, true), lit(7, true)));
    assert_eq!(c.remove(4), Clause::C2(lit(2, false), lit(7, true)));
    assert_eq!(c.remove(7), Clause::C2(lit(4, true), lit(2, false)));
    assert_eq!(c.remove(3), c);
    assert_eq!(Clause::C2(lit(4, true), lit(2, false)).remove(4), Clause::C1(lit(2, false)));
    assert_eq!(Clause::C1(lit(4, true)).remove(4), Clause::Empty);
    assert_eq!(Clause::C1(lit(4, true)).remove(1), Clause::C1(lit(4, true)));
    assert_eq!(Clause::Empty.remove(0), Clause::Empty);
}

#[test]
fn adapt_reads_the_marks() {
    let open = lit(0, true);
    let gone = Literal { index: 1, value: true, implicated: false, assigned: true };
    let done = Literal { index: 2, value: true, implicated: true, assigned: false };
    assert_eq!(Clause::C3(open, gone, lit(3, false)).adapt(), Some(Clause::C2(open, lit(3, false))));
    assert_eq!(Clause::C3(gone, gone, open).adapt(), Some(Clause::C1(open)));
    assert_eq!(Clause::C3(open, gone, done).adapt(), None);
    assert_eq!(Clause::C2(gone, gone).adapt(), Some(Clause::Empty));
    assert_eq!(Clause::C1(gone).adapt(), Some(Clause::Empty));
    assert_eq!(Clause::C1(done).adapt(), None);
    assert_eq!(Clause::C1(open).adapt(), Some(Clause::C1(open)));
    assert_eq!(Clause::Empty.adapt(), Some(Clause::Empty));
}

#[test]
fn clause_update_implications_marks_by_polarity() {
    let mut c = Clause::C3(lit(0, true), lit(1, false), lit(2, true));
    c.update_implications(&lit(1, false));
    assert_eq!(
        c,
        Clause::C3(
            lit(0, true),
            Literal { index: 1, value: false, implicated: true, assigned: false },
            lit(2, true)
        )
    );
    c.update_implications(&lit(0, false));
    assert_eq!(
        c,
        Clause::C3(
            Literal { index: 0, value: true, implicated: false, assigned: true },
            Literal { index: 1, value: false, implicated: true, assigned: false },
            lit(2, true)
        )
    );
}
