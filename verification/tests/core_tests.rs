use puan_core::lineq::GeLineq;
use puan_core::solver::IntegerLinearProgram;
use puan_core::solver::Matrix;
use puan_core::solver::Polyhedron;
use puan_core::solver::SolutionStatus;
use puan_core::theory::AtLeast;
use puan_core::theory::Statement;
use puan_core::theory::Theory;
use puan_core::theory::reduce_lineqs;
use puan_core::variable::VarRegistry;
use puan_core::variable::Variable;
use puan_core::TheoryError;

fn lineq(id: Option<u32>, bias: i64, bounds: Vec<(i64, i64)>, coeffs: Vec<i64>, indices: Vec<u32>) -> GeLineq {
    GeLineq { id, bias, bounds, coeffs, indices }
}

fn bool_theory_one_root() -> Theory {
    // v0 = AtLeast([v1, v2], threshold 2), every variable in {0, 1}.
    Theory::new(
        String::from("t"),
        vec![
            Statement::new(0, (0, 1), Some(AtLeast::new(vec![1, 2], -2))),
            Statement::new(1, (0, 1), None),
            Statement::new(2, (0, 1), None),
        ],
    )
}

#[test]
fn registry_is_idempotent_and_orders_first_seen() {
    let mut reg = VarRegistry::new();
    assert_eq!(reg.register(Variable::new(4, (0, 1))), Ok(0));
    assert_eq!(reg.register(Variable::new(9, (-2, 5))), Ok(1));
    // same id, same bounds: idempotent
    assert_eq!(reg.register(Variable::new(4, (0, 1))), Ok(0));
    // same id, different bounds: conflict
    assert_eq!(
        reg.register(Variable::new(9, (0, 5))),
        Err(TheoryError::ConflictingBounds)
    );
    assert_eq!(reg.column_of(4), Some(0));
    assert_eq!(reg.column_of(9), Some(1));
    assert_eq!(reg.column_of(77), None);
}

#[test]
fn gelineq_new_checks_dimensions() {
    let ok = GeLineq::new(None, -1, vec![(0, 1), (0, 1)], vec![1, 1], vec![1, 2]);
    assert!(ok.is_ok());
    let bad_len = GeLineq::new(None, -1, vec![(0, 1)], vec![1, 1], vec![1, 2]);
    assert_eq!(bad_len.unwrap_err(), TheoryError::DimensionMismatch);
    let dup = GeLineq::new(None, -1, vec![(0, 1), (0, 1)], vec![1, 1], vec![3, 3]);
    assert_eq!(dup.unwrap_err(), TheoryError::DimensionMismatch);
}

#[test]
fn merge_disj_combines_two_clauses() {
    // x1 + x2 - 1 >= 0 and x3 + x4 - 1 >= 0 over {0,1} boxes: each can fall
    // at most one unit below satisfaction, so the disjunction merges.
    let a = lineq(None, -1, vec![(0, 1), (0, 1)], vec![1, 1], vec![1, 2]);
    let b = lineq(None, -1, vec![(0, 1), (0, 1)], vec![1, 1], vec![3, 4]);
    let c = a.merge_disj(&b).expect("clauses over disjoint supports merge");
    assert_eq!(c.id, None);
    assert_eq!(c.indices, vec![1, 2, 3, 4]);
    assert_eq!(c.coeffs, vec![1, 1, 1, 1]);
    assert_eq!(c.bias, -1);
    // spot-check the equivalence on every corner of the box
    for p in 0..16u32 {
        let x = [p & 1, (p >> 1) & 1, (p >> 2) & 1, (p >> 3) & 1];
        let sat_a = x[0] + x[1] >= 1;
        let sat_b = x[2] + x[3] >= 1;
        let val_c: i64 = c.bias
            + c.coeffs
                .iter()
                .zip(x.iter())
                .map(|(co, xv)| co * (*xv as i64))
                .sum::<i64>();
        assert_eq!(val_c >= 0, sat_a || sat_b, "corner {:?}", x);
    }
}

#[test]
fn merge_disj_refuses_shared_support() {
    let a = lineq(None, -1, vec![(0, 1), (0, 1)], vec![1, 1], vec![1, 2]);
    let b = lineq(None, -1, vec![(0, 1), (0, 1)], vec![1, 1], vec![2, 3]);
    assert!(a.merge_disj(&b).is_none());
}

#[test]
fn merge_disj_refuses_deep_violations() {
    // both sides can fall two units below satisfaction: no single row is exact
    let a = lineq(None, -2, vec![(0, 1), (0, 1)], vec![1, 1], vec![1, 2]);
    let b = lineq(None, -2, vec![(0, 1), (0, 1)], vec![1, 1], vec![3, 4]);
    assert!(a.merge_disj(&b).is_none());
}

#[test]
fn merge_conj_combines_two_conjunctions() {
    // x1 + x2 - 2 >= 0 and x3 + x4 - 2 >= 0 over {0,1}: satisfied only at
    // the top of the box, so the conjunction merges.
    let a = lineq(Some(7), -2, vec![(0, 1), (0, 1)], vec![1, 1], vec![1, 2]);
    let b = lineq(Some(7), -2, vec![(0, 1), (0, 1)], vec![1, 1], vec![3, 4]);
    let c = a.merge_conj(&b).expect("tight conjunctions merge");
    // both inputs carry the same provenance, so the merge keeps it
    assert_eq!(c.id, Some(7));
    for p in 0..16u32 {
        let x = [p & 1, (p >> 1) & 1, (p >> 2) & 1, (p >> 3) & 1];
        let sat_a = x[0] + x[1] >= 2;
        let sat_b = x[2] + x[3] >= 2;
        let mut val_c = c.bias;
        for (k, idx) in c.indices.iter().enumerate() {
            let xv = x[(*idx as usize) - 1] as i64;
            val_c += c.coeffs[k] * xv;
        }
        assert_eq!(val_c >= 0, sat_a && sat_b, "corner {:?}", x);
    }
}

#[test]
fn merge_conj_refuses_loose_sides() {
    // both sides stay satisfiable above zero: x1 - 0 >= 0 style rows
    let a = lineq(None, 0, vec![(0, 1), (0, 1)], vec![1, 1], vec![1, 2]);
    let b = lineq(None, 0, vec![(0, 1), (0, 1)], vec![1, 1], vec![3, 4]);
    assert!(a.merge_conj(&b).is_none());
}

#[test]
fn reduce_reaches_a_fixpoint_and_is_idempotent() {
    let a = lineq(None, -2, vec![(0, 1), (0, 1)], vec![1, 1], vec![1, 2]);
    let b = lineq(None, -2, vec![(0, 1), (0, 1)], vec![1, 1], vec![3, 4]);
    let reduced = reduce_lineqs(vec![a, b]);
    assert_eq!(reduced.len(), 1);
    assert_eq!(reduced[0].bias, -4);
    // a second application changes nothing: the fixpoint is reached
    let again = reduce_lineqs(reduced.clone());
    assert_eq!(again.len(), 1);
    assert_eq!(again[0].bias, reduced[0].bias);
    assert_eq!(again[0].coeffs, reduced[0].coeffs);
    assert_eq!(again[0].indices, reduced[0].indices);
}

#[test]
fn to_lineqs_full_mode_emits_the_reifying_pair() {
    let t = bool_theory_one_root();
    let rows = t.to_lineqs(false, false).expect("well-formed theory compiles");
    assert_eq!(rows.len(), 2);
    // operand extremes: low 0+0-2 = -2, high 1+1-2 = 0
    assert_eq!(rows[0].id, Some(0));
    assert_eq!(rows[0].indices, vec![1, 2, 0]);
    assert_eq!(rows[0].coeffs, vec![1, 1, -2]);
    assert_eq!(rows[0].bias, 0);
    assert_eq!(rows[1].id, Some(0));
    assert_eq!(rows[1].indices, vec![1, 2, 0]);
    assert_eq!(rows[1].coeffs, vec![-1, -1, 1]);
    assert_eq!(rows[1].bias, 1);
    // the pair reifies v0 <=> v1 + v2 >= 2 on every corner
    for p in 0..8u32 {
        let v0 = (p & 1) as i64;
        let v1 = ((p >> 1) & 1) as i64;
        let v2 = ((p >> 2) & 1) as i64;
        let r1 = v1 + v2 + -2 * v0 + rows[0].bias >= 0;
        let r2 = -v1 - v2 + 1 * v0 + rows[1].bias >= 0;
        let reified = (v0 == 1) == (v1 + v2 >= 2);
        assert_eq!(r1 && r2, reified, "corner {} {} {}", v0, v1, v2);
    }
}

#[test]
fn to_lineqs_active_mode_emits_the_bare_predicate() {
    let t = bool_theory_one_root();
    let rows = t.to_lineqs(true, false).expect("well-formed theory compiles");
    assert_eq!(rows.len(), 1);
    assert_eq!(rows[0].id, Some(0));
    assert_eq!(rows[0].indices, vec![1, 2]);
    assert_eq!(rows[0].coeffs, vec![1, 1]);
    assert_eq!(rows[0].bias, -2);
}

#[test]
fn to_lineqs_groups_repeated_operands() {
    // v0 = AtLeast([v1, v1, v2], threshold 2): v1 counts twice
    let t = Theory::new(
        String::from("t"),
        vec![
            Statement::new(0, (0, 1), Some(AtLeast::new(vec![1, 1, 2], -2))),
            Statement::new(1, (0, 1), None),
            Statement::new(2, (0, 1), None),
        ],
    );
    let rows = t.to_lineqs(true, false).unwrap();
    assert_eq!(rows[0].indices, vec![1, 2]);
    assert_eq!(rows[0].coeffs, vec![2, 1]);
    assert_eq!(rows[0].bias, -2);
}

#[test]
fn compile_rejects_conflicting_bounds() {
    let t = Theory::new(
        String::from("t"),
        vec![
            Statement::new(1, (0, 1), None),
            Statement::new(1, (0, 2), None),
        ],
    );
    assert_eq!(t.to_lineqs(false, false).unwrap_err(), TheoryError::ConflictingBounds);
}

#[test]
fn compile_rejects_unknown_operands() {
    let t = Theory::new(
        String::from("t"),
        vec![
            Statement::new(0, (0, 1), Some(AtLeast::new(vec![9], -1))),
            Statement::new(1, (0, 1), None),
        ],
    );
    assert_eq!(t.to_lineqs(false, false).unwrap_err(), TheoryError::UnknownOperand);
}

#[test]
fn compile_rejects_cycles() {
    let t = Theory::new(
        String::from("t"),
        vec![
            Statement::new(0, (0, 1), Some(AtLeast::new(vec![1], -1))),
            Statement::new(1, (0, 1), Some(AtLeast::new(vec![0], -1))),
        ],
    );
    assert_eq!(t.to_lineqs(false, false).unwrap_err(), TheoryError::CyclicTheory);
}

#[test]
fn compile_rejects_self_reference() {
    let t = Theory::new(
        String::from("t"),
        vec![Statement::new(0, (0, 1), Some(AtLeast::new(vec![0], -1)))],
    );
    assert_eq!(t.to_lineqs(false, false).unwrap_err(), TheoryError::CyclicTheory);
}

#[test]
fn polyhedron_lists_each_variable_once_in_order() {
    let t = bool_theory_one_root();
    let p = t.to_ge_polyhedron(false, false).unwrap();
    assert_eq!(p.a.ncols, 3);
    assert_eq!(p.variables.len(), 3);
    assert_eq!(p.variables[0].id, 0);
    assert_eq!(p.variables[1].id, 1);
    assert_eq!(p.variables[2].id, 2);
    assert_eq!(p.a.nrows, 2);
    assert_eq!(p.a.val, vec![-2, 1, 1, 1, -1, -1]);
    assert_eq!(p.b, vec![0, -1]);
    assert_eq!(p.index, vec![Some(0), Some(0)]);
}

#[test]
fn end_to_end_maximizing_both_leaves_forces_the_root() {
    let t = bool_theory_one_root();
    let sols = t
        .solve(&vec![vec![(1, 1), (2, 1), (0, 0)]], false)
        .expect("well-formed theory solves");
    assert_eq!(sols.len(), 1);
    assert_eq!(sols[0].status, SolutionStatus::Optimal);
    assert_eq!(sols[0].z, 2);
    // v1 = v2 = 1, and the reification then forces v0 = 1
    assert_eq!(sols[0].x, vec![1, 1, 1]);
}

#[test]
fn infeasible_box_is_reported_per_objective() {
    // x >= 5 and x <= 3 for one variable bounded [0, 10]
    let p = Polyhedron {
        a: Matrix { val: vec![1, -1], nrows: 2, ncols: 1 },
        b: vec![5, -3],
        variables: vec![Variable::new(7, (0, 10))],
        index: vec![None, None],
    };
    let sols = p.solve(&vec![vec![(7, 1)], vec![(7, -4)], vec![]]);
    assert_eq!(sols.len(), 3);
    for s in &sols {
        assert_eq!(s.status, SolutionStatus::Infeasible);
        assert_eq!(s.x.len(), 0);
        assert_eq!(s.z, 0);
    }
}

#[test]
fn solver_maximizes_under_a_budget_row() {
    // maximize 3x + 2y subject to x + y <= 3 over x, y in [0, 2]
    let ilp = IntegerLinearProgram {
        ge_ph: Polyhedron {
            a: Matrix { val: vec![-1, -1], nrows: 1, ncols: 2 },
            b: vec![-3],
            variables: vec![Variable::new(1, (0, 2)), Variable::new(2, (0, 2))],
            index: vec![None],
        },
        eq_ph: Polyhedron::empty(),
        of: vec![3, 2],
    };
    let s = ilp.solve();
    assert_eq!(s.status, SolutionStatus::Optimal);
    assert_eq!(s.z, 8);
    assert_eq!(s.x, vec![2, 1]);
}

#[test]
fn solver_honors_equality_rows() {
    // maximize x + y subject to x - y == 1 over [0, 5] each
    let ilp = IntegerLinearProgram {
        ge_ph: Polyhedron {
            a: Matrix { val: vec![], nrows: 0, ncols: 2 },
            b: vec![],
            variables: vec![Variable::new(1, (0, 5)), Variable::new(2, (0, 5))],
            index: vec![],
        },
        eq_ph: Polyhedron {
            a: Matrix { val: vec![1, -1], nrows: 1, ncols: 2 },
            b: vec![1],
            variables: vec![Variable::new(1, (0, 5)), Variable::new(2, (0, 5))],
            index: vec![None],
        },
        of: vec![1, 1],
    };
    let s = ilp.solve();
    assert_eq!(s.status, SolutionStatus::Optimal);
    assert_eq!(s.x, vec![5, 4]);
    assert_eq!(s.z, 9);
}

#[test]
fn solver_rejects_mismatched_dimensions() {
    let ilp = IntegerLinearProgram {
        ge_ph: Polyhedron {
            a: Matrix { val: vec![1, 1], nrows: 1, ncols: 1 },
            b: vec![0],
            variables: vec![Variable::new(1, (0, 1))],
            index: vec![None],
        },
        eq_ph: Polyhedron::empty(),
        of: vec![1],
    };
    let s = ilp.solve();
    assert_eq!(s.status, SolutionStatus::Error);
}

#[test]
fn solve_ignores_unknown_objective_ids_and_defaults_to_zero() {
    let t = bool_theory_one_root();
    // id 99 is not a column; v1, v2 default to coefficient 0
    let sols = t.solve(&vec![vec![(99, 50), (0, 1)]], false).unwrap();
    assert_eq!(sols[0].status, SolutionStatus::Optimal);
    // objective only rewards v0; v0 = 1 needs v1 = v2 = 1
    assert_eq!(sols[0].z, 1);
    assert_eq!(sols[0].x, vec![1, 1, 1]);
}

#[test]
fn solve_batches_preserve_objective_order() {
    let t = bool_theory_one_root();
    let sols = t
        .solve(&vec![vec![(1, 1)], vec![(1, -1), (2, -1)]], false)
        .unwrap();
    assert_eq!(sols.len(), 2);
    assert_eq!(sols[0].status, SolutionStatus::Optimal);
    assert_eq!(sols[0].z, 1);
    assert_eq!(sols[1].status, SolutionStatus::Optimal);
    assert_eq!(sols[1].z, 0);
    assert_eq!(sols[1].x, vec![0, 0, 0]);
}

#[test]
fn reduced_compilation_solves_like_the_unreduced_one() {
    // two independent AND statements merge under reduction; the feasible
    // set, and hence each optimum, is unchanged
    let t = Theory::new(
        String::from("t"),
        vec![
            Statement::new(0, (0, 1), Some(AtLeast::new(vec![2, 3], -2))),
            Statement::new(1, (0, 1), Some(AtLeast::new(vec![4, 5], -2))),
            Statement::new(2, (0, 1), None),
            Statement::new(3, (0, 1), None),
            Statement::new(4, (0, 1), None),
            Statement::new(5, (0, 1), None),
        ],
    );
    let objective = vec![vec![(0, 1), (1, 1)]];
    let plain = t.solve(&objective, false).unwrap();
    let reduced = t.solve(&objective, true).unwrap();
    assert_eq!(plain[0].status, SolutionStatus::Optimal);
    assert_eq!(reduced[0].status, SolutionStatus::Optimal);
    assert_eq!(plain[0].z, reduced[0].z);
    assert_eq!(plain[0].z, 2);
}

#[test]
fn active_reduce_merges_disjoint_tight_rows() {
    let t = Theory::new(
        String::from("t"),
        vec![
            Statement::new(0, (0, 1), Some(AtLeast::new(vec![2, 3], -2))),
            Statement::new(1, (0, 1), Some(AtLeast::new(vec![4, 5], -2))),
            Statement::new(2, (0, 1), None),
            Statement::new(3, (0, 1), None),
            Statement::new(4, (0, 1), None),
            Statement::new(5, (0, 1), None),
        ],
    );
    let rows = t.to_lineqs(true, true).unwrap();
    assert_eq!(rows.len(), 1);
    assert_eq!(rows[0].bias, -4);
}

#[test]
fn solver_errors_on_oversized_entries() {
    let ilp = IntegerLinearProgram {
        ge_ph: Polyhedron {
            a: Matrix { val: vec![5_000_000_000], nrows: 1, ncols: 1 },
            b: vec![0],
            variables: vec![Variable::new(1, (0, 1))],
            index: vec![None],
        },
        eq_ph: Polyhedron::empty(),
        of: vec![1],
    };
    assert_eq!(ilp.solve().status, SolutionStatus::Error);
}

#[test]
fn is_bounded_reflects_the_compiler_caps() {
    assert!(bool_theory_one_root().is_bounded());
    let too_big = Theory::new(
        String::from("t"),
        vec![Statement::new(0, (0, 2_000_000), None)],
    );
    assert!(!too_big.is_bounded());
}
