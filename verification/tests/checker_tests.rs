use rupcheck::checker::{CheckedProofStep, Checker, CheckerError};
use rupcheck::codec::{write_step, ProofStep};
use rupcheck::lit::{clause_hash, Lit};

fn lits(numbers: &[i32]) -> Vec<Lit> {
    numbers.iter().map(|&n| Lit::from_dimacs(n)).collect()
}

#[test]
fn clause_hash_is_deterministic() {
    // The fingerprint folds the multiplier over the literal codes.
    assert_eq!(clause_hash(&lits(&[1, 2])), 2);
    assert_eq!(clause_hash(&lits(&[3, 4])), 0x78DDE6E5FD29F05A);
    assert_eq!(clause_hash(&lits(&[3, 4])), clause_hash(&lits(&[3, 4])));
    assert_ne!(clause_hash(&lits(&[3, 4])), clause_hash(&lits(&[3, -4])));
}

#[test]
fn conflicting_units() {
    let mut checker = Checker::new();

    checker
        .add_formula(&vec![lits(&[1]), lits(&[-1])])
        .unwrap();

    assert!(checker.is_unsat());
}

#[test]
fn invalid_delete() {
    let mut checker = Checker::new();

    checker
        .add_formula(&vec![lits(&[1, 2, 3]), lits(&[-4, 5])])
        .unwrap();

    match checker.check_step(ProofStep::DeleteClause(lits(&[-5, 4]))) {
        Err(CheckerError::InvalidDelete { .. }) => (),
        _ => panic!("expected InvalidDelete error"),
    }
}

#[test]
fn ref_counts() {
    let mut checker = Checker::new();

    checker
        .add_formula(&vec![lits(&[1, 2, 3]), lits(&[1, 2, 3])])
        .unwrap();

    let clause = lits(&[1, 2, 3]);

    checker
        .check_step(ProofStep::DeleteClause(clause.clone()))
        .unwrap();

    checker.add_clause(&clause).unwrap();

    checker
        .check_step(ProofStep::DeleteClause(clause.clone()))
        .unwrap();

    checker
        .check_step(ProofStep::DeleteClause(clause.clone()))
        .unwrap();

    match checker.check_step(ProofStep::DeleteClause(clause.clone())) {
        Err(CheckerError::InvalidDelete { .. }) => (),
        _ => panic!("expected InvalidDelete error"),
    }
}

#[test]
fn clause_not_found() {
    let mut checker = Checker::new();
    checker.add_formula(&vec![lits(&[1, 2, 3])]).unwrap();

    match checker.check_step(ProofStep::AtClause {
        clause: vec![],
        propagation_hashes: vec![0],
    }) {
        Err(CheckerError::ClauseNotFound { .. }) => (),
        _ => panic!("expected ClauseNotFound error"),
    }
}

#[test]
fn clause_check_failed() {
    let mut checker = Checker::new();
    checker.add_formula(&vec![lits(&[1, 2, 3])]).unwrap();

    match checker.check_step(ProofStep::AtClause {
        clause: vec![],
        propagation_hashes: vec![],
    }) {
        Err(CheckerError::ClauseCheckFailed { .. }) => (),
        _ => panic!("expected ClauseCheckFailed error"),
    }
}

#[test]
fn conflicting_units_emit_empty_clause() {
    let mut checker = Checker::new();

    checker
        .add_formula(&vec![lits(&[1]), lits(&[-1])])
        .unwrap();

    assert!(checker.is_unsat());

    // End of the proof stream: the remembered unit conflict becomes the
    // derivation of the empty clause under the next identifier.
    checker.check_proof(&vec![]).unwrap();

    let steps = checker.emitted_steps();
    assert_eq!(steps.len(), 3);
    assert_eq!(
        steps[0],
        CheckedProofStep::AddClause {
            id: 1,
            clause: lits(&[1])
        }
    );
    assert_eq!(
        steps[1],
        CheckedProofStep::AddClause {
            id: 2,
            clause: lits(&[-1])
        }
    );
    assert_eq!(
        steps[2],
        CheckedProofStep::AtClause {
            id: 3,
            clause: vec![],
            propagations: vec![1, 2],
        }
    );
}

#[test]
fn duplicate_ids_are_burned() {
    let mut checker = Checker::new();

    checker
        .add_formula(&vec![lits(&[1, 2, 3]), lits(&[1, 2, 3])])
        .unwrap();

    let clause = lits(&[1, 2, 3]);

    // First deletion drops one copy and emits nothing.
    checker
        .check_step(ProofStep::DeleteClause(clause.clone()))
        .unwrap();
    assert_eq!(checker.emitted_steps().len(), 2);

    // Adding the clause again burns identifier 3.
    checker.add_clause(&clause).unwrap();

    // Two deletions later the last copy goes under the original identifier.
    checker
        .check_step(ProofStep::DeleteClause(clause.clone()))
        .unwrap();
    checker
        .check_step(ProofStep::DeleteClause(clause.clone()))
        .unwrap();

    let steps = checker.emitted_steps();
    assert_eq!(steps.len(), 4);
    assert_eq!(
        steps[0],
        CheckedProofStep::AddClause {
            id: 1,
            clause: clause.clone()
        }
    );
    assert_eq!(
        steps[1],
        CheckedProofStep::DuplicatedClause {
            id: 2,
            same_as_id: 1,
            clause: clause.clone()
        }
    );
    assert_eq!(
        steps[2],
        CheckedProofStep::DuplicatedClause {
            id: 3,
            same_as_id: 1,
            clause: clause.clone()
        }
    );
    assert_eq!(
        steps[3],
        CheckedProofStep::DeleteClause {
            id: 1,
            clause: clause.clone()
        }
    );
}

#[test]
fn at_clause_records_propagations() {
    let mut checker = Checker::new();

    // (1 v 2) and (-1 v 2) entail the unit clause (2).
    checker
        .add_formula(&vec![lits(&[1, 2]), lits(&[-1, 2])])
        .unwrap();

    let h1 = clause_hash(&lits(&[1, 2]));
    let h2 = clause_hash(&lits(&[-1, 2]));

    checker
        .check_step(ProofStep::AtClause {
            clause: lits(&[2]),
            propagation_hashes: vec![h1, h2],
        })
        .unwrap();

    let steps = checker.emitted_steps();
    assert_eq!(steps.len(), 3);
    assert_eq!(
        steps[2],
        CheckedProofStep::AtClause {
            id: 3,
            clause: lits(&[2]),
            propagations: vec![1, 2],
        }
    );
}

#[test]
fn unit_clauses_step_is_checked_and_stored() {
    let mut checker = Checker::new();

    // The unit (2) and the clause (1 v -2) entail the unit clause (1).
    checker
        .add_formula(&vec![lits(&[2]), lits(&[1, -2])])
        .unwrap();

    let h = clause_hash(&lits(&[1, -2]));

    checker
        .check_step(ProofStep::UnitClauses(vec![(Lit::from_dimacs(1), h)]))
        .unwrap();

    let steps = checker.emitted_steps();
    assert_eq!(steps.len(), 3);
    assert_eq!(
        steps[2],
        CheckedProofStep::AtClause {
            id: 3,
            clause: lits(&[1]),
            propagations: vec![1, 2],
        }
    );
}

#[test]
fn checked_step_ids_increase() {
    let mut checker = Checker::new();

    checker
        .add_formula(&vec![
            lits(&[1, 2]),
            lits(&[-1, 2]),
            lits(&[1, 2]),
            lits(&[3, 4, 5, 6]),
        ])
        .unwrap();

    let h1 = clause_hash(&lits(&[1, 2]));
    let h2 = clause_hash(&lits(&[-1, 2]));
    checker
        .check_step(ProofStep::AtClause {
            clause: lits(&[2]),
            propagation_hashes: vec![h1, h2],
        })
        .unwrap();

    let mut last_new_id = 0u64;
    for step in checker.emitted_steps() {
        match step {
            CheckedProofStep::DeleteClause { .. } => (),
            CheckedProofStep::AddClause { id, .. }
            | CheckedProofStep::DuplicatedClause { id, .. }
            | CheckedProofStep::AtClause { id, .. } => {
                assert!(*id > last_new_id);
                last_new_id = *id;
            }
        }
    }
    assert_eq!(last_new_id, 5);
}

#[test]
fn balanced_deletions_empty_the_store() {
    let mut checker = Checker::new();

    checker
        .add_formula(&vec![
            lits(&[1, 2, 3, 4]),
            lits(&[5, 6]),
            lits(&[5, 6]),
        ])
        .unwrap();
    assert_eq!(checker.clauses.len(), 2);

    checker
        .check_step(ProofStep::DeleteClause(lits(&[1, 2, 3, 4])))
        .unwrap();
    checker
        .check_step(ProofStep::DeleteClause(lits(&[5, 6])))
        .unwrap();
    checker
        .check_step(ProofStep::DeleteClause(lits(&[5, 6])))
        .unwrap();

    assert!(checker.clauses.is_empty());
}

#[test]
fn gc_runs_once_and_again_changes_nothing() {
    let mut checker = Checker::new();

    // Two long clauses occupy the shared buffer; deleting the longer one
    // leaves more than half of the buffer as garbage, so the deletion
    // compacts it.
    checker
        .add_formula(&vec![lits(&[1, 2, 3, 4, 5, 6]), lits(&[1, 2, 3, -4])])
        .unwrap();
    assert_eq!(checker.literal_buffer.len(), 10);

    checker
        .check_step(ProofStep::DeleteClause(lits(&[1, 2, 3, 4, 5, 6])))
        .unwrap();
    assert_eq!(checker.garbage_size, 0);
    assert_eq!(checker.literal_buffer.len(), 4);

    // A second collection right after is a no-op.
    let buffer_before = checker.literal_buffer.clone();
    checker.collect_garbage();
    assert_eq!(checker.garbage_size, 0);
    assert_eq!(checker.literal_buffer, buffer_before);
}

#[test]
fn backward_sweep_marks_only_the_conflict_chain() {
    let mut checker = Checker::new();

    // Proving (2): assuming -2, clause (1 v 2) propagates 1 and (3 v 2)
    // propagates 3, but only the first is needed for the conflict with
    // (-1 v 2). The off-path propagation stays marked unused.
    checker
        .add_formula(&vec![lits(&[1, 2]), lits(&[3, 2]), lits(&[-1, 2])])
        .unwrap();

    checker
        .check_step(ProofStep::AtClause {
            clause: lits(&[2]),
            propagation_hashes: vec![
                clause_hash(&lits(&[1, 2])),
                clause_hash(&lits(&[2, 3])),
                clause_hash(&lits(&[-1, 2])),
            ],
        })
        .unwrap();

    let ids: Vec<u64> = checker.trace.iter().map(|t| t.id).collect();
    let unused: Vec<bool> = checker.trace.iter().map(|t| t.unused).collect();
    assert_eq!(ids, vec![1, 2, 3]);
    assert_eq!(unused, vec![false, true, false]);

    let steps = checker.emitted_steps();
    assert_eq!(
        steps[3],
        CheckedProofStep::AtClause {
            id: 4,
            clause: lits(&[2]),
            propagations: vec![1, 2, 3],
        }
    );
}

#[test]
fn unit_table_restored_after_failed_check() {
    let mut checker = Checker::new();
    checker
        .add_formula(&vec![lits(&[1]), lits(&[2, 3])])
        .unwrap();

    let before = checker.unit_clauses.clone();

    // Assuming -3, the clause (2 v 3) merely propagates 2: no conflict.
    match checker.check_step(ProofStep::AtClause {
        clause: lits(&[3]),
        propagation_hashes: vec![clause_hash(&lits(&[2, 3]))],
    }) {
        Err(CheckerError::ClauseCheckFailed { .. }) => (),
        other => panic!("expected ClauseCheckFailed, got {:?}", other),
    }

    // Every transient assignment was undone: the table holds what it held,
    // and variables it grew to cover stay unforced.
    for (i, entry) in checker.unit_clauses.iter().enumerate() {
        if i < before.len() {
            assert_eq!(*entry, before[i]);
        } else {
            assert!(entry.is_none());
        }
    }
    assert!(checker.trail.is_empty());
}

#[test]
fn proof_incomplete_on_empty_proof() {
    let mut checker = Checker::new();
    checker.add_formula(&vec![lits(&[1, 2, 3])]).unwrap();

    match checker.check_proof(&vec![]) {
        Err(CheckerError::ProofIncomplete { step: 1 }) => (),
        other => panic!("expected ProofIncomplete at step 1, got {:?}", other),
    }
}

#[test]
fn parse_error_on_unknown_tag() {
    let mut checker = Checker::new();
    checker.add_formula(&vec![lits(&[1, 2, 3])]).unwrap();

    match checker.check_proof(&vec![99u8]) {
        Err(CheckerError::ParseError { step: 1 }) => (),
        other => panic!("expected ParseError at step 1, got {:?}", other),
    }
}

#[test]
fn check_proof_runs_an_encoded_proof() {
    let mut checker = Checker::new();
    // (1 v 2), (-1 v 2), (1 v -2), (-1 v -2) is unsatisfiable.
    checker
        .add_formula(&vec![
            lits(&[1, 2]),
            lits(&[-1, 2]),
            lits(&[1, -2]),
            lits(&[-1, -2]),
        ])
        .unwrap();

    // Derive the unit (2), then the unit (-2); their conflict closes the
    // proof.
    let mut proof: Vec<u8> = Vec::new();
    write_step(
        &mut proof,
        &ProofStep::AtClause {
            clause: lits(&[2]),
            propagation_hashes: vec![
                clause_hash(&lits(&[1, 2])),
                clause_hash(&lits(&[-1, 2])),
            ],
        },
    );
    write_step(
        &mut proof,
        &ProofStep::AtClause {
            clause: lits(&[-2]),
            propagation_hashes: vec![
                clause_hash(&lits(&[1, -2])),
                clause_hash(&lits(&[-1, -2])),
            ],
        },
    );

    checker.check_proof(&proof).unwrap();
    assert!(checker.is_unsat());

    let steps = checker.emitted_steps();
    let last = steps.last().unwrap();
    match last {
        CheckedProofStep::AtClause { clause, .. } => assert!(clause.is_empty()),
        other => panic!("expected a final empty clause, got {:?}", other),
    }
}
