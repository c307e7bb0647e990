//! The proof checker: clause store, unit-clause table, RUP check and step
//! dispatch.
//!
//! The checker holds the current formula as a multiset of clauses indexed by
//! fingerprint, and a table giving each variable its forced value, if any,
//! with the clause that forced it. Proof steps are verified by reverse unit
//! propagation and recorded as checked steps carrying stable, strictly
//! increasing clause identifiers.

use vstd::prelude::*;

use crate::codec::{dec_step, DecodeError, Parser, ProofStep, ProofStepView};
use crate::lit::{clause_hash, hash_lits, sort_dedup_lits, strictly_sorted, Lit};
use crate::store::{
    bucket_wf,
    lemma_live_buckets_push,
    lemma_live_clauses_push,
    buckets_wf,
    clause_contrib,
    clause_lits_equal,
    clause_wf,
    count_in_buckets,
    count_in_clauses,
    has_rec,
    lemma_buckets_wf_extend,
    lemma_count_buckets_at_least,
    lemma_count_buckets_extend,
    lemma_count_buckets_pos,
    lemma_count_buckets_push,
    lemma_count_buckets_remove,
    lemma_count_buckets_update,
    lemma_count_clauses_push,
    lemma_count_clauses_remove,
    lemma_count_clauses_update,
    lemma_empty_store,
    lemma_no_bucket_no_rec,
    lit_at,
    lits_in_buf,
    lits_of,
    live_in_buckets,
    spec_buffer_used,
    live_in_clauses,
    stored_with_id,
    Clause,
    ClauseLits,
    HashBucket,
};

verus! {

/// What forced a unit clause: a stored clause, an entry of the running RUP
/// trace, or the candidate clause under test.
#[derive(Clone, Copy, PartialEq, Eq, Structural, Debug)]
pub enum UnitId {
    Global(u64),
    TracePos(usize),
    InClause,
}

/// A forced variable: its value and what forced it.
#[derive(Clone, Copy, PartialEq, Eq, Structural, Debug)]
pub struct UnitClause {
    pub id: UnitId,
    pub value: bool,
}

/// One entry of the RUP trace: the clause that propagated or conflicted,
/// its edges into earlier entries, and whether the backward sweep found it
/// unused.
#[derive(Clone, Copy)]
pub struct TraceItem {
    pub id: u64,
    pub edge_start: usize,
    pub edge_end: usize,
    pub unused: bool,
}

/// A checked proof step. Clause identifiers increase strictly over every
/// emitted step that allocates one; literals are sorted and duplicate-free.
#[derive(Clone, PartialEq, Eq, Debug)]
pub enum CheckedProofStep {
    /// A clause of the input formula.
    AddClause { id: u64, clause: Vec<Lit> },
    /// A repeated clause of the input formula: `id` is burned so that input
    /// clauses keep a positional correspondence with identifiers, and the
    /// clause stays known under `same_as_id`.
    DuplicatedClause { id: u64, same_as_id: u64, clause: Vec<Lit> },
    /// An asymmetric tautology; `propagations` names the clauses that became
    /// unit, in order, ending with the conflicting clause.
    AtClause { id: u64, clause: Vec<Lit>, propagations: Vec<u64> },
    /// Deletion of a clause; `id` names the record whose last copy went.
    DeleteClause { id: u64, clause: Vec<Lit> },
}

/// Why checking failed, each with the number of the proof step being
/// processed (the input formula counts as step 0).
#[derive(Clone, PartialEq, Eq, Debug)]
pub enum CheckerError {
    /// The proof ended without deriving unsatisfiability.
    ProofIncomplete { step: u64 },
    /// The proof bytes are malformed.
    ParseError { step: u64 },
    /// Deletion of a clause that is not present, or of a unit or empty
    /// clause.
    InvalidDelete { step: u64, clause: Vec<Lit> },
    /// A propagation fingerprint with no stored clause.
    ClauseNotFound { step: u64, hash: u64 },
    /// Unit propagation derived no conflict.
    ClauseCheckFailed { step: u64, clause: Vec<Lit> },
    /// A clause identifier or reference count left its range.
    CounterOverflow { step: u64 },
}

/// The proof-step number an error names.
pub open spec fn error_step(e: CheckerError) -> u64 {
    match e {
        CheckerError::ProofIncomplete { step } => step,
        CheckerError::ParseError { step } => step,
        CheckerError::InvalidDelete { step, .. } => step,
        CheckerError::ClauseNotFound { step, .. } => step,
        CheckerError::ClauseCheckFailed { step, .. } => step,
        CheckerError::CounterOverflow { step } => step,
    }
}

/// The identifier a checked step carries.
pub open spec fn step_id(s: CheckedProofStep) -> u64 {
    match s {
        CheckedProofStep::AddClause { id, .. } => id,
        CheckedProofStep::DuplicatedClause { id, .. } => id,
        CheckedProofStep::AtClause { id, .. } => id,
        CheckedProofStep::DeleteClause { id, .. } => id,
    }
}

/// Whether a checked step is a deletion. A deletion names an identifier
/// allocated earlier; every other step carries a fresh one.
pub open spec fn is_delete_step(s: CheckedProofStep) -> bool {
    s is DeleteClause
}

/// Identifiers of the emitted steps that allocate one are strictly
/// increasing in emission order.
pub open spec fn checked_ids_monotone(es: Seq<CheckedProofStep>) -> bool {
    forall|i: int, j: int|
        0 <= i < j < es.len() && !is_delete_step(es[i]) && !is_delete_step(es[j]) ==> step_id(
            #[trigger] es[i],
        ) < step_id(#[trigger] es[j])
}

/// Every emitted step's identifier lies below `bound`.
pub open spec fn emitted_ids_below(es: Seq<CheckedProofStep>, bound: u64) -> bool {
    forall|i: int| 0 <= i < es.len() ==> step_id(#[trigger] es[i]) < bound
}

/// Appending a step keeps identifiers monotone and bounded, provided a
/// non-deletion step carries an identifier no older step reaches.
pub proof fn lemma_emit(es: Seq<CheckedProofStep>, st: CheckedProofStep, bound: u64, nb: u64)
    requires
        checked_ids_monotone(es),
        emitted_ids_below(es, bound),
        !is_delete_step(st) ==> step_id(st) >= bound,
        step_id(st) < nb,
        bound <= nb,
    ensures
        checked_ids_monotone(es.push(st)),
        emitted_ids_below(es.push(st), nb),
{
    let es2 = es.push(st);
    assert forall|i: int, j: int|
        0 <= i < j < es2.len() && !is_delete_step(es2[i]) && !is_delete_step(es2[j]) implies step_id(
        #[trigger] es2[i],
    ) < step_id(#[trigger] es2[j]) by {
        if j < es.len() {
            assert(es2[i] == es[i] && es2[j] == es[j]);
        } else {
            assert(es2[j] == st);
            assert(es2[i] == es[i]);
        }
    }
    assert forall|i: int| 0 <= i < es2.len() implies step_id(#[trigger] es2[i]) < nb by {
        if i < es.len() {
            assert(es2[i] == es[i]);
        } else {
            assert(es2[i] == st);
        }
    }
}

/// The checker.
pub struct Checker {
    /// Number of the proof step being processed.
    pub step: u64,
    /// Next clause identifier to allocate.
    pub next_clause_id: u64,
    /// Shared storage for the literals of long clauses.
    pub literal_buffer: Vec<Lit>,
    /// Buffer entries that belong to records deleted since the last
    /// collection.
    pub garbage_size: u128,
    /// All stored non-unit clauses, one bucket per fingerprint.
    pub clauses: Vec<HashBucket>,
    /// Forced value and source per variable, if any.
    pub unit_clauses: Vec<Option<UnitClause>>,
    /// Saved unit-table entries, to undo the transient assignments of a RUP
    /// check.
    pub trail: Vec<(Lit, Option<UnitClause>)>,
    /// Whether unsatisfiability has been derived.
    pub unsat: bool,
    /// Clauses involved in the current RUP check.
    pub trace: Vec<TraceItem>,
    /// Edges of the trace implication graph.
    pub trace_edges: Vec<usize>,
    /// The identifiers of the trace, in trace order.
    pub trace_ids: Vec<u64>,
    /// The checked steps, in emission order.
    pub emitted: Vec<CheckedProofStep>,
    /// The two global unit identifiers that conflict, once two contradicting
    /// unit clauses have been seen.
    pub unit_conflict: Option<(u64, u64)>,
}

impl Checker {
    /// How many copies of the clause `lits` the store holds.
    pub open spec fn counts(self, lits: Seq<Lit>) -> nat {
        count_in_buckets(self.clauses@, self.literal_buffer@, lits)
    }

    /// The unit-table entry of a variable; variables beyond the table are
    /// unforced.
    pub open spec fn unit_at(self, var: int) -> Option<UnitClause> {
        if 0 <= var < self.unit_clauses@.len() {
            self.unit_clauses@[var]
        } else {
            None
        }
    }

    /// What the unit table says about a literal: whether it is satisfied,
    /// and the entry that forces its variable.
    pub open spec fn spec_lit_value(self, l: Lit) -> Option<(bool, UnitClause)> {
        match self.unit_at(l.spec_var()) {
            None => None,
            Some(u) => Some(((u.value != l.spec_is_negative()), u)),
        }
    }

    /// Every stored clause's identifier lies below the next one.
    pub open spec fn store_ids_below(self) -> bool {
        forall|i: int, j: int|
            0 <= i < self.clauses@.len() && 0 <= j < self.clauses@[i].clauses@.len() ==> (
            #[trigger] self.clauses@[i].clauses@[j]).id < self.next_clause_id
    }

    /// Outside a RUP check every unit-table entry is global, with an
    /// identifier below the next one.
    pub open spec fn units_wf(self) -> bool {
        forall|v: int|
            0 <= v < self.unit_clauses@.len() ==> match #[trigger] self.unit_clauses@[v] {
                Some(u) => u.id matches UnitId::Global(g) && g < self.next_clause_id,
                None => true,
            }
    }

    /// The remembered unit conflict names identifiers below the next one.
    pub open spec fn conflict_ids_below(self) -> bool {
        match self.unit_conflict {
            Some((a, b)) => a < self.next_clause_id && b < self.next_clause_id,
            None => true,
        }
    }

    /// The checker's invariant between operations.
    pub open spec fn inv(self) -> bool {
        &&& buckets_wf(self.clauses@, self.literal_buffer@)
        &&& self.store_ids_below()
        &&& self.units_wf()
        &&& self.trail@.len() == 0
        &&& checked_ids_monotone(self.emitted@)
        &&& emitted_ids_below(self.emitted@, self.next_clause_id)
        &&& self.conflict_ids_below()
        &&& self.garbage_size * 2 <= self.literal_buffer@.len()
    }

    /// Whether `id` names a stored clause or a global unit clause.
    pub open spec fn id_present(self, id: u64) -> bool {
        ||| stored_with_id_any(self.clauses@, id)
        ||| global_unit_with_id(self.unit_clauses@, id)
    }

    /// Creates a checker holding the empty formula. The first clause
    /// identifier to be allocated is 1.
    pub fn new() -> (r: Checker)
        ensures
            r.inv(),
            r.step == 0,
            r.next_clause_id == 1,
            !r.unsat,
            r.unit_conflict is None,
            r.emitted@.len() == 0,
            r.clauses@.len() == 0,
            r.unit_clauses@.len() == 0,
            r.literal_buffer@.len() == 0,
            forall|lits: Seq<Lit>| r.counts(lits) == 0,
    {
        let r = Checker {
            step: 0,
            next_clause_id: 1,
            literal_buffer: Vec::new(),
            garbage_size: 0,
            clauses: Vec::new(),
            unit_clauses: Vec::new(),
            trail: Vec::new(),
            unsat: false,
            trace: Vec::new(),
            trace_edges: Vec::new(),
            trace_ids: Vec::new(),
            emitted: Vec::new(),
            unit_conflict: None,
        };
        r
    }

    /// Whether unsatisfiability has been derived.
    pub fn is_unsat(&self) -> (r: bool)
        ensures
            r == self.unsat,
    {
        self.unsat
    }

    /// The checked steps emitted so far, in order.
    pub fn emitted_steps(&self) -> (r: &Vec<CheckedProofStep>)
        ensures
            r@ == self.emitted@,
    {
        &self.emitted
    }

    /// Value of a literal if its variable is forced.
    fn lit_value(&self, lit: Lit) -> (r: Option<(bool, UnitClause)>)
        ensures
            r == self.spec_lit_value(lit),
    {
        let idx = lit.index();
        if idx < self.unit_clauses.len() {
            match self.unit_clauses[idx] {
                None => None,
                Some(u) => Some(((u.value != lit.is_negative()), u)),
            }
        } else {
            None
        }
    }

    /// Grows the unit table to cover variable `var`.
    fn grow_units(&mut self, var: usize)
        ensures
            final(self).unit_clauses@.len() > var,
            final(self).unit_clauses@.len() >= old(self).unit_clauses@.len(),
            forall|v: int|
                0 <= v < old(self).unit_clauses@.len() ==> final(self).unit_clauses@[v] == old(self).unit_clauses@[v],
            forall|v: int|
                old(self).unit_clauses@.len() <= v < final(self).unit_clauses@.len()
                    ==> (final(self).unit_clauses@[v] is None),
            forall|v: int| final(self).unit_at(v) == old(self).unit_at(v),
            final(self).step == old(self).step,
            final(self).next_clause_id == old(self).next_clause_id,
            final(self).literal_buffer == old(self).literal_buffer,
            final(self).garbage_size == old(self).garbage_size,
            final(self).clauses == old(self).clauses,
            final(self).trail == old(self).trail,
            final(self).unsat == old(self).unsat,
            final(self).trace == old(self).trace,
            final(self).trace_edges == old(self).trace_edges,
            final(self).trace_ids == old(self).trace_ids,
            final(self).emitted == old(self).emitted,
            final(self).unit_conflict == old(self).unit_conflict,
    {
        while self.unit_clauses.len() <= var
            invariant
                self.unit_clauses@.len() >= old(self).unit_clauses@.len(),
                forall|v: int|
                    0 <= v < old(self).unit_clauses@.len() ==> self.unit_clauses@[v] == old(self).unit_clauses@[v],
                forall|v: int|
                    old(self).unit_clauses@.len() <= v < self.unit_clauses@.len()
                        ==> self.unit_clauses@[v] is None,
                self.step == old(self).step,
                self.next_clause_id == old(self).next_clause_id,
                self.literal_buffer == old(self).literal_buffer,
                self.garbage_size == old(self).garbage_size,
                self.clauses == old(self).clauses,
                self.trail == old(self).trail,
                self.unsat == old(self).unsat,
                self.trace == old(self).trace,
                self.trace_edges == old(self).trace_edges,
                self.trace_ids == old(self).trace_ids,
                self.emitted == old(self).emitted,
                self.unit_conflict == old(self).unit_conflict,
            decreases var + 1 - self.unit_clauses@.len(),
        {
            self.unit_clauses.push(None);
        }
    }

    /// Adds a unit clause. Returns the identifier of the unit and whether it
    /// was new. A unit already forced the same way keeps its identifier; a
    /// unit contradicting a forced one makes the formula unsatisfiable and
    /// records the conflicting pair.
    fn store_unit_clause(&mut self, lit: Lit) -> (r: Result<(u64, bool), CheckerError>)
        requires
            old(self).inv(),
        ensures
            match r {
                Ok((id, added)) => {
                    &&& final(self).inv()
                    &&& final(self).step == old(self).step
                    &&& final(self).literal_buffer == old(self).literal_buffer
                    &&& final(self).garbage_size == old(self).garbage_size
                    &&& final(self).clauses == old(self).clauses
                    &&& final(self).trail == old(self).trail
                    &&& final(self).trace == old(self).trace
                    &&& final(self).trace_edges == old(self).trace_edges
                    &&& final(self).trace_ids == old(self).trace_ids
                    &&& final(self).emitted == old(self).emitted
                    &&& match old(self).spec_lit_value(lit) {
                        Some((sat, u)) => {
                            if sat {
                                &&& u.id matches UnitId::Global(g) && id == g
                                &&& !added
                                &&& *final(self) == *old(self)
                            } else {
                                &&& u.id matches UnitId::Global(g) && final(self).unit_conflict
                                    == Some((g, old(self).next_clause_id))
                                &&& id == old(self).next_clause_id
                                &&& added
                                &&& final(self).next_clause_id == old(self).next_clause_id + 1
                                &&& final(self).unsat
                                &&& final(self).unit_clauses == old(self).unit_clauses
                            }
                        },
                        None => {
                            &&& id == old(self).next_clause_id
                            &&& added
                            &&& final(self).next_clause_id == old(self).next_clause_id + 1
                            &&& final(self).unsat == old(self).unsat
                            &&& final(self).unit_conflict == old(self).unit_conflict
                            &&& final(self).unit_at(lit.spec_var()) == Some(
                                UnitClause {
                                    value: !lit.spec_is_negative(),
                                    id: UnitId::Global(old(self).next_clause_id),
                                },
                            )
                            &&& forall|v: int|
                                v != lit.spec_var() ==> final(self).unit_at(v) == old(self).unit_at(v)
                        },
                    }
                },
                Err(e) => {
                    &&& *final(self) == *old(self)
                    &&& e == (CheckerError::CounterOverflow { step: old(self).step })
                    &&& old(self).next_clause_id == u64::MAX
                },
            },
    {
        match self.lit_value(lit) {
            Some((sat, u)) => {
                match u.id {
                    UnitId::Global(g) => {
                        if sat {
                            Ok((g, false))
                        } else {
                            if self.next_clause_id == u64::MAX {
                                return Err(CheckerError::CounterOverflow { step: self.step });
                            }
                            let id = self.next_clause_id;
                            self.unsat = true;
                            self.unit_conflict = Some((g, id));
                            self.next_clause_id = id + 1;
                            Ok((id, true))
                        }
                    },
                    _ => {
                        proof {
                            assert(old(self).unit_at(lit.spec_var()) == Some(u));
                            assert(false);
                        }
                        Err(CheckerError::CounterOverflow { step: self.step })
                    },
                }
            },
            None => {
                if self.next_clause_id == u64::MAX {
                    return Err(CheckerError::CounterOverflow { step: self.step });
                }
                let idx = lit.index();
                self.grow_units(idx);
                let ghost mid = *self;
                let id = self.next_clause_id;
                self.unit_clauses[idx] = Some(
                    UnitClause { value: lit.is_positive(), id: UnitId::Global(id) },
                );
                self.next_clause_id = id + 1;
                proof {
                    assert forall|v: int|
                        0 <= v < self.unit_clauses@.len() implies match #[trigger] self.unit_clauses@[v] {
                        Some(u) => u.id matches UnitId::Global(g) && g < self.next_clause_id,
                        None => true,
                    } by {
                        if v != idx {
                            assert(self.unit_clauses@[v] == mid.unit_clauses@[v]);
                            if v < old(self).unit_clauses@.len() {
                                assert(mid.unit_clauses@[v] == old(self).unit_clauses@[v]);
                            } else {
                                assert(mid.unit_clauses@[v] is None);
                            }
                        }
                    }
                    assert(final(self).unit_at(lit.spec_var()) == Some(
                        UnitClause {
                            value: !lit.spec_is_negative(),
                            id: UnitId::Global(old(self).next_clause_id),
                        },
                    ));
                }
                Ok((id, true))
            },
        }
    }
    /// Adds a clause given in canonical form. Returns its identifier and
    /// whether it was new. The empty clause makes the formula unsatisfiable
    /// and burns an identifier; a unit clause goes to the unit table; a
    /// longer clause already present has its copy count raised and keeps its
    /// identifier.
    #[verifier::rlimit(100)]
    fn store_clause(&mut self, lits: &Vec<Lit>) -> (r: Result<(u64, bool), CheckerError>)
        requires
            old(self).inv(),
            strictly_sorted(lits@),
        ensures
            match r {
                Ok((id, added)) => {
                    &&& final(self).inv()
                    &&& final(self).step == old(self).step
                    &&& final(self).trail == old(self).trail
                    &&& final(self).trace == old(self).trace
                    &&& final(self).trace_edges == old(self).trace_edges
                    &&& final(self).trace_ids == old(self).trace_ids
                    &&& final(self).emitted == old(self).emitted
                    &&& final(self).garbage_size == old(self).garbage_size
                    &&& final(self).next_clause_id >= old(self).next_clause_id
                    &&& if lits@.len() == 0 {
                        &&& id == old(self).next_clause_id
                        &&& added
                        &&& final(self).next_clause_id == old(self).next_clause_id + 1
                        &&& final(self).unsat
                        &&& final(self).clauses == old(self).clauses
                        &&& final(self).literal_buffer == old(self).literal_buffer
                        &&& final(self).unit_clauses == old(self).unit_clauses
                        &&& final(self).unit_conflict == old(self).unit_conflict
                    } else if lits@.len() == 1 {
                        &&& final(self).clauses == old(self).clauses
                        &&& final(self).literal_buffer == old(self).literal_buffer
                        &&& match old(self).spec_lit_value(lits@[0]) {
                            Some((sat, u)) => {
                                if sat {
                                    &&& u.id matches UnitId::Global(g) && id == g
                                    &&& !added
                                    &&& *final(self) == *old(self)
                                } else {
                                    &&& u.id matches UnitId::Global(g) && final(self).unit_conflict
                                        == Some((g, old(self).next_clause_id))
                                    &&& id == old(self).next_clause_id
                                    &&& added
                                    &&& final(self).next_clause_id == old(self).next_clause_id + 1
                                    &&& final(self).unsat
                                    &&& final(self).unit_clauses == old(self).unit_clauses
                                }
                            },
                            None => {
                                &&& id == old(self).next_clause_id
                                &&& added
                                &&& final(self).next_clause_id == old(self).next_clause_id + 1
                                &&& final(self).unsat == old(self).unsat
                                &&& final(self).unit_conflict == old(self).unit_conflict
                                &&& final(self).unit_at(lits@[0].spec_var()) == Some(
                                    UnitClause {
                                        value: !lits@[0].spec_is_negative(),
                                        id: UnitId::Global(old(self).next_clause_id),
                                    },
                                )
                                &&& forall|v: int|
                                    v != lits@[0].spec_var() ==> final(self).unit_at(v) == old(self).unit_at(v)
                            },
                        }
                    } else {
                        &&& final(self).unit_clauses == old(self).unit_clauses
                        &&& final(self).unsat == old(self).unsat
                        &&& final(self).unit_conflict == old(self).unit_conflict
                        &&& final(self).counts(lits@) == old(self).counts(lits@) + 1
                        &&& forall|l2: Seq<Lit>|
                            l2 != lits@ ==> final(self).counts(l2) == old(self).counts(l2)
                        &&& added == (old(self).counts(lits@) == 0)
                        &&& if added {
                            &&& id == old(self).next_clause_id
                            &&& final(self).next_clause_id == old(self).next_clause_id + 1
                            &&& stored_with_id(
                                final(self).clauses@,
                                final(self).literal_buffer@,
                                lits@,
                                id,
                            )
                        } else {
                            &&& final(self).next_clause_id == old(self).next_clause_id
                            &&& final(self).literal_buffer == old(self).literal_buffer
                            &&& stored_with_id(
                                old(self).clauses@,
                                old(self).literal_buffer@,
                                lits@,
                                id,
                            )
                        }
                    }
                },
                Err(e) => {
                    &&& *final(self) == *old(self)
                    &&& e == (CheckerError::CounterOverflow { step: old(self).step })
                    &&& (old(self).next_clause_id == u64::MAX || stored_at_max(
                        old(self).clauses@,
                        old(self).literal_buffer@,
                        lits@,
                    ))
                },
            },
    {
        let ghost l = lits@;
        if lits.len() == 0 {
            if self.next_clause_id == u64::MAX {
                return Err(CheckerError::CounterOverflow { step: self.step });
            }
            let id = self.next_clause_id;
            self.next_clause_id = id + 1;
            self.unsat = true;
            return Ok((id, true));
        }
        if lits.len() == 1 {
            return self.store_unit_clause(lits[0]);
        }
        let hash = clause_hash(lits);
        let ghost s0 = *self;
        let nb = self.clauses.len();
        let mut bi: usize = 0;
        while bi < nb && self.clauses[bi].hash != hash
            invariant
                *self == s0,
                *self == *old(self),
                nb == self.clauses@.len(),
                bi <= nb,
                forall|k: int| 0 <= k < bi ==> (#[trigger] self.clauses@[k].hash) != hash,
            decreases nb - bi,
        {
            bi += 1;
        }
        if bi == nb {
            // No bucket for this fingerprint: the clause is new.
            if self.next_clause_id == u64::MAX {
                return Err(CheckerError::CounterOverflow { step: self.step });
            }
            proof {
                lemma_no_bucket_no_rec(self.clauses@, self.literal_buffer@, l);
            }
            let id = self.next_clause_id;
            let ghost buf0 = self.literal_buffer@;
            let cl = ClauseLits::new(lits, &mut self.literal_buffer);
            let c = Clause { id, ref_count: 1, lits: cl };
            let mut cs: Vec<Clause> = Vec::new();
            cs.push(c);
            let b = HashBucket { hash, clauses: cs };
            self.clauses.push(b);
            self.next_clause_id = id + 1;
            proof {
                let buf1 = self.literal_buffer@;
                let bs0 = old(self).clauses@;
                lemma_buckets_wf_extend(bs0, buf0, buf1);
                assert(b.clauses@ =~= seq![c]);
                assert(bucket_wf(b, buf1)) by {
                    assert(b.clauses@[0] == c);
                    assert(lits_of(c.lits, buf1) == l);
                    assert(clause_wf(c, buf1));
                }
                assert(self.clauses@ == bs0.push(b));
                assert forall|i: int| 0 <= i < self.clauses@.len() implies bucket_wf(
                    #[trigger] self.clauses@[i],
                    buf1,
                ) by {
                    if i < bs0.len() {
                        assert(self.clauses@[i] == bs0[i]);
                    } else {
                        assert(self.clauses@[i] == b);
                    }
                }
                assert forall|i: int, k: int|
                    0 <= i < k < self.clauses@.len() implies self.clauses@[i].hash
                    != self.clauses@[k].hash by {
                    if k < bs0.len() {
                        assert(self.clauses@[i] == bs0[i] && self.clauses@[k] == bs0[k]);
                    } else {
                        assert(self.clauses@[k] == b && self.clauses@[i] == bs0[i]);
                    }
                }
                assert(count_in_clauses(seq![c], buf1, l) == 1) by {
                    assert(seq![c].last() == c);
                    assert(seq![c].drop_last() =~= Seq::<Clause>::empty());
                    assert(count_in_clauses(Seq::<Clause>::empty(), buf1, l) == 0);
                    assert(clause_contrib(c, buf1, l) == 1);
                }
                assert forall|l2: Seq<Lit>|
                    l2 != l implies #[trigger] count_in_buckets(self.clauses@, buf1, l2)
                    == count_in_buckets(bs0, buf0, l2) by {
                    lemma_count_buckets_push(bs0, buf1, b, l2);
                    lemma_count_buckets_extend(bs0, buf0, buf1, l2);
                    assert(count_in_clauses(seq![c], buf1, l2) == 0) by {
                        assert(seq![c].last() == c);
                        assert(seq![c].drop_last() =~= Seq::<Clause>::empty());
                        assert(count_in_clauses(Seq::<Clause>::empty(), buf1, l2) == 0);
                        assert(clause_contrib(c, buf1, l2) == 0);
                    }
                }
                assert(count_in_buckets(self.clauses@, buf1, l) == count_in_buckets(bs0, buf0, l)
                    + 1) by {
                    lemma_count_buckets_push(bs0, buf1, b, l);
                    lemma_count_buckets_extend(bs0, buf0, buf1, l);
                }
                assert(stored_with_id(self.clauses@, buf1, l, id)) by {
                    let i = bs0.len() as int;
                    assert(0 <= i < self.clauses@.len() && 0 <= 0 < self.clauses@[i].clauses@.len()
                        && lits_of(self.clauses@[i].clauses@[0].lits, buf1) == l
                        && self.clauses@[i].clauses@[0].id == id);
                }
                assert forall|i: int, j: int|
                    0 <= i < self.clauses@.len() && 0 <= j < self.clauses@[i].clauses@.len()
                    implies (#[trigger] self.clauses@[i].clauses@[j]).id < self.next_clause_id by {
                    if i < bs0.len() {
                        assert(self.clauses@[i] == bs0[i]);
                    } else {
                        assert(self.clauses@[i].clauses@[j] == c);
                    }
                }
            }
            Ok((id, true))
        } else {
            let ghost bs0 = self.clauses@;
            let ghost buf0 = self.literal_buffer@;
            let blen = self.clauses[bi].clauses.len();
            let mut j: usize = 0;
            while j < blen
                invariant
                    *self == s0,
                    *self == *old(self),
                    bs0 == self.clauses@,
                    buf0 == self.literal_buffer@,
                    0 <= bi < self.clauses@.len(),
                    self.clauses@[bi as int].hash == hash,
                    blen == self.clauses@[bi as int].clauses@.len(),
                    j <= blen,
                    old(self).inv(),
                    forall|k: int|
                        0 <= k < j ==> lits_of(
                            (#[trigger] self.clauses@[bi as int].clauses@[k]).lits,
                            self.literal_buffer@,
                        ) != l,
                    l == lits@,
                decreases blen - j,
            {
                let cj = self.clauses[bi].clauses[j];
                proof {
                    assert(bucket_wf(self.clauses@[bi as int], self.literal_buffer@));
                    assert(clause_wf(cj, self.literal_buffer@));
                }
                if clause_lits_equal(&cj.lits, &self.literal_buffer, lits) {
                    // The clause is already stored: one more copy.
                    if cj.ref_count == u32::MAX {
                        proof {
                            assert(stored_at_max(bs0, buf0, l)) by {
                                assert(0 <= bi < bs0.len() && 0 <= j < bs0[bi as int].clauses@.len()
                                    && lits_of(bs0[bi as int].clauses@[j as int].lits, buf0) == l
                                    && bs0[bi as int].clauses@[j as int].ref_count == u32::MAX);
                            }
                        }
                        return Err(CheckerError::CounterOverflow { step: self.step });
                    }
                    let c2 = Clause { id: cj.id, ref_count: cj.ref_count + 1, lits: cj.lits };
                    let mut bucket = self.clauses.remove(bi);
                    let _old_rec = bucket.clauses.remove(j);
                    bucket.clauses.insert(j, c2);
                    self.clauses.insert(bi, bucket);
                    proof {
                        let buf = self.literal_buffer@;
                        let b2 = self.clauses@[bi as int];
                        assert(b2.clauses@ =~= bs0[bi as int].clauses@.update(j as int, c2));
                        assert(self.clauses@ =~= bs0.update(bi as int, b2));
                        assert(bucket_wf(b2, buf)) by {
                            assert(bucket_wf(bs0[bi as int], buf));
                            assert forall|k: int| 0 <= k < b2.clauses@.len() implies clause_wf(
                                #[trigger] b2.clauses@[k],
                                buf,
                            ) by {
                                if k != j {
                                    assert(b2.clauses@[k] == bs0[bi as int].clauses@[k]);
                                    assert(clause_wf(bs0[bi as int].clauses@[k], buf));
                                }
                            }
                            assert forall|k: int|
                                0 <= k < b2.clauses@.len() implies hash_lits(
                                lits_of(#[trigger] b2.clauses@[k].lits, buf),
                            ) == b2.hash by {
                                if k != j {
                                    assert(b2.clauses@[k] == bs0[bi as int].clauses@[k]);
                                } else {
                                    assert(b2.clauses@[k].lits == bs0[bi as int].clauses@[k].lits);
                                }
                            }
                            assert forall|k: int, m: int|
                                0 <= k < m < b2.clauses@.len() implies lits_of(
                                b2.clauses@[k].lits,
                                buf,
                            ) != lits_of(b2.clauses@[m].lits, buf) by {
                                assert(b2.clauses@[k].lits == bs0[bi as int].clauses@[k].lits);
                                assert(b2.clauses@[m].lits == bs0[bi as int].clauses@[m].lits);
                            }
                        }
                        assert forall|i: int| 0 <= i < self.clauses@.len() implies bucket_wf(
                            #[trigger] self.clauses@[i],
                            buf,
                        ) by {
                            if i != bi {
                                assert(self.clauses@[i] == bs0[i]);
                            }
                        }
                        assert forall|i: int, k: int|
                            0 <= i < k < self.clauses@.len() implies self.clauses@[i].hash
                            != self.clauses@[k].hash by {
                            assert(self.clauses@[i].hash == bs0[i].hash);
                            assert(self.clauses@[k].hash == bs0[k].hash);
                        }
                        assert(clause_contrib(c2, buf, l) == clause_contrib(
                            bs0[bi as int].clauses@[j as int],
                            buf,
                            l,
                        ) + 1) by {
                            assert(lits_of(c2.lits, buf) == l);
                        }
                        assert forall|l2: Seq<Lit>|
                            l2 != l implies #[trigger] count_in_buckets(self.clauses@, buf, l2)
                            == count_in_buckets(bs0, buf, l2) by {
                            lemma_count_buckets_update(bs0, buf, bi as int, b2, l2);
                            lemma_count_clauses_update(
                                bs0[bi as int].clauses@,
                                buf,
                                j as int,
                                c2,
                                l2,
                            );
                            assert(clause_contrib(c2, buf, l2) == clause_contrib(
                                bs0[bi as int].clauses@[j as int],
                                buf,
                                l2,
                            ));
                        }
                        assert(count_in_buckets(self.clauses@, buf, l) == count_in_buckets(
                            bs0,
                            buf,
                            l,
                        ) + 1) by {
                            lemma_count_buckets_update(bs0, buf, bi as int, b2, l);
                            lemma_count_clauses_update(
                                bs0[bi as int].clauses@,
                                buf,
                                j as int,
                                c2,
                                l,
                            );
                        }
                        assert(count_in_buckets(bs0, buf, l) > 0) by {
                            lemma_count_buckets_at_least(bs0, buf, bi as int, j as int);
                        }
                        assert(stored_with_id(bs0, buf, l, cj.id)) by {
                            assert(0 <= bi < bs0.len() && 0 <= j < bs0[bi as int].clauses@.len()
                                && lits_of(bs0[bi as int].clauses@[j as int].lits, buf) == l
                                && bs0[bi as int].clauses@[j as int].id == cj.id);
                        }
                        assert forall|i: int, k: int|
                            0 <= i < self.clauses@.len() && 0 <= k
                                < self.clauses@[i].clauses@.len() implies (
                        #[trigger] self.clauses@[i].clauses@[k]).id < self.next_clause_id by {
                            if i == bi && k == j {
                                assert(self.clauses@[i].clauses@[k] == c2);
                                assert(bs0[bi as int].clauses@[j as int].id < self.next_clause_id);
                            } else if i == bi {
                                assert(self.clauses@[i].clauses@[k]
                                    == bs0[bi as int].clauses@[k]);
                            } else {
                                assert(self.clauses@[i].clauses@[k] == bs0[i].clauses@[k]);
                            }
                        }
                    }
                    return Ok((cj.id, false));
                }
                j += 1;
            }
            // Same fingerprint, but no record with these literals: new clause.
            if self.next_clause_id == u64::MAX {
                return Err(CheckerError::CounterOverflow { step: self.step });
            }
            proof {
                assert forall|i: int, k: int|
                    0 <= i < bs0.len() && 0 <= k < bs0[i].clauses@.len() implies lits_of(
                    bs0[i].clauses@[k].lits,
                    buf0,
                ) != l by {
                    assert(bucket_wf(bs0[i], buf0));
                    if i == bi {
                        assert(lits_of(bs0[i].clauses@[k].lits, buf0) != l);
                    } else {
                        assert(hash_lits(lits_of(bs0[i].clauses@[k].lits, buf0)) == bs0[i].hash);
                        if bs0[i].hash != hash {
                        } else {
                            if i < bi {
                                assert(bs0[i].hash != hash);
                            } else {
                                assert(bs0[bi as int].hash == hash);
                                assert(bs0[bi as int].hash != bs0[i].hash);
                            }
                        }
                    }
                }
                assert(!has_rec(bs0, buf0, l));
                lemma_count_buckets_pos(bs0, buf0, l);
            }
            let id = self.next_clause_id;
            let cl = ClauseLits::new(lits, &mut self.literal_buffer);
            let c = Clause { id, ref_count: 1, lits: cl };
            let mut bucket = self.clauses.remove(bi);
            bucket.clauses.push(c);
            self.clauses.insert(bi, bucket);
            self.next_clause_id = id + 1;
            proof {
                let buf1 = self.literal_buffer@;
                lemma_buckets_wf_extend(bs0, buf0, buf1);
                let b2 = self.clauses@[bi as int];
                assert(b2.clauses@ == bs0[bi as int].clauses@.push(c));
                assert(self.clauses@ =~= bs0.update(bi as int, b2));
                assert(lits_of(c.lits, buf1) == l);
                assert(bucket_wf(b2, buf1)) by {
                    assert(bucket_wf(bs0[bi as int], buf1));
                    assert forall|k: int| 0 <= k < b2.clauses@.len() implies clause_wf(
                        #[trigger] b2.clauses@[k],
                        buf1,
                    ) by {
                        if k < b2.clauses@.len() - 1 {
                            assert(b2.clauses@[k] == bs0[bi as int].clauses@[k]);
                        } else {
                            assert(b2.clauses@[k] == c);
                            assert(clause_wf(c, buf1));
                        }
                    }
                    assert forall|k: int|
                        0 <= k < b2.clauses@.len() implies hash_lits(
                        lits_of(#[trigger] b2.clauses@[k].lits, buf1),
                    ) == b2.hash by {
                        if k < b2.clauses@.len() - 1 {
                            assert(b2.clauses@[k] == bs0[bi as int].clauses@[k]);
                        } else {
                            assert(b2.clauses@[k] == c);
                        }
                    }
                    assert forall|k: int, m: int|
                        0 <= k < m < b2.clauses@.len() implies lits_of(b2.clauses@[k].lits, buf1)
                        != lits_of(b2.clauses@[m].lits, buf1) by {
                        if m < b2.clauses@.len() - 1 {
                            assert(b2.clauses@[k] == bs0[bi as int].clauses@[k]);
                            assert(b2.clauses@[m] == bs0[bi as int].clauses@[m]);
                        } else {
                            assert(b2.clauses@[m] == c);
                            assert(b2.clauses@[k] == bs0[bi as int].clauses@[k]);
                            assert(lits_of(bs0[bi as int].clauses@[k].lits, buf0) != l);
                            assert(lits_of(bs0[bi as int].clauses@[k].lits, buf1) == lits_of(
                                bs0[bi as int].clauses@[k].lits,
                                buf0,
                            ));
                        }
                    }
                }
                assert forall|i: int| 0 <= i < self.clauses@.len() implies bucket_wf(
                    #[trigger] self.clauses@[i],
                    buf1,
                ) by {
                    if i != bi {
                        assert(self.clauses@[i] == bs0[i]);
                    }
                }
                assert forall|i: int, k: int|
                    0 <= i < k < self.clauses@.len() implies self.clauses@[i].hash
                    != self.clauses@[k].hash by {
                    assert(self.clauses@[i].hash == bs0[i].hash);
                    assert(self.clauses@[k].hash == bs0[k].hash);
                }
                assert forall|l2: Seq<Lit>|
                    l2 != l implies #[trigger] count_in_buckets(self.clauses@, buf1, l2)
                    == count_in_buckets(bs0, buf0, l2) by {
                    lemma_count_buckets_update(bs0, buf1, bi as int, b2, l2);
                    lemma_count_clauses_push(bs0[bi as int].clauses@, buf1, c, l2);
                    assert(clause_contrib(c, buf1, l2) == 0);
                    lemma_count_buckets_extend(bs0, buf0, buf1, l2);
                }
                assert(count_in_buckets(self.clauses@, buf1, l) == count_in_buckets(bs0, buf0, l)
                    + 1) by {
                    lemma_count_buckets_update(bs0, buf1, bi as int, b2, l);
                    lemma_count_clauses_push(bs0[bi as int].clauses@, buf1, c, l);
                    assert(clause_contrib(c, buf1, l) == 1);
                    lemma_count_buckets_extend(bs0, buf0, buf1, l);
                }
                assert(stored_with_id(self.clauses@, buf1, l, id)) by {
                    let k = b2.clauses@.len() - 1;
                    assert(0 <= bi < self.clauses@.len() && 0 <= k
                        < self.clauses@[bi as int].clauses@.len() && lits_of(
                        self.clauses@[bi as int].clauses@[k].lits,
                        buf1,
                    ) == l && self.clauses@[bi as int].clauses@[k].id == id);
                }
                assert forall|i: int, k: int|
                    0 <= i < self.clauses@.len() && 0 <= k < self.clauses@[i].clauses@.len()
                    implies (#[trigger] self.clauses@[i].clauses@[k]).id < self.next_clause_id by {
                    if i == bi && k == b2.clauses@.len() - 1 {
                        assert(self.clauses@[i].clauses@[k] == c);
                    } else if i == bi {
                        assert(self.clauses@[i].clauses@[k] == bs0[bi as int].clauses@[k]);
                    } else {
                        assert(self.clauses@[i].clauses@[k] == bs0[i].clauses@[k]);
                    }
                }
            }
            Ok((id, true))
        }
    }
    /// Writes every saved trail entry back into the unit table, last first,
    /// leaving the table exactly as it was when the trail began, padded
    /// with unforced variables.
    fn unwind_trail(&mut self, um0: Ghost<Seq<Option<UnitClause>>>)
        requires
            restores_to(old(self).unit_clauses@, old(self).trail@, um0@),
            trail_vars_ok(old(self).trail@, old(self).unit_clauses@.len() as int),
        ensures
            final(self).trail@.len() == 0,
            final(self).unit_clauses@.len() == old(self).unit_clauses@.len(),
            um0@.len() <= final(self).unit_clauses@.len(),
            final(self).unit_clauses@.subrange(0, um0@.len() as int) == um0@,
            forall|v: int|
                um0@.len() <= v < final(self).unit_clauses@.len()
                    ==> ((#[trigger] final(self).unit_clauses@[v]) is None),
            final(self).step == old(self).step,
            final(self).next_clause_id == old(self).next_clause_id,
            final(self).literal_buffer == old(self).literal_buffer,
            final(self).garbage_size == old(self).garbage_size,
            final(self).clauses == old(self).clauses,
            final(self).unsat == old(self).unsat,
            final(self).trace == old(self).trace,
            final(self).trace_edges == old(self).trace_edges,
            final(self).trace_ids == old(self).trace_ids,
            final(self).emitted == old(self).emitted,
            final(self).unit_conflict == old(self).unit_conflict,
    {
        while self.trail.len() > 0
            invariant
                restores_to(self.unit_clauses@, self.trail@, um0@),
                trail_vars_ok(self.trail@, self.unit_clauses@.len() as int),
                self.unit_clauses@.len() == old(self).unit_clauses@.len(),
                self.step == old(self).step,
                self.next_clause_id == old(self).next_clause_id,
                self.literal_buffer == old(self).literal_buffer,
                self.garbage_size == old(self).garbage_size,
                self.clauses == old(self).clauses,
                self.unsat == old(self).unsat,
                self.trace == old(self).trace,
                self.trace_edges == old(self).trace_edges,
                self.trace_ids == old(self).trace_ids,
                self.emitted == old(self).emitted,
                self.unit_conflict == old(self).unit_conflict,
            decreases self.trail@.len(),
        {
            let ghost tr_pre = self.trail@;
            let ghost um_pre = self.unit_clauses@;
            match self.trail.pop() {
                Some((lit, prev)) => {
                    proof {
                        assert(tr_pre[tr_pre.len() - 1] == tr_pre.last());
                        assert(0 <= lit.spec_var() < um_pre.len());
                    }
                    let idx = lit.index();
                    self.unit_clauses[idx] = prev;
                    proof {
                        assert(self.trail@ =~= tr_pre.drop_last());
                        assert(self.unit_clauses@ == um_pre.update(lit.spec_var(), prev));
                        assert(restore(self.unit_clauses@, self.trail@) == restore(um_pre, tr_pre));
                        assert(forall|t: int|
                            0 <= t < self.trail@.len() ==> (#[trigger] self.trail@[t])
                                == tr_pre[t]);
                    }
                },
                None => {
                    proof {
                        assert(false);
                    }
                },
            }
        }
    }

    /// Verifies by reverse unit propagation that the canonical clause
    /// `lits` is entailed: its literals are assumed false, then the clauses
    /// behind each fingerprint propagate in order until one conflicts. On
    /// success `trace_ids` holds the identifiers of the involved clauses,
    /// each a stored clause or a global unit. Whatever the outcome, the
    /// unit table is left exactly as it was on entry.
    #[verifier::rlimit(100)]
    fn check_clause_with_hashes(&mut self, lits: &Vec<Lit>, propagation_hashes: &Vec<u64>) -> (r:
        Result<(), CheckerError>)
        requires
            old(self).inv(),
            strictly_sorted(lits@),
        ensures
            final(self).inv(),
            final(self).clauses == old(self).clauses,
            final(self).literal_buffer == old(self).literal_buffer,
            final(self).garbage_size == old(self).garbage_size,
            final(self).next_clause_id == old(self).next_clause_id,
            final(self).step == old(self).step,
            final(self).unsat == old(self).unsat,
            final(self).unit_conflict == old(self).unit_conflict,
            final(self).emitted == old(self).emitted,
            final(self).trail@.len() == 0,
            forall|v: int| final(self).unit_at(v) == old(self).unit_at(v),
            match r {
                Ok(_) => forall|k: int|
                    0 <= k < final(self).trace_ids@.len() ==> old(self).id_present(
                        #[trigger] final(self).trace_ids@[k],
                    ),
                Err(e) => match e {
                    CheckerError::ClauseNotFound { step, hash } => {
                        &&& step == old(self).step
                        &&& propagation_hashes@.contains(hash)
                        &&& !bucket_with_hash(old(self).clauses@, hash)
                    },
                    CheckerError::ClauseCheckFailed { step, clause } => {
                        &&& step == old(self).step
                        &&& clause@ == lits@
                    },
                    _ => false,
                },
            },
            r is Ok ==> {
                let tr = final(self).trace@;
                let te = final(self).trace_edges@;
                &&& tr.len() > 0
                &&& !tr[tr.len() - 1].unused
                &&& (forall|k: int, e: int|
                    0 <= k < tr.len() && !(#[trigger] tr[k]).unused && tr[k].edge_start <= e
                        < tr[k].edge_end ==> !tr[(#[trigger] te[e]) as int].unused)
                &&& (forall|m: int|
                    0 <= m < tr.len() && !(#[trigger] tr[m]).unused ==> m == tr.len() - 1
                        || exists|k: int|
                        0 <= k < tr.len() && !tr[k].unused && edge_hits(tr, te, k, m))
            },
            match rup_outcome(*old(self), lits@, propagation_hashes@) {
                Err(h) => r matches Err(e) && e == (CheckerError::ClauseNotFound {
                    step: old(self).step,
                    hash: h,
                }),
                Ok(stf) => if stf.conflict {
                    r is Ok && final(self).trace_ids@ == stf.ids
                } else {
                    r matches Err(e) && (e matches CheckerError::ClauseCheckFailed {
                        step,
                        clause,
                    } && step == old(self).step && clause@ == lits@)
                },
            },
    {
        self.trace.clear();
        self.trace_edges.clear();
        let mut rup_is_unsat = false;
        let ghost s0 = *old(self);
        let ghost um0 = self.unit_clauses@;
        proof {
            assert(self.unit_clauses@.subrange(0, um0.len() as int) =~= um0);
            assert forall|v: int|
                0 <= v < self.unit_clauses@.len() implies match #[trigger] self.unit_clauses@[v] {
                Some(u) => match u.id {
                    UnitId::Global(g) => global_unit_with_id(um0, g),
                    UnitId::TracePos(p) => p < self.trace@.len(),
                    UnitId::InClause => true,
                },
                None => true,
            } by {
                match um0[v] {
                    Some(u) => {
                        assert(s0.units_wf());
                        match u.id {
                            UnitId::Global(g) => {
                                assert(0 <= v < um0.len() && (um0[v] matches Some(u2)
                                    && u2.id == UnitId::Global(g)));
                            },
                            _ => {
                                assert(false);
                            },
                        }
                    },
                    None => {},
                }
            }
        }

        // Assume the negation of every literal of the candidate clause.
        let mut li: usize = 0;
        while li < lits.len()
            invariant
                li <= lits@.len(),
                check_frames(s0, *self),
                *old(self) == s0,
                s0.inv(),
                um0 == s0.unit_clauses@,
                check_units_ok(*self, um0),
                self.trace@.len() == 0,
                self.trace_edges@.len() == 0,
                self.trace_ids == s0.trace_ids,
                assume_negation(lits@, li as int, units_map(self.unit_clauses@)) == start_prop(
                    s0,
                    lits@,
                ).units,
            decreases lits@.len() - li,
        {
            let lit = lits[li];
            let idx = lit.index();
            let ghost units_pre = self.unit_clauses@;
            self.grow_units(idx);
            proof {
                assert(self.unit_clauses@.subrange(0, units_pre.len() as int) =~= units_pre);
                lemma_restores_to_pad(units_pre, self.unit_clauses@, self.trail@, um0);
                lemma_units_map_pad(units_pre, self.unit_clauses@);
            }
            let ghost um_g = self.unit_clauses@;
            let ghost tr_pre = self.trail@;
            let prev = self.unit_clauses[idx];
            self.trail.push((lit, prev));
            self.unit_clauses[idx] = Some(
                UnitClause { value: lit.is_negative(), id: UnitId::InClause },
            );
            proof {
                assert(self.trail@.drop_last() =~= tr_pre);
                lemma_restore_push(
                    um_g,
                    tr_pre,
                    lit,
                    Some(UnitClause { value: lit.spec_is_negative(), id: UnitId::InClause }),
                );
                assert(tr_pre.push((lit, um_g[lit.spec_var()])) =~= self.trail@);
                assert(forall|t: int|
                    0 <= t < self.trail@.len() - 1 ==> (#[trigger] self.trail@[t])
                        == self.trail@.drop_last()[t]);
                assert forall|w: int|
                    0 <= w < self.unit_clauses@.len() implies match #[trigger] self.unit_clauses@[w] {
                    Some(u) => match u.id {
                        UnitId::Global(g) => global_unit_with_id(um0, g),
                        UnitId::TracePos(p) => p < self.trace@.len(),
                        UnitId::InClause => true,
                    },
                    None => true,
                } by {
                    if w != lit.spec_var() {
                        assert(self.unit_clauses@[w] == um_g[w]);
                        if w < units_pre.len() {
                            assert(um_g[w] == units_pre[w]);
                        } else {
                            assert(um_g[w] is None);
                        }
                    }
                }
                lemma_units_map_update(
                    um_g,
                    lit.spec_var(),
                    UnitClause { value: lit.spec_is_negative(), id: UnitId::InClause },
                );
                assert(lits@[li as int] == lit);
                assert(assume_negation(lits@, li + 1, units_map(self.unit_clauses@))
                    == assume_negation(lits@, li as int, units_map(um_g)));
            }
            li += 1;
        }

        // Propagate along the fingerprints until a clause conflicts.
        proof {
            assert(trace_ids_of(self.trace@) =~= Seq::<u64>::empty());
            assert(assume_negation(lits@, lits@.len() as int, units_map(self.unit_clauses@))
                == units_map(self.unit_clauses@));
            assert(cur_prop(*self, false) == start_prop(s0, lits@));
        }
        let mut hi: usize = 0;
        while hi < propagation_hashes.len() && !rup_is_unsat
            invariant
                hi <= propagation_hashes@.len(),
                check_frames(s0, *self),
                *old(self) == s0,
                s0.inv(),
                um0 == s0.unit_clauses@,
                check_units_ok(*self, um0),
                trace_ok(*self, s0, um0),
                rup_is_unsat ==> self.trace@.len() > 0,
                forall|m: int|
                    0 <= m < self.trace@.len() ==> ((#[trigger] self.trace@[m]).unused == !(
                    rup_is_unsat && m == self.trace@.len() - 1)),
                propagate(
                    s0.clauses@,
                    s0.literal_buffer@,
                    propagation_hashes@,
                    hi as int,
                    cur_prop(*self, rup_is_unsat),
                ) == rup_outcome(s0, lits@, propagation_hashes@),
            decreases propagation_hashes@.len() - hi,
        {
            let hash = propagation_hashes[hi];
            let nbk = self.clauses.len();
            let mut bi: usize = 0;
            while bi < nbk && self.clauses[bi].hash != hash
                invariant
                    bi <= nbk,
                    nbk == self.clauses@.len(),
                    check_frames(s0, *self),
                    *old(self) == s0,
                    s0.inv(),
                    um0 == s0.unit_clauses@,
                    check_units_ok(*self, um0),
                    trace_ok(*self, s0, um0),
                    forall|k: int| 0 <= k < bi ==> (#[trigger] self.clauses@[k].hash) != hash,
                    !rup_is_unsat,
                    hash == propagation_hashes@[hi as int],
                    hi < propagation_hashes@.len(),
                    propagate(
                        s0.clauses@,
                        s0.literal_buffer@,
                        propagation_hashes@,
                        hi as int,
                        cur_prop(*self, rup_is_unsat),
                    ) == rup_outcome(s0, lits@, propagation_hashes@),
                decreases nbk - bi,
            {
                bi += 1;
            }
            if bi == nbk {
                proof {
                    lemma_bucket_index_none(s0.clauses@, hash, 0, s0.clauses@.len() as int);
                    assert(rup_outcome(s0, lits@, propagation_hashes@) == Err::<Prop, u64>(hash));
                }
                self.unwind_trail(Ghost(um0));
                proof {
                    assert(!bucket_with_hash(s0.clauses@, hash));
                    assert(propagation_hashes@.contains(hash)) by {
                        assert(propagation_hashes@[hi as int] == hash);
                    }
                    assert forall|v: int| self.unit_at(v) == s0.unit_at(v) by {
                        if 0 <= v < um0.len() {
                            assert(self.unit_clauses@[v] == self.unit_clauses@.subrange(
                                0,
                                um0.len() as int,
                            )[v]);
                        }
                    }
                    assert(self.units_wf()) by {
                        assert forall|v: int|
                            0 <= v < self.unit_clauses@.len() implies match
                            #[trigger] self.unit_clauses@[v] {
                            Some(u) => u.id matches UnitId::Global(g) && g < self.next_clause_id,
                            None => true,
                        } by {
                            assert(self.unit_at(v) == s0.unit_at(v));
                            assert(self.unit_clauses@[v] == self.unit_at(v));
                        }
                    }
                }
                return Err(CheckerError::ClauseNotFound { step: self.step, hash });
            }
            let blen = self.clauses[bi].clauses.len();
            proof {
                lemma_bucket_index_found(s0.clauses@, hash, 0, bi as int);
                assert(propagate(
                    s0.clauses@,
                    s0.literal_buffer@,
                    propagation_hashes@,
                    hi as int,
                    cur_prop(*self, false),
                ) == propagate(
                    s0.clauses@,
                    s0.literal_buffer@,
                    propagation_hashes@,
                    hi + 1,
                    apply_bucket(
                        s0.clauses@[bi as int].clauses@,
                        s0.literal_buffer@,
                        0,
                        cur_prop(*self, false),
                    ),
                ));
            }
            let mut ci: usize = 0;
            while ci < blen && !rup_is_unsat
                invariant
                    ci <= blen,
                    0 <= bi < self.clauses@.len(),
                    blen == self.clauses@[bi as int].clauses@.len(),
                    check_frames(s0, *self),
                    *old(self) == s0,
                    s0.inv(),
                    um0 == s0.unit_clauses@,
                    check_units_ok(*self, um0),
                    trace_ok(*self, s0, um0),
                    rup_is_unsat ==> self.trace@.len() > 0,
                forall|m: int|
                    0 <= m < self.trace@.len() ==> ((#[trigger] self.trace@[m]).unused == !(
                    rup_is_unsat && m == self.trace@.len() - 1)),
                    hi < propagation_hashes@.len(),
                    propagate(
                        s0.clauses@,
                        s0.literal_buffer@,
                        propagation_hashes@,
                        hi + 1,
                        apply_bucket(
                            s0.clauses@[bi as int].clauses@,
                            s0.literal_buffer@,
                            ci as int,
                            cur_prop(*self, rup_is_unsat),
                        ),
                    ) == rup_outcome(s0, lits@, propagation_hashes@),
                decreases blen - ci,
            {
                let clause = self.clauses[bi].clauses[ci];
                proof {
                    assert(buckets_wf(self.clauses@, self.literal_buffer@));
                    assert(bucket_wf(self.clauses@[bi as int], self.literal_buffer@));
                    assert(clause_wf(clause, self.literal_buffer@));
                    assert(stored_with_id_any(s0.clauses@, clause.id)) by {
                        assert(0 <= bi < s0.clauses@.len() && 0 <= ci
                            < s0.clauses@[bi as int].clauses@.len() && (
                        s0.clauses@[bi as int].clauses@[ci as int]).id == clause.id);
                    }
                }
                let ghost cand_st = cur_prop(*self, false);
                let ghost clits = lits_of(clause.lits, self.literal_buffer@);
                proof {
                    assert(clits.len() == clause.lits.length);
                    assert(clits == lits_of(clause.lits, s0.literal_buffer@));
                    assert(!cand_st.conflict);
                }
                let mut satisfied = false;
                let mut unassigned_count: usize = 0;
                let mut unassigned_lit: Option<Lit> = None;
                let range_begin = self.trace_edges.len();
                let mut k: usize = 0;
                while k < clause.lits.length && !satisfied
                    invariant
                        k <= clause.lits.length,
                        unassigned_count <= k,
                        (unassigned_count == 0) == (unassigned_lit is None),
                        check_frames(s0, *self),
                        *old(self) == s0,
                        s0.inv(),
                        um0 == s0.unit_clauses@,
                        check_units_ok(*self, um0),
                        trace_ok(*self, s0, um0),
                        clause_wf(clause, self.literal_buffer@),
                        stored_with_id_any(s0.clauses@, clause.id),
                        range_begin <= self.trace_edges@.len(),
                        !rup_is_unsat,
                        forall|m: int|
                            0 <= m < self.trace@.len() ==> (#[trigger] self.trace@[m]).unused,
                        !cand_st.conflict,
                        0 <= bi < s0.clauses@.len(),
                        ci < blen,
                        blen == s0.clauses@[bi as int].clauses@.len(),
                        s0.clauses@[bi as int].clauses@[ci as int] == clause,
                        hi < propagation_hashes@.len(),
                        clits == lits_of(clause.lits, s0.literal_buffer@),
                        clits.len() == clause.lits.length,
                        propagate(
                            s0.clauses@,
                            s0.literal_buffer@,
                            propagation_hashes@,
                            hi + 1,
                            apply_bucket(
                                s0.clauses@[bi as int].clauses@,
                                s0.literal_buffer@,
                                ci as int,
                                cand_st,
                            ),
                        ) == rup_outcome(s0, lits@, propagation_hashes@),
                        !satisfied ==> scan_clause(
                            clits,
                            k as int,
                            cur_prop(*self, false),
                            unassigned_count as nat,
                            opt_lit(unassigned_lit),
                        ) == scan_clause(clits, 0, cand_st, 0, (Lit { code: 0 })),
                        satisfied ==> scan_clause(clits, 0, cand_st, 0, (Lit { code: 0 })) == (ScanOut {
                            st: cur_prop(*self, false),
                            satisfied: true,
                            n_unassigned: unassigned_count as nat,
                            ulit: opt_lit(unassigned_lit),
                        }),
                    decreases clause.lits.length - k,
                {
                    let lit = lit_at(&clause.lits, &self.literal_buffer, k);
                    proof {
                        lemma_lit_status(*self, false, lit);
                        assert(clits[k as int] == lit);
                    }
                    let ghost cur0 = cur_prop(*self, false);
                    match self.lit_value(lit) {
                        Some((sat, unit)) => {
                            if sat {
                                satisfied = true;
                                proof {
                                    assert(scan_clause(
                                        clits,
                                        k as int,
                                        cur0,
                                        unassigned_count as nat,
                                        opt_lit(unassigned_lit),
                                    ) == (ScanOut {
                                        st: cur0,
                                        satisfied: true,
                                        n_unassigned: unassigned_count as nat,
                                        ulit: opt_lit(unassigned_lit),
                                    }));
                                }
                            } else {
                                match unit.id {
                                    UnitId::Global(id) => {
                                        let idx = lit.index();
                                        proof {
                                            assert(self.unit_at(lit.spec_var()) == Some(unit));
                                            assert(global_unit_with_id(um0, id));
                                        }
                                        let ghost um_g = self.unit_clauses@;
                                        let ghost tr_pre = self.trail@;
                                        let ghost trace_pre = self.trace@;
                                        let ghost edges_pre = self.trace_edges@;
                                        let prev = self.unit_clauses[idx];
                                        self.trail.push((lit, prev));
                                        self.unit_clauses[idx] = Some(
                                            UnitClause {
                                                value: lit.is_negative(),
                                                id: UnitId::TracePos(self.trace.len()),
                                            },
                                        );
                                        self.trace_edges.push(self.trace.len());
                                        self.trace.push(
                                            TraceItem {
                                                id,
                                                edge_start: 0,
                                                edge_end: 0,
                                                unused: true,
                                            },
                                        );
                                        proof {
                                            assert(self.trail@.drop_last() =~= tr_pre);
                                            lemma_restore_push(
                                                um_g,
                                                tr_pre,
                                                lit,
                                                self.unit_clauses@[lit.spec_var()],
                                            );
                                            assert(tr_pre.push(
                                                (lit, um_g[lit.spec_var()]),
                                            ) =~= self.trail@);
                                            assert(forall|t: int|
                                                0 <= t < self.trail@.len() - 1 ==> (
                                                #[trigger] self.trail@[t])
                                                    == self.trail@.drop_last()[t]);
                                            assert forall|w: int|
                                                0 <= w < self.unit_clauses@.len() implies match
                                                #[trigger] self.unit_clauses@[w] {
                                                Some(u) => match u.id {
                                                    UnitId::Global(g) => global_unit_with_id(
                                                        um0,
                                                        g,
                                                    ),
                                                    UnitId::TracePos(p) => p < self.trace@.len(),
                                                    UnitId::InClause => true,
                                                },
                                                None => true,
                                            } by {
                                                if w != lit.spec_var() {
                                                    assert(self.unit_clauses@[w] == um_g[w]);
                                                }
                                            }
                                            assert forall|e2: int|
                                                0 <= e2 < self.trace_edges@.len() implies (
                                            #[trigger] self.trace_edges@[e2])
                                                < self.trace@.len() by {
                                                if e2 < edges_pre.len() {
                                                    assert(self.trace_edges@[e2]
                                                        == edges_pre[e2]);
                                                } else {
                                                    assert(self.trace_edges@[e2]
                                                        == trace_pre.len());
                                                }
                                            }
                                            assert forall|k2: int|
                                                0 <= k2 < self.trace@.len() implies id_present_in(
                                                s0.clauses@,
                                                um0,
                                                (#[trigger] self.trace@[k2]).id,
                                            ) && self.trace@[k2].edge_start
                                                <= self.trace@[k2].edge_end
                                                <= self.trace_edges@.len() by {
                                                if k2 < trace_pre.len() {
                                                    assert(self.trace@[k2] == trace_pre[k2]);
                                                }
                                            }
                                            lemma_units_map_update(
                                                um_g,
                                                lit.spec_var(),
                                                UnitClause {
                                                    value: lit.spec_is_negative(),
                                                    id: UnitId::TracePos(
                                                        trace_pre.len() as usize,
                                                    ),
                                                },
                                            );
                                            assert(trace_ids_of(self.trace@) =~= trace_ids_of(
                                                trace_pre,
                                            ).push(id));
                                            assert(cur_prop(*self, false) == scan_lit(cur0, lit));
                                            assert(scan_clause(
                                                clits,
                                                k as int,
                                                cur0,
                                                unassigned_count as nat,
                                                opt_lit(unassigned_lit),
                                            ) == scan_clause(
                                                clits,
                                                k + 1,
                                                cur_prop(*self, false),
                                                unassigned_count as nat,
                                                opt_lit(unassigned_lit),
                                            ));
                                        }
                                    },
                                    UnitId::TracePos(pos) => {
                                        proof {
                                            assert(self.unit_at(lit.spec_var()) == Some(unit));
                                        }
                                        self.trace_edges.push(pos);
                                        proof {
                                            assert(cur_prop(*self, false) == scan_lit(cur0, lit));
                                            assert(scan_clause(
                                                clits,
                                                k as int,
                                                cur0,
                                                unassigned_count as nat,
                                                opt_lit(unassigned_lit),
                                            ) == scan_clause(
                                                clits,
                                                k + 1,
                                                cur_prop(*self, false),
                                                unassigned_count as nat,
                                                opt_lit(unassigned_lit),
                                            ));
                                        }
                                    },
                                    UnitId::InClause => {
                                        proof {
                                            assert(cur_prop(*self, false) == scan_lit(cur0, lit));
                                            assert(scan_clause(
                                                clits,
                                                k as int,
                                                cur0,
                                                unassigned_count as nat,
                                                opt_lit(unassigned_lit),
                                            ) == scan_clause(
                                                clits,
                                                k + 1,
                                                cur_prop(*self, false),
                                                unassigned_count as nat,
                                                opt_lit(unassigned_lit),
                                            ));
                                        }
                                    },
                                }
                            }
                        },
                        None => {
                            let ghost n0 = unassigned_count as nat;
                            let ghost u0 = opt_lit(unassigned_lit);
                            unassigned_count = unassigned_count + 1;
                            unassigned_lit = Some(lit);
                            proof {
                                assert(scan_clause(clits, k as int, cur0, n0, u0) == scan_clause(
                                    clits,
                                    k + 1,
                                    cur0,
                                    unassigned_count as nat,
                                    opt_lit(unassigned_lit),
                                ));
                            }
                        },
                    }
                    k += 1;
                }
                let ghost out = scan_clause(clits, 0, cand_st, 0, (Lit { code: 0 }));
                let ghost cur_scan = cur_prop(*self, false);
                proof {
                    if satisfied {
                        assert(out.satisfied && out.st == cur_scan);
                    } else {
                        assert(k as int == clits.len());
                        assert(out == (ScanOut {
                            st: cur_scan,
                            satisfied: false,
                            n_unassigned: unassigned_count as nat,
                            ulit: opt_lit(unassigned_lit),
                        }));
                    }
                }
                if !satisfied {
                    let range_end = self.trace_edges.len();
                    match unassigned_lit {
                        None => {
                            let ghost trace_pre = self.trace@;
                            self.trace.push(
                                TraceItem {
                                    id: clause.id,
                                    edge_start: range_begin,
                                    edge_end: range_end,
                                    unused: false,
                                },
                            );
                            rup_is_unsat = true;
                            proof {
                                assert forall|k2: int|
                                    0 <= k2 < self.trace@.len() implies id_present_in(
                                    s0.clauses@,
                                    um0,
                                    (#[trigger] self.trace@[k2]).id,
                                ) && self.trace@[k2].edge_start <= self.trace@[k2].edge_end
                                    <= self.trace_edges@.len() by {
                                    if k2 < trace_pre.len() {
                                        assert(self.trace@[k2] == trace_pre[k2]);
                                    }
                                }
                                assert forall|w: int|
                                    0 <= w < self.unit_clauses@.len() implies match
                                    #[trigger] self.unit_clauses@[w] {
                                    Some(u) => match u.id {
                                        UnitId::Global(g) => global_unit_with_id(um0, g),
                                        UnitId::TracePos(p) => p < self.trace@.len(),
                                        UnitId::InClause => true,
                                    },
                                    None => true,
                                } by {}
                                assert(trace_ids_of(self.trace@) =~= trace_ids_of(trace_pre).push(
                                    clause.id,
                                ));
                                assert(cur_prop(*self, true) == apply_candidate(
                                    clause,
                                    s0.literal_buffer@,
                                    cand_st,
                                ));
                            }
                        },
                        Some(ulit) => {
                            if unassigned_count == 1 {
                                let idx = ulit.index();
                                let ghost units_pre = self.unit_clauses@;
                                self.grow_units(idx);
                                proof {
                                    assert(self.unit_clauses@.subrange(
                                        0,
                                        units_pre.len() as int,
                                    ) =~= units_pre);
                                    lemma_restores_to_pad(
                                        units_pre,
                                        self.unit_clauses@,
                                        self.trail@,
                                        um0,
                                    );
                                    lemma_units_map_pad(units_pre, self.unit_clauses@);
                                }
                                let ghost um_g = self.unit_clauses@;
                                let ghost tr_pre = self.trail@;
                                let ghost trace_pre = self.trace@;
                                let prev = self.unit_clauses[idx];
                                self.trail.push((ulit, prev));
                                self.unit_clauses[idx] = Some(
                                    UnitClause {
                                        value: ulit.is_positive(),
                                        id: UnitId::TracePos(self.trace.len()),
                                    },
                                );
                                self.trace.push(
                                    TraceItem {
                                        id: clause.id,
                                        edge_start: range_begin,
                                        edge_end: range_end,
                                        unused: true,
                                    },
                                );
                                proof {
                                    assert(self.trail@.drop_last() =~= tr_pre);
                                    lemma_restore_push(
                                        um_g,
                                        tr_pre,
                                        ulit,
                                        self.unit_clauses@[ulit.spec_var()],
                                    );
                                    assert(tr_pre.push(
                                        (ulit, um_g[ulit.spec_var()]),
                                    ) =~= self.trail@);
                                    assert(forall|t: int|
                                        0 <= t < self.trail@.len() - 1 ==> (
                                        #[trigger] self.trail@[t])
                                            == self.trail@.drop_last()[t]);
                                    assert forall|w: int|
                                        0 <= w < self.unit_clauses@.len() implies match
                                        #[trigger] self.unit_clauses@[w] {
                                        Some(u) => match u.id {
                                            UnitId::Global(g) => global_unit_with_id(um0, g),
                                            UnitId::TracePos(p) => p < self.trace@.len(),
                                            UnitId::InClause => true,
                                        },
                                        None => true,
                                    } by {
                                        if w != ulit.spec_var() {
                                            assert(self.unit_clauses@[w] == um_g[w]);
                                            if w < units_pre.len() {
                                                assert(um_g[w] == units_pre[w]);
                                            } else {
                                                assert(um_g[w] is None);
                                            }
                                        }
                                    }
                                    assert forall|k2: int|
                                        0 <= k2 < self.trace@.len() implies id_present_in(
                                        s0.clauses@,
                                        um0,
                                        (#[trigger] self.trace@[k2]).id,
                                    ) && self.trace@[k2].edge_start <= self.trace@[k2].edge_end
                                        <= self.trace_edges@.len() by {
                                        if k2 < trace_pre.len() {
                                            assert(self.trace@[k2] == trace_pre[k2]);
                                        }
                                    }
                                    lemma_units_map_update(
                                        um_g,
                                        ulit.spec_var(),
                                        UnitClause {
                                            value: !ulit.spec_is_negative(),
                                            id: UnitId::TracePos(trace_pre.len() as usize),
                                        },
                                    );
                                    assert(trace_ids_of(self.trace@) =~= trace_ids_of(
                                        trace_pre,
                                    ).push(clause.id));
                                    assert(out.n_unassigned == 1 && out.ulit == ulit);
                                    assert(units_map(um_g) == cur_scan.units);
                                    assert(trace_ids_of(trace_pre) == cur_scan.ids);
                                    assert(cur_prop(*self, false) == apply_candidate(
                                        clause,
                                        s0.literal_buffer@,
                                        cand_st,
                                    ));
                                }
                            } else {
                                proof {
                                    assert(out.n_unassigned >= 2);
                                    assert(cur_prop(*self, false) == apply_candidate(
                                        clause,
                                        s0.literal_buffer@,
                                        cand_st,
                                    ));
                                }
                            }
                        },
                    }
                } else {
                    proof {
                        assert(cur_prop(*self, false) == apply_candidate(
                            clause,
                            s0.literal_buffer@,
                            cand_st,
                        ));
                    }
                }
                proof {
                    let cs = s0.clauses@[bi as int].clauses@;
                    let buf = s0.literal_buffer@;
                    assert(cs[ci as int] == clause);
                    assert(apply_candidate(clause, buf, cand_st) == cur_prop(
                        *self,
                        rup_is_unsat,
                    ));
                    assert(apply_bucket(cs, buf, ci as int, cand_st) == apply_bucket(
                        cs,
                        buf,
                        ci + 1,
                        cur_prop(*self, rup_is_unsat),
                    ));
                }
                ci += 1;
            }
            proof {
                let cs = s0.clauses@[bi as int].clauses@;
                let buf = s0.literal_buffer@;
                let cur = cur_prop(*self, rup_is_unsat);
                if rup_is_unsat {
                    assert(apply_bucket(cs, buf, ci as int, cur) == cur);
                } else {
                    assert(ci == blen);
                    assert(apply_bucket(cs, buf, blen as int, cur) == cur);
                }
            }
            hi += 1;
        }

        let ghost stf = cur_prop(*self, rup_is_unsat);
        proof {
            assert(rup_outcome(s0, lits@, propagation_hashes@) == Ok::<Prop, u64>(stf));
        }
        if rup_is_unsat {
            // Backward sweep: mark every trace entry reachable from the
            // conflict as used.
            let mut i = self.trace.len();
            proof {
                assert(!self.trace@[self.trace@.len() - 1].unused);
            }
            while i > 0
                invariant
                    i <= self.trace@.len(),
                    self.trace@.len() > 0,
                    check_frames(s0, *self),
                    *old(self) == s0,
                    s0.inv(),
                    um0 == s0.unit_clauses@,
                    check_units_ok(*self, um0),
                    trace_ok(*self, s0, um0),
                    trace_ids_of(self.trace@) == stf.ids,
                    !self.trace@[self.trace@.len() - 1].unused,
                    forall|k: int, e: int|
                        i <= k < self.trace@.len() && !(#[trigger] self.trace@[k]).unused
                            && self.trace@[k].edge_start <= e < self.trace@[k].edge_end ==> !self.trace@[(
                        #[trigger] self.trace_edges@[e]) as int].unused,
                    forall|m: int|
                        0 <= m < self.trace@.len() && !(#[trigger] self.trace@[m]).unused ==> m
                            == self.trace@.len() - 1 || exists|k: int|
                            0 <= k < self.trace@.len() && !self.trace@[k].unused && edge_hits(
                                self.trace@,
                                self.trace_edges@,
                                k,
                                m,
                            ),
                decreases i,
            {
                i -= 1;
                let t = self.trace[i];
                if !t.unused {
                    let mut e = t.edge_start;
                    while e < t.edge_end
                        invariant
                            t.edge_start <= e <= t.edge_end,
                            t.edge_end <= self.trace_edges@.len(),
                            i < self.trace@.len(),
                            self.trace@.len() > 0,
                            check_frames(s0, *self),
                            *old(self) == s0,
                            s0.inv(),
                            um0 == s0.unit_clauses@,
                            check_units_ok(*self, um0),
                            trace_ok(*self, s0, um0),
                            trace_ids_of(self.trace@) == stf.ids,
                            !self.trace@[self.trace@.len() - 1].unused,
                            self.trace@[i as int].edge_start == t.edge_start,
                            self.trace@[i as int].edge_end == t.edge_end,
                            !self.trace@[i as int].unused,
                            forall|e2: int|
                                t.edge_start <= e2 < e ==> !self.trace@[(
                                #[trigger] self.trace_edges@[e2]) as int].unused,
                            forall|k: int, e2: int|
                                i + 1 <= k < self.trace@.len() && !(
                                #[trigger] self.trace@[k]).unused && self.trace@[k].edge_start
                                    <= e2 < self.trace@[k].edge_end ==> !self.trace@[(
                                #[trigger] self.trace_edges@[e2]) as int].unused,
                            forall|m: int|
                                0 <= m < self.trace@.len() && !(#[trigger] self.trace@[m]).unused
                                    ==> m == self.trace@.len() - 1 || exists|k: int|
                                    0 <= k < self.trace@.len() && !self.trace@[k].unused
                                        && edge_hits(self.trace@, self.trace_edges@, k, m),
                        decreases t.edge_end - e,
                    {
                        let pos = self.trace_edges[e];
                        let ghost trace_pre = self.trace@;
                        proof {
                            assert(pos < i);
                        }
                        let mut t2 = self.trace.remove(pos);
                        t2.unused = false;
                        self.trace.insert(pos, t2);
                        proof {
                            assert(self.trace@ =~= trace_pre.update(
                                pos as int,
                                TraceItem {
                                    id: trace_pre[pos as int].id,
                                    edge_start: trace_pre[pos as int].edge_start,
                                    edge_end: trace_pre[pos as int].edge_end,
                                    unused: false,
                                },
                            ));
                            assert forall|m: int|
                                0 <= m < self.trace@.len() implies id_present_in(
                                s0.clauses@,
                                um0,
                                (#[trigger] self.trace@[m]).id,
                            ) && self.trace@[m].edge_start <= self.trace@[m].edge_end
                                <= self.trace_edges@.len() by {
                                if m != pos {
                                    assert(self.trace@[m] == trace_pre[m]);
                                }
                            }
                            assert(trace_ids_of(self.trace@) =~= trace_ids_of(trace_pre));
                            assert forall|m: int|
                                0 <= m < self.trace@.len() && !(#[trigger] self.trace@[m]).unused
                                implies m == self.trace@.len() - 1 || exists|k: int|
                                0 <= k < self.trace@.len() && !self.trace@[k].unused && edge_hits(
                                    self.trace@,
                                    self.trace_edges@,
                                    k,
                                    m,
                                ) by {
                                if m == pos {
                                    assert(!self.trace@[i as int].unused);
                                    assert(edge_hits(self.trace@, self.trace_edges@, i as int, m))
                                        by {
                                        assert(0 <= e < self.trace_edges@.len()
                                            && self.trace@[i as int].edge_start <= e
                                            < self.trace@[i as int].edge_end
                                            && self.trace_edges@[e as int] == pos);
                                    }
                                } else {
                                    assert(self.trace@[m] == trace_pre[m]);
                                    if m != self.trace@.len() - 1 {
                                        let k0 = choose|k: int|
                                            0 <= k < trace_pre.len() && !trace_pre[k].unused
                                                && edge_hits(trace_pre, self.trace_edges@, k, m);
                                        assert(!self.trace@[k0].unused);
                                        assert(edge_hits(self.trace@, self.trace_edges@, k0, m))
                                            by {
                                            let e0 = choose|e0: int|
                                                0 <= e0 < self.trace_edges@.len()
                                                    && trace_pre[k0].edge_start <= e0
                                                    < trace_pre[k0].edge_end && (
                                                #[trigger] self.trace_edges@[e0]) == m;
                                            assert(self.trace@[k0].edge_start
                                                == trace_pre[k0].edge_start
                                                && self.trace@[k0].edge_end
                                                == trace_pre[k0].edge_end);
                                            assert(0 <= e0 < self.trace_edges@.len()
                                                && self.trace@[k0].edge_start <= e0
                                                < self.trace@[k0].edge_end
                                                && self.trace_edges@[e0] == m);
                                        }
                                    }
                                }
                            }
                            assert forall|k: int, e2: int|
                                i + 1 <= k < self.trace@.len() && !(
                                #[trigger] self.trace@[k]).unused && self.trace@[k].edge_start
                                    <= e2 < self.trace@[k].edge_end implies !self.trace@[(
                                #[trigger] self.trace_edges@[e2]) as int].unused by {
                                assert(self.trace@[k] == trace_pre[k]);
                                let tgt = self.trace_edges@[e2] as int;
                                if tgt != pos {
                                    assert(self.trace@[tgt] == trace_pre[tgt]);
                                }
                            }
                        }
                        e += 1;
                    }
                }
            }
            // Publish the identifiers of the trace.
            let ghost swept = self.trace@;
            let ghost swept_edges = self.trace_edges@;
            self.trace_ids.clear();
            let mut k: usize = 0;
            while k < self.trace.len()
                invariant
                    self.trace@ == swept,
                    self.trace_edges@ == swept_edges,
                    swept.len() > 0,
                    !swept[swept.len() - 1].unused,
                    forall|k2: int, e: int|
                        0 <= k2 < swept.len() && !(#[trigger] swept[k2]).unused
                            && swept[k2].edge_start <= e < swept[k2].edge_end ==> !swept[(
                        #[trigger] swept_edges[e]) as int].unused,
                    forall|m: int|
                        0 <= m < swept.len() && !(#[trigger] swept[m]).unused ==> m == swept.len()
                            - 1 || exists|k2: int|
                            0 <= k2 < swept.len() && !swept[k2].unused && edge_hits(
                                swept,
                                swept_edges,
                                k2,
                                m,
                            ),
                    k <= self.trace@.len(),
                    self.trace_ids@.len() == k,
                    check_frames(s0, *self),
                    *old(self) == s0,
                    s0.inv(),
                    um0 == s0.unit_clauses@,
                    check_units_ok(*self, um0),
                    trace_ok(*self, s0, um0),
                    trace_ids_of(self.trace@) == stf.ids,
                    forall|m: int|
                        0 <= m < k ==> id_present_in(
                            s0.clauses@,
                            um0,
                            #[trigger] self.trace_ids@[m],
                        ),
                    forall|m: int| 0 <= m < k ==> #[trigger] self.trace_ids@[m] == stf.ids[m],
                decreases self.trace@.len() - k,
            {
                let id = self.trace[k].id;
                self.trace_ids.push(id);
                k += 1;
            }
            proof {
                assert(self.trace_ids@ =~= stf.ids);
            }
        }

        self.unwind_trail(Ghost(um0));
        proof {
            assert forall|v: int| self.unit_at(v) == s0.unit_at(v) by {
                if 0 <= v < um0.len() {
                    assert(self.unit_clauses@[v] == self.unit_clauses@.subrange(
                        0,
                        um0.len() as int,
                    )[v]);
                }
            }
            assert(self.units_wf()) by {
                assert forall|v: int|
                    0 <= v < self.unit_clauses@.len() implies match #[trigger] self.unit_clauses@[v] {
                    Some(u) => u.id matches UnitId::Global(g) && g < self.next_clause_id,
                    None => true,
                } by {
                    assert(self.unit_at(v) == s0.unit_at(v));
                    assert(self.unit_clauses@[v] == self.unit_at(v));
                }
            }
        }
        if rup_is_unsat {
            Ok(())
        } else {
            let c = copy_lits(lits);
            Err(CheckerError::ClauseCheckFailed { step: self.step, clause: c })
        }
    }

    /// Adds a clause of the input formula. Once the formula is
    /// unsatisfiable further additions are silently ignored. Otherwise the
    /// clause is brought to canonical form and stored, and one checked step
    /// is emitted: a new clause as `AddClause` with a fresh identifier, a
    /// repeated one as `DuplicatedClause` under a fresh, burned identifier.
    #[verifier::rlimit(100)]
    pub fn add_clause(&mut self, clause: &Vec<Lit>) -> (r: Result<(), CheckerError>)
        requires
            old(self).inv(),
        ensures
            final(self).inv(),
            final(self).step == old(self).step,
            old(self).unsat ==> r == Ok::<(), CheckerError>(()) && *final(self) == *old(self),
            r matches Err(e) ==> e == (CheckerError::CounterOverflow { step: old(self).step })
                && final(self).emitted == old(self).emitted && (old(self).next_clause_id
                == u64::MAX || forall|cl: Seq<Lit>|
                is_canon(cl, clause@) ==> stored_at_max(
                    old(self).clauses@,
                    old(self).literal_buffer@,
                    cl,
                )),
            r is Err ==> {
                &&& final(self).next_clause_id == old(self).next_clause_id
                &&& final(self).unit_clauses == old(self).unit_clauses
                &&& final(self).unsat == old(self).unsat
                &&& final(self).unit_conflict == old(self).unit_conflict
                &&& final(self).step == old(self).step
                &&& forall|cl: Seq<Lit>|
                    #[trigger] is_canon(cl, clause@) ==> final(self).counts(cl) <= old(self).counts(
                        cl,
                    ) + 1 && (forall|l2: Seq<Lit>|
                        l2 != cl ==> #[trigger] final(self).counts(l2) == old(self).counts(l2))
            },
            r is Ok ==> add_clause_effect(*old(self), *final(self), clause@),
            !old(self).unsat && r is Ok ==> {
                &&& final(self).emitted@.len() == old(self).emitted@.len() + 1
                &&& final(self).emitted@.subrange(0, old(self).emitted@.len() as int) == old(self).emitted@
                &&& match final(self).emitted@.last() {
                    CheckedProofStep::AddClause { id, clause: cl } => {
                        &&& strictly_sorted(cl@)
                        &&& same_lit_set(cl@, clause@)
                        &&& id == old(self).next_clause_id
                        &&& final(self).next_clause_id == old(self).next_clause_id + 1
                        &&& (cl@.len() >= 2 ==> final(self).counts(cl@) == old(self).counts(cl@)
                            + 1 && old(self).counts(cl@) == 0 && final(self).unsat == old(self).unsat && final(self).unit_clauses == old(self).unit_clauses && (forall|
                            l2: Seq<Lit>,
                        |
                            l2 != cl@ ==> #[trigger] final(self).counts(l2) == old(self).counts(
                                l2,
                            )))
                        &&& (cl@.len() == 0 ==> final(self).unsat && final(self).clauses == old(self).clauses && final(self).unit_clauses == old(self).unit_clauses && final(self).unit_conflict == old(self).unit_conflict)
                        &&& (cl@.len() == 1 ==> final(self).clauses == old(self).clauses && match
                            old(self).spec_lit_value(cl@[0]) {
                            None => {
                                &&& final(self).unsat == old(self).unsat
                                &&& final(self).unit_conflict == old(self).unit_conflict
                                &&& final(self).unit_at(cl@[0].spec_var()) == Some(
                                    UnitClause {
                                        value: !cl@[0].spec_is_negative(),
                                        id: UnitId::Global(id),
                                    },
                                )
                                &&& forall|v: int|
                                    v != cl@[0].spec_var() ==> final(self).unit_at(v) == old(self).unit_at(v)
                            },
                            Some((sat, u)) => !sat && (u.id matches UnitId::Global(g) && final(self).unit_conflict == Some((g, id))) && final(self).unsat && final(self).unit_clauses == old(self).unit_clauses,
                        })
                    },
                    CheckedProofStep::DuplicatedClause { id, same_as_id, clause: cl } => {
                        &&& strictly_sorted(cl@)
                        &&& same_lit_set(cl@, clause@)
                        &&& id == old(self).next_clause_id
                        &&& final(self).next_clause_id == old(self).next_clause_id + 1
                        &&& same_as_id < old(self).next_clause_id
                        &&& final(self).unsat == old(self).unsat
                        &&& final(self).unit_clauses == old(self).unit_clauses
                        &&& final(self).unit_conflict == old(self).unit_conflict
                        &&& cl@.len() >= 1
                        &&& (cl@.len() >= 2 ==> final(self).counts(cl@) == old(self).counts(cl@)
                            + 1 && old(self).counts(cl@) > 0 && (forall|l2: Seq<Lit>|
                            l2 != cl@ ==> #[trigger] final(self).counts(l2) == old(self).counts(
                                l2,
                            )))
                        &&& (cl@.len() == 1 ==> final(self).clauses == old(self).clauses && (old(self).spec_lit_value(cl@[0]) matches Some((sat, u)) && sat && u.id
                            == UnitId::Global(same_as_id)))
                    },
                    _ => false,
                }
            },
    {
        if self.unsat {
            proof {
                reveal(add_clause_effect);
                assert(add_clause_effect(*old(self), *self, clause@));
            }
            return Ok(());
        }
        let tmp = sort_dedup_lits(clause);
        let ghost pre = *self;
        let (id, added) = match self.store_clause(&tmp) {
            Ok(v) => v,
            Err(e) => {
                proof {
                    if pre.next_clause_id != u64::MAX {
                        assert forall|cl: Seq<Lit>| is_canon(cl, clause@) implies stored_at_max(
                            pre.clauses@,
                            pre.literal_buffer@,
                            cl,
                        ) by {
                            crate::lit::lemma_sorted_set_unique(cl, tmp@);
                        }
                    }
                }
                return Err(e);
            },
        };
        if added {
            let st = CheckedProofStep::AddClause { id, clause: tmp };
            proof {
                lemma_emit(
                    self.emitted@,
                    st,
                    pre.next_clause_id,
                    self.next_clause_id,
                );
            }
            self.emitted.push(st);
            proof {
                assert(self.emitted@.subrange(0, pre.emitted@.len() as int) =~= pre.emitted@);
                reveal(add_clause_effect);
                assert(add_clause_effect(*old(self), *self, clause@));
            }
            Ok(())
        } else {
            if self.next_clause_id == u64::MAX {
                proof {
                    assert forall|cl: Seq<Lit>| #[trigger] is_canon(cl, clause@) implies cl
                        == tmp@ by {
                        crate::lit::lemma_sorted_set_unique(cl, tmp@);
                    }
                }
                return Err(CheckerError::CounterOverflow { step: self.step });
            }
            let id2 = self.next_clause_id;
            let st = CheckedProofStep::DuplicatedClause { id: id2, same_as_id: id, clause: tmp };
            proof {
                lemma_emit(self.emitted@, st, self.next_clause_id, (self.next_clause_id + 1) as u64);
            }
            self.emitted.push(st);
            self.next_clause_id = id2 + 1;
            proof {
                assert(self.emitted@.subrange(0, pre.emitted@.len() as int) =~= pre.emitted@);
                reveal(add_clause_effect);
                assert(add_clause_effect(*old(self), *self, clause@));
            }
            Ok(())
        }
    }

    /// After a successful RUP check of the canonical clause `tmp`, stores
    /// it and emits an `AtClause` step exactly when it was new.
    #[verifier::rlimit(100)]
    fn finish_at_clause(
        &mut self,
        tmp: Vec<Lit>,
        pre0: Ghost<Checker>,
        hashes: Ghost<Seq<u64>>,
    ) -> (r: Result<(), CheckerError>)
        requires
            old(self).inv(),
            strictly_sorted(tmp@),
            old(self).clauses == pre0@.clauses,
            old(self).literal_buffer == pre0@.literal_buffer,
            old(self).next_clause_id == pre0@.next_clause_id,
            old(self).step == pre0@.step,
            old(self).unsat == pre0@.unsat,
            old(self).unit_conflict == pre0@.unit_conflict,
            old(self).emitted == pre0@.emitted,
            forall|v: int| old(self).unit_at(v) == pre0@.unit_at(v),
            match rup_outcome(pre0@, tmp@, hashes@) {
                Ok(stf) => stf.conflict && old(self).trace_ids@ == stf.ids,
                Err(_) => false,
            },
        ensures
            final(self).inv(),
            final(self).step == pre0@.step,
            pre0@.unsat ==> final(self).unsat,
            pre0@.emitted@.is_prefix_of(final(self).emitted@),
            r matches Err(e) ==> error_step(e) == pre0@.step && !(e is ProofIncomplete) && !(e
                is ParseError),
            at_step_effect(pre0@, *final(self), r, tmp@, hashes@),
    {
            let ghost pre = *self;
            let (id, added) = match self.store_clause(&tmp) {
                Ok(v) => v,
                Err(e) => {
                    proof {
                        assert(self.emitted@.is_prefix_of(self.emitted@));
                        reveal(at_step_effect);
                        assert(at_step_effect(
                            pre0@,
                            *self,
                            Err::<(), CheckerError>(e),
                            tmp@,
                            hashes@,
                        ));
                    }
                    return Err(e);
                },
            };
            let ghost mid = *self;
            if added {
                let props = copy_u64s(&self.trace_ids);
                let st = CheckedProofStep::AtClause { id, clause: tmp, propagations: props };
                proof {
                    lemma_emit(self.emitted@, st, pre.next_clause_id, self.next_clause_id);
                }
                self.emitted.push(st);
            }
            proof {
                assert(pre0@.emitted@.is_prefix_of(self.emitted@));
                assert(self.clauses == mid.clauses && self.literal_buffer == mid.literal_buffer);
                assert forall|l2: Seq<Lit>| #[trigger] self.counts(l2) == mid.counts(l2) by {}
                reveal(at_step_effect);
                match rup_outcome(pre0@, tmp@, hashes@) {
                    Err(_) => {
                        assert(false);
                    },
                    Ok(stf) => {
                        assert(stf.conflict);
                        assert(stf.ids == pre.trace_ids@);
                        if tmp.len() >= 2 {
                            assert(self.counts(tmp@) == pre0@.counts(tmp@) + 1);
                            assert forall|l2: Seq<Lit>| l2 != tmp@ implies #[trigger] self.counts(
                                l2,
                            ) == pre0@.counts(l2) by {
                                assert(mid.counts(l2) == pre.counts(l2));
                                assert(pre.counts(l2) == pre0@.counts(l2));
                            }
                            assert(at_step_effect(pre0@, *self, Ok(()), tmp@, hashes@));
                        } else if tmp.len() == 1 {
                            assert(pre.spec_lit_value(tmp@[0]) == pre0@.spec_lit_value(tmp@[0]));
                            assert(at_step_effect(pre0@, *self, Ok(()), tmp@, hashes@));
                        } else {
                            assert(self.unsat);
                            assert(at_step_effect(pre0@, *self, Ok(()), tmp@, hashes@));
                        }
                    },
                }
            }
            Ok(())
    }

    /// Applies one asymmetric-tautology step: the canonical clause is
    /// verified by RUP against the fingerprints, then stored; an `AtClause`
    /// step is emitted exactly when the clause was new.
    #[verifier::rlimit(100)]
    fn check_at_clause_step(&mut self, clause: Vec<Lit>, propagation_hashes: Vec<u64>) -> (r:
        Result<(), CheckerError>)
        requires
            old(self).inv(),
        ensures
            final(self).inv(),
            final(self).step == old(self).step,
            old(self).unsat ==> final(self).unsat,
            old(self).emitted@.is_prefix_of(final(self).emitted@),
            r matches Err(e) ==> error_step(e) == old(self).step && !(e is ProofIncomplete) && !(e is ParseError),
            forall|cl: Seq<Lit>|
                #[trigger] is_canon(cl, clause@) ==> at_step_effect(
                    *old(self),
                    *final(self),
                    r,
                    cl,
                    propagation_hashes@,
                )
    {

            let tmp = sort_dedup_lits(&clause);
            proof {
                assert forall|cl: Seq<Lit>| #[trigger] is_canon(cl, clause@) implies cl
                    == tmp@ by {
                    crate::lit::lemma_sorted_set_unique(cl, tmp@);
                }
            }
            match self.check_clause_with_hashes(&tmp, &propagation_hashes) {
                Ok(_) => {},
                Err(e) => {
                    proof {
                        assert(self.emitted@.is_prefix_of(self.emitted@));
                        reveal(at_step_effect);
                        assert(at_step_effect(
                            *old(self),
                            *self,
                            Err::<(), CheckerError>(e),
                            tmp@,
                            propagation_hashes@,
                        ));
                    }
                    return Err(e);
                },
            }
            let r = self.finish_at_clause(tmp, Ghost(*old(self)), Ghost(propagation_hashes@));
            proof {
                assert(old(self).emitted@.is_prefix_of(self.emitted@));
            }
            r
    }

    /// Applies one deletion step: one copy of the canonical clause is
    /// removed, and a `DeleteClause` step is emitted exactly when its last
    /// copy went.
    #[verifier::rlimit(100)]
    fn check_delete_step(&mut self, clause: Vec<Lit>) -> (r: Result<(), CheckerError>)
        requires
            old(self).inv(),
        ensures
            final(self).inv(),
            final(self).step == old(self).step,
            old(self).unsat ==> final(self).unsat,
            old(self).emitted@.is_prefix_of(final(self).emitted@),
            r matches Err(e) ==> error_step(e) == old(self).step && !(e is ProofIncomplete) && !(e is ParseError),
            forall|cl: Seq<Lit>|
                #[trigger] is_canon(cl, clause@) ==> delete_step_effect(
                    *old(self),
                    *final(self),
                    r,
                    cl,
                )
    {

            let tmp = sort_dedup_lits(&clause);
            proof {
                assert forall|cl: Seq<Lit>| #[trigger] is_canon(cl, clause@) implies cl
                    == tmp@ by {
                    crate::lit::lemma_sorted_set_unique(cl, tmp@);
                }
            }
            match self.delete_clause(&tmp) {
                Err(e) => {
                    proof {
                        assert(self.emitted@.is_prefix_of(self.emitted@));
                    }
                    Err(e)
                },
                Ok(None) => {
                    proof {
                        assert(self.emitted@.is_prefix_of(self.emitted@));
                    }
                    Ok(())
                },
                Ok(Some(id)) => {
                    let ghost mid = *self;
                    let st = CheckedProofStep::DeleteClause { id, clause: tmp };
                    proof {
                        assert(id < self.next_clause_id) by {
                            let (i, j) = choose|i: int, j: int|
                                0 <= i < old(self).clauses@.len() && 0 <= j < old(self).clauses@[i].clauses@.len() && lits_of(
                                    old(self).clauses@[i].clauses@[j].lits,
                                    old(self).literal_buffer@,
                                ) == tmp@ && old(self).clauses@[i].clauses@[j].id == id;
                            assert(old(self).clauses@[i].clauses@[j].id < old(self).next_clause_id);
                        }
                        lemma_emit(self.emitted@, st, self.next_clause_id, self.next_clause_id);
                    }
                    self.emitted.push(st);
                    proof {
                        assert(old(self).emitted@.is_prefix_of(self.emitted@));
                        assert forall|l2: Seq<Lit>| l2 != tmp@ implies #[trigger] self.counts(l2)
                            == old(self).counts(l2) by {
                            assert(mid.counts(l2) == old(self).counts(l2));
                            assert(self.clauses == mid.clauses && self.literal_buffer
                                == mid.literal_buffer);
                        }
                        assert(self.counts(tmp@) == mid.counts(tmp@));
                    }
                    Ok(())
                },
            }
    }

    /// Applies one unit-clause step: each unit is verified by RUP against
    /// its single fingerprint, then stored; every emitted step is an
    /// `AtClause` with a one-literal clause.
    #[verifier::rlimit(100)]
    fn check_unit_clauses_step(&mut self, units: Vec<(Lit, u64)>) -> (r: Result<
        (),
        CheckerError,
    >)
        requires
            old(self).inv(),
        ensures
            final(self).inv(),
            final(self).step == old(self).step,
            old(self).unsat ==> final(self).unsat,
            old(self).emitted@.is_prefix_of(final(self).emitted@),
            r matches Err(e) ==> error_step(e) == old(self).step && !(e is ProofIncomplete) && !(e is ParseError),
            units@.len() == 0 ==> r is Ok && *final(self) == *old(self),
            forall|m: int|
                old(self).emitted@.len() <= m < final(self).emitted@.len() ==> ((#[trigger] final(self).emitted@[m]) matches CheckedProofStep::AtClause { id, clause, propagations }
                    && clause@.len() == 1),
            r is Ok ==> exists|cs: Seq<Checker>|
                units_applied(cs, units@) && cs[0] == *old(self) && cs[units@.len() as int]
                    == *final(self),
            r matches Err(e) ==> (e matches CheckerError::CounterOverflow { .. }) || exists|
                cs: Seq<Checker>,
                k: int,
            | {
                &&& 0 <= k < units@.len()
                &&& cs.len() == k + 1
                &&& cs[0] == *old(self)
                &&& (forall|m: int|
                    0 <= m < k ==> unit_effect(cs[m], cs[m + 1], (#[trigger] units@[m]).0, units@[m].1))
                &&& match rup_outcome(cs[k], seq![units@[k].0], seq![units@[k].1]) {
                    Err(h) => e == (CheckerError::ClauseNotFound { step: old(self).step, hash: h }),
                    Ok(stf) => !stf.conflict && (e matches CheckerError::ClauseCheckFailed {
                        step,
                        clause,
                    } && step == old(self).step && clause@ == seq![units@[k].0]),
                }
                &&& final(self).emitted == cs[k].emitted
                &&& final(self).clauses == cs[k].clauses
                &&& final(self).literal_buffer == cs[k].literal_buffer
                &&& (forall|v: int| final(self).unit_at(v) == cs[k].unit_at(v))
            },
    {

            if units.len() == 0 {
                proof {
                    assert(self.emitted@.is_prefix_of(self.emitted@));
                    let cs = seq![*old(self)];
                    assert(units_applied(cs, units@));
                    assert(cs[0] == *old(self) && cs[units@.len() as int] == *self);
                }
                return Ok(());
            }
            let ghost mut chain: Seq<Checker> = seq![*old(self)];
            let mut i: usize = 0;
            while i < units.len()
                invariant
                    i <= units@.len(),
                    self.inv(),
                    self.step == old(self).step,
                    old(self).unsat ==> self.unsat,
                    old(self).emitted@.is_prefix_of(self.emitted@),
                    chain.len() == i + 1,
                    chain[0] == *old(self),
                    chain[i as int] == *self,
                    forall|m: int|
                        0 <= m < i ==> unit_effect(
                            chain[m],
                            chain[m + 1],
                            (#[trigger] units@[m]).0,
                            units@[m].1,
                        ),
                    forall|m: int|
                        old(self).emitted@.len() <= m < self.emitted@.len() ==> ((
                        #[trigger] self.emitted@[m]) matches CheckedProofStep::AtClause {
                            id,
                            clause,
                            propagations,
                        } && clause@.len() == 1),
                decreases units@.len() - i,
            {
                let (lit, hash) = units[i];
                let mut cl: Vec<Lit> = Vec::new();
                cl.push(lit);
                let mut hs: Vec<u64> = Vec::new();
                hs.push(hash);
                proof {
                    assert(cl@ =~= seq![lit]);
                    assert(hs@ =~= seq![hash]);
                }
                match self.check_clause_with_hashes(&cl, &hs) {
                    Ok(_) => {},
                    Err(e) => {
                        proof {
                            assert((units@[i as int]).0 == lit && units@[i as int].1 == hash);
                        }
                        return Err(e);
                    },
                }
                let ghost pre = *self;
                let (id, added) = match self.store_unit_clause(lit) {
                    Ok(v) => v,
                    Err(e) => {
                        return Err(e);
                    },
                };
                if added {
                    let props = copy_u64s(&self.trace_ids);
                    let st = CheckedProofStep::AtClause {
                        id,
                        clause: cl,
                        propagations: props,
                    };
                    proof {
                        lemma_emit(self.emitted@, st, pre.next_clause_id, self.next_clause_id);
                    }
                    let ghost emitted_pre = self.emitted@;
                    self.emitted.push(st);
                    proof {
                        assert(old(self).emitted@.is_prefix_of(self.emitted@)) by {
                            assert(old(self).emitted@.is_prefix_of(emitted_pre));
                            assert(self.emitted@.subrange(0, old(self).emitted@.len() as int)
                                =~= old(self).emitted@);
                        }
                    }
                }
                proof {
                    assert(unit_effect(chain[i as int], *self, lit, hash)) by {
                        assert(pre.spec_lit_value(lit) == chain[i as int].spec_lit_value(lit));
                    }
                    chain = chain.push(*self);
                    assert(chain[i + 1] == *self);
                    assert((units@[i as int]).0 == lit && units@[i as int].1 == hash);
                }
                i += 1;
            }
            proof {
                assert(units_applied(chain, units@));
                assert(chain[units@.len() as int] == *self);
            }
            Ok(())
    }

    /// Applies one decoded proof step: an asymmetric-tautology addition is
    /// verified by RUP and stored, a deletion removes one copy of a stored
    /// clause, and each unit clause of a unit list is verified against its
    /// single fingerprint and stored. Checked steps are emitted for new
    /// clauses and completed deletions.
    pub fn check_step(&mut self, step: ProofStep) -> (r: Result<(), CheckerError>)
        requires
            old(self).inv(),
        ensures
            final(self).inv(),
            final(self).step == old(self).step,
            old(self).unsat ==> final(self).unsat,
            old(self).emitted@.is_prefix_of(final(self).emitted@),
            r matches Err(e) ==> error_step(e) == old(self).step && !(e is ProofIncomplete) && !(e is ParseError),
            match step {
                ProofStep::AtClause { clause, propagation_hashes } => forall|cl: Seq<Lit>|
                    #[trigger] is_canon(cl, clause@) ==> at_step_effect(
                        *old(self),
                        *final(self),
                        r,
                        cl,
                        propagation_hashes@,
                    ),
                ProofStep::DeleteClause(clause) => forall|cl: Seq<Lit>|
                    #[trigger] is_canon(cl, clause@) ==> delete_step_effect(
                        *old(self),
                        *final(self),
                        r,
                        cl,
                    ),
                ProofStep::UnitClauses(units) => {
                    &&& (units@.len() == 0 ==> r is Ok && *final(self) == *old(self))
                    &&& (forall|m: int|
                        old(self).emitted@.len() <= m < final(self).emitted@.len() ==> ((
                        #[trigger] final(self).emitted@[m]) matches CheckedProofStep::AtClause {
                            id,
                            clause,
                            propagations,
                        } && clause@.len() == 1))
                },
            },
            step_effect(*old(self), *final(self), r, step@),
    {
        match step {
            ProofStep::AtClause { clause, propagation_hashes } => self.check_at_clause_step(
                clause,
                propagation_hashes,
            ),
            ProofStep::DeleteClause(clause) => self.check_delete_step(clause),
            ProofStep::UnitClauses(units) => self.check_unit_clauses_step(units),
        }
    }

    /// After the proof ends with two remembered conflicting unit clauses,
    /// emits the derivation of the empty clause from that pair under a
    /// fresh identifier. Without a remembered conflict nothing changes.
    pub fn process_unit_conflicts(&mut self) -> (r: Result<(), CheckerError>)
        requires
            old(self).inv(),
        ensures
            final(self).inv(),
            final(self).step == old(self).step,
            final(self).unsat == old(self).unsat,
            old(self).emitted@.is_prefix_of(final(self).emitted@),
            old(self).unit_conflict is None ==> *final(self) == *old(self),
            r matches Err(e) ==> e == (CheckerError::CounterOverflow { step: old(self).step })
                && old(self).next_clause_id == u64::MAX && *final(self) == *old(self),
            r is Ok ==> match old(self).unit_conflict {
                Some((a, b)) => {
                    &&& final(self).emitted@.len() == old(self).emitted@.len() + 1
                    &&& (final(self).emitted@.last() matches CheckedProofStep::AtClause {
                        id,
                        clause,
                        propagations,
                    } && id == old(self).next_clause_id && clause@.len() == 0 && propagations@
                        == seq![a, b])
                },
                None => true,
            },
    {
        match self.unit_conflict {
            Some((a, b)) => {
                if self.next_clause_id == u64::MAX {
                    return Err(CheckerError::CounterOverflow { step: self.step });
                }
                let clause: Vec<Lit> = Vec::new();
                let mut props: Vec<u64> = Vec::new();
                props.push(a);
                props.push(b);
                let id = self.next_clause_id;
                let st = CheckedProofStep::AtClause { id, clause, propagations: props };
                proof {
                    assert(props@ =~= seq![a, b]);
                    lemma_emit(self.emitted@, st, self.next_clause_id, (self.next_clause_id
                        + 1) as u64);
                }
                self.emitted.push(st);
                self.next_clause_id = id + 1;
                proof {
                    assert(self.emitted@.subrange(0, old(self).emitted@.len() as int) =~= old(self).emitted@);
                }
                Ok(())
            },
            None => {
                proof {
                    assert(self.emitted@.is_prefix_of(self.emitted@));
                }
                Ok(())
            },
        }
    }

    /// Checks a whole proof: decodes and applies its steps in order until
    /// unsatisfiability is derived, then emits the synthesized empty clause
    /// if the unsatisfiability came from a remembered unit conflict. A proof
    /// that ends before unsatisfiability is derived is `ProofIncomplete`;
    /// malformed bytes are `ParseError`. On success the formula is
    /// unsatisfiable.
    pub fn check_proof(&mut self, proof_bytes: &Vec<u8>) -> (r: Result<(), CheckerError>)
        requires
            old(self).inv(),
            old(self).step + proof_bytes@.len() + 1 <= u64::MAX,
        ensures
            final(self).inv(),
            old(self).emitted@.is_prefix_of(final(self).emitted@),
            old(self).unsat ==> final(self).unsat,
            r is Ok ==> final(self).unsat,
            r is Ok ==> exists|stvs: Seq<ProofStepView>, cs: Seq<Checker>, end: int| {
                &&& decodes_to(proof_bytes@, 0, stvs, end)
                &&& proof_run(cs, stvs)
                &&& cs[0] == *old(self)
                &&& (forall|k: int| 0 <= k < stvs.len() ==> !(#[trigger] cs[k]).unsat)
                &&& cs[stvs.len() as int].unsat
                &&& match cs[stvs.len() as int].unit_conflict {
                    Some((a, b)) => final(self).emitted@.len() == cs[stvs.len() as int].emitted@.len()
                        + 1 && (final(self).emitted@.last() matches CheckedProofStep::AtClause {
                        id,
                        clause,
                        propagations,
                    } && clause@.len() == 0 && propagations@ == seq![a, b]),
                    None => final(self).emitted == cs[stvs.len() as int].emitted,
                }
            },
            r matches Err(e) ==> {
                &&& (e matches CheckerError::ProofIncomplete { step } ==> exists|
                    stvs: Seq<ProofStepView>,
                    cs: Seq<Checker>,
                    end: int,
                | {
                    &&& decodes_to(proof_bytes@, 0, stvs, end)
                    &&& proof_run(cs, stvs)
                    &&& cs[0] == *old(self)
                    &&& (forall|k: int| 0 <= k <= stvs.len() ==> !(#[trigger] cs[k]).unsat)
                    &&& dec_step(proof_bytes@, end) == Err::<(ProofStepView, int), DecodeError>(
                        DecodeError::Eof,
                    )
                    &&& step == old(self).step + stvs.len() + 1
                    &&& eq_mod_step(*final(self), cs[stvs.len() as int])
                })
                &&& (e matches CheckerError::ParseError { step } ==> exists|
                    stvs: Seq<ProofStepView>,
                    cs: Seq<Checker>,
                    end: int,
                | {
                    &&& decodes_to(proof_bytes@, 0, stvs, end)
                    &&& proof_run(cs, stvs)
                    &&& cs[0] == *old(self)
                    &&& (forall|k: int| 0 <= k <= stvs.len() ==> !(#[trigger] cs[k]).unsat)
                    &&& dec_step(proof_bytes@, end) == Err::<(ProofStepView, int), DecodeError>(
                        DecodeError::Corrupt,
                    )
                    &&& step == old(self).step + stvs.len() + 1
                    &&& eq_mod_step(*final(self), cs[stvs.len() as int])
                })
                &&& (!(e is ProofIncomplete) && !(e is ParseError) ==> (exists|
                    stvs: Seq<ProofStepView>,
                    cs: Seq<Checker>,
                    end: int,
                    stv1: ProofStepView,
                    end2: int,
                | {
                    &&& decodes_to(proof_bytes@, 0, stvs, end)
                    &&& proof_run(cs, stvs)
                    &&& cs[0] == *old(self)
                    &&& (forall|k: int| 0 <= k <= stvs.len() ==> !(#[trigger] cs[k]).unsat)
                    &&& dec_step(proof_bytes@, end) == Ok::<(ProofStepView, int), DecodeError>(
                        (stv1, end2),
                    )
                    &&& exists|mid: Checker|
                        eq_mod_step(mid, cs[stvs.len() as int]) && mid.step == old(self).step
                            + stvs.len() + 1 && step_effect(
                            mid,
                            *final(self),
                            Err::<(), CheckerError>(e),
                            stv1,
                        )
                }) || (exists|stvs: Seq<ProofStepView>, cs: Seq<Checker>, end: int| {
                    &&& decodes_to(proof_bytes@, 0, stvs, end)
                    &&& proof_run(cs, stvs)
                    &&& cs[0] == *old(self)
                    &&& (forall|k: int| 0 <= k < stvs.len() ==> !(#[trigger] cs[k]).unsat)
                    &&& cs[stvs.len() as int].unsat
                    &&& e matches CheckerError::CounterOverflow { .. }
                    &&& cs[stvs.len() as int].next_clause_id == u64::MAX
                    &&& *final(self) == cs[stvs.len() as int]
                }))
            },
    {
        let parser = Parser::new();
        let mut pos: usize = 0;
        let ghost mut stvs: Seq<ProofStepView> = Seq::empty();
        let ghost mut cs: Seq<Checker> = seq![*old(self)];
        while !self.is_unsat()
            invariant
                self.inv(),
                pos <= proof_bytes@.len(),
                old(self).step + proof_bytes@.len() + 1 <= u64::MAX,
                old(self).unsat ==> self.unsat,
                old(self).emitted@.is_prefix_of(self.emitted@),
                stvs.len() <= pos,
                self.step == old(self).step + stvs.len(),
                decodes_to(proof_bytes@, 0, stvs, pos as int),
                cs.len() == stvs.len() + 1,
                cs[0] == *old(self),
                cs[stvs.len() as int] == *self,
                proof_run(cs, stvs),
                forall|k: int| 0 <= k < stvs.len() ==> !(#[trigger] cs[k]).unsat,
            decreases proof_bytes@.len() - pos,
        {
            self.step = self.step + 1;
            let ghost mid_state = *self;
            match parser.parse_step(proof_bytes, pos) {
                Ok((st, next)) => {
                    let ghost end0 = pos as int;
                    proof {
                        lemma_decodes_to_push(proof_bytes@, 0, stvs, end0, st@, next as int);
                    }
                    pos = next;
                    let ghost emitted_pre = self.emitted@;
                    let cres = self.check_step(st);
                    match cres {
                        Ok(u) => {
                            proof {
                                assert(u == ());
                                assert(cres == Ok::<(), CheckerError>(u));
                            }
                        },
                        Err(e) => {
                            proof {
                                lemma_prefix_trans(old(self).emitted@, emitted_pre, self.emitted@);
                                assert(decodes_to(proof_bytes@, 0, stvs, end0));
                                assert(dec_step(proof_bytes@, end0) == Ok::<
                                    (ProofStepView, int),
                                    DecodeError,
                                >((st@, next as int)));
                                assert(eq_mod_step(mid_state, cs[stvs.len() as int])
                                    && mid_state.step == old(self).step + stvs.len() + 1
                                    && step_effect(
                                    mid_state,
                                    *self,
                                    Err::<(), CheckerError>(e),
                                    st@,
                                ));
                                assert(forall|k: int|
                                    0 <= k <= stvs.len() ==> !(#[trigger] cs[k]).unsat);
                            }
                            return Err(e);
                        },
                    }
                    proof {
                        lemma_prefix_trans(old(self).emitted@, emitted_pre, self.emitted@);
                        assert(eq_mod_step(mid_state, cs[stvs.len() as int]));
                        assert(proof_step_link(cs[stvs.len() as int], *self, st@)) by {
                            assert(eq_mod_step(mid_state, cs[stvs.len() as int])
                                && mid_state.step == cs[stvs.len() as int].step + 1 && step_effect(
                                mid_state,
                                *self,
                                Ok(()),
                                st@,
                            ));
                        }
                        let ghost cs2 = cs.push(*self);
                        let ghost stvs2 = stvs.push(st@);
                        assert(cs2[stvs2.len() as int] == *self);
                        assert(cs2[0] == *old(self));
                        assert forall|k: int|
                            0 <= k < stvs2.len() implies proof_step_link(
                            cs2[k],
                            cs2[k + 1],
                            #[trigger] stvs2[k],
                        ) by {
                            if k < stvs.len() {
                                assert(cs2[k] == cs[k] && cs2[k + 1] == cs[k + 1] && stvs2[k]
                                    == stvs[k]);
                            } else {
                                assert(cs2[k] == cs[stvs.len() as int] && cs2[k + 1] == *self
                                    && stvs2[k] == st@);
                            }
                        }
                        assert forall|k: int| 0 <= k < stvs2.len() implies !(
                        #[trigger] cs2[k]).unsat by {
                            if k < stvs.len() {
                                assert(cs2[k] == cs[k]);
                            } else {
                                assert(cs2[k] == cs[stvs.len() as int]);
                            }
                        }
                        cs = cs2;
                        stvs = stvs2;
                    }
                },
                Err(DecodeError::Eof) => {
                    proof {
                        assert(decodes_to(proof_bytes@, 0, stvs, pos as int));
                        assert(dec_step(proof_bytes@, pos as int) == Err::<
                            (ProofStepView, int),
                            DecodeError,
                        >(DecodeError::Eof));
                        assert(self.step == old(self).step + stvs.len() + 1);
                        assert(eq_mod_step(*self, cs[stvs.len() as int]));
                        assert(forall|k: int| 0 <= k <= stvs.len() ==> !(#[trigger] cs[k]).unsat);
                    }
                    return Err(CheckerError::ProofIncomplete { step: self.step });
                },
                Err(DecodeError::Corrupt) => {
                    proof {
                        assert(decodes_to(proof_bytes@, 0, stvs, pos as int));
                        assert(dec_step(proof_bytes@, pos as int) == Err::<
                            (ProofStepView, int),
                            DecodeError,
                        >(DecodeError::Corrupt));
                        assert(self.step == old(self).step + stvs.len() + 1);
                        assert(eq_mod_step(*self, cs[stvs.len() as int]));
                        assert(forall|k: int| 0 <= k <= stvs.len() ==> !(#[trigger] cs[k]).unsat);
                    }
                    return Err(CheckerError::ParseError { step: self.step });
                },
            }
        }
        let ghost pre_conflicts = *self;
        let ghost emitted_pre = self.emitted@;
        let r = self.process_unit_conflicts();
        proof {
            lemma_prefix_trans(old(self).emitted@, emitted_pre, self.emitted@);
            assert(cs[stvs.len() as int] == pre_conflicts);
            assert(pre_conflicts.unsat);
            let ghost rg = r;
            match rg {
                Ok(_) => {
                    assert(decodes_to(proof_bytes@, 0, stvs, pos as int));
                    match pre_conflicts.unit_conflict {
                        Some((a, b)) => {
                            assert(self.emitted@.len() == pre_conflicts.emitted@.len() + 1);
                        },
                        None => {
                            assert(self.emitted == pre_conflicts.emitted);
                        },
                    }
                },
                Err(e) => {
                    assert(e matches CheckerError::CounterOverflow { .. });
                    assert(pre_conflicts.next_clause_id == u64::MAX);
                    assert(*self == pre_conflicts);
                },
            }
        }
        r
    }

    /// Adds a whole formula, clause by clause.
    pub fn add_formula(&mut self, formula: &Vec<Vec<Lit>>) -> (r: Result<(), CheckerError>)
        requires
            old(self).inv(),
        ensures
            final(self).inv(),
            final(self).step == old(self).step,
            old(self).unsat ==> final(self).unsat,
            old(self).emitted@.is_prefix_of(final(self).emitted@),
            r matches Err(e) ==> e == (CheckerError::CounterOverflow { step: old(self).step }),
            r is Ok ==> exists|cs: Seq<Checker>|
                formula_applied(cs, formula@) && cs[0] == *old(self) && cs[formula@.len() as int]
                    == *final(self),
    {
        let ghost mut chain: Seq<Checker> = seq![*old(self)];
        let mut i: usize = 0;
        while i < formula.len()
            invariant
                i <= formula@.len(),
                self.inv(),
                self.step == old(self).step,
                old(self).unsat ==> self.unsat,
                old(self).emitted@.is_prefix_of(self.emitted@),
                chain.len() == i + 1,
                chain[0] == *old(self),
                chain[i as int] == *self,
                forall|k: int|
                    0 <= k < i ==> add_clause_effect(chain[k], chain[k + 1], (
                    #[trigger] formula@[k])@),
            decreases formula@.len() - i,
        {
            let ghost emitted_pre = self.emitted@;
            match self.add_clause(&formula[i]) {
                Ok(_) => {},
                Err(e) => {
                    proof {
                        lemma_prefix_trans(old(self).emitted@, emitted_pre, self.emitted@);
                    }
                    return Err(e);
                },
            }
            proof {
                lemma_prefix_trans(old(self).emitted@, emitted_pre, self.emitted@);
                assert(add_clause_effect(chain[i as int], *self, formula@[i as int]@));
                chain = chain.push(*self);
                assert(chain[i + 1] == *self);
            }
            i += 1;
        }
        proof {
            assert(formula_applied(chain, formula@));
        }
        Ok(())
    }
    /// Compacts the literal buffer once more than half of it belongs to
    /// deleted records: every stored clause is rewritten into a fresh
    /// buffer, identifiers, reference counts and literals unchanged.
    /// Running it again right after a compaction changes nothing.
    #[verifier::rlimit(100)]
    pub fn collect_garbage(&mut self)
        requires
            buckets_wf(old(self).clauses@, old(self).literal_buffer@),
            old(self).store_ids_below(),
        ensures
            buckets_wf(final(self).clauses@, final(self).literal_buffer@),
            final(self).store_ids_below(),
            final(self).garbage_size * 2 <= final(self).literal_buffer@.len(),
            forall|l: Seq<Lit>| #[trigger] final(self).counts(l) == old(self).counts(l),
            final(self).clauses@.len() == old(self).clauses@.len(),
            forall|i: int|
                0 <= i < final(self).clauses@.len() ==> (#[trigger] final(self).clauses@[i]).hash
                    == old(self).clauses@[i].hash && final(self).clauses@[i].clauses@.len() == old(self).clauses@[i].clauses@.len(),
            forall|i: int, j: int|
                0 <= i < final(self).clauses@.len() && 0 <= j
                    < final(self).clauses@[i].clauses@.len() ==> {
                    let nc = #[trigger] final(self).clauses@[i].clauses@[j];
                    let oc = old(self).clauses@[i].clauses@[j];
                    &&& nc.id == oc.id
                    &&& nc.ref_count == oc.ref_count
                    &&& lits_of(nc.lits, final(self).literal_buffer@) == lits_of(
                        oc.lits,
                        old(self).literal_buffer@,
                    )
                },
            old(self).garbage_size * 2 > old(self).literal_buffer@.len() ==> final(self).literal_buffer@.len() == live_in_buckets(final(self).clauses@),
            final(self).step == old(self).step,
            final(self).next_clause_id == old(self).next_clause_id,
            final(self).unit_clauses == old(self).unit_clauses,
            final(self).trail == old(self).trail,
            final(self).unsat == old(self).unsat,
            final(self).trace == old(self).trace,
            final(self).trace_edges == old(self).trace_edges,
            final(self).trace_ids == old(self).trace_ids,
            final(self).emitted == old(self).emitted,
            final(self).unit_conflict == old(self).unit_conflict,
            old(self).garbage_size * 2 <= old(self).literal_buffer@.len()
                ==> *final(self) == *old(self),
            old(self).garbage_size * 2 > old(self).literal_buffer@.len()
                ==> final(self).garbage_size == 0,
    {
        let buflen = self.literal_buffer.len();
        if self.garbage_size <= (buflen as u128) / 2 {
            proof {
                assert(self.garbage_size * 2 <= self.literal_buffer@.len());
            }
            return ;
        }
        proof {
            assert(self.garbage_size * 2 > self.literal_buffer@.len());
        }
        let ghost bs0 = self.clauses@;
        let ghost buf0 = self.literal_buffer@;
        let mut new_buf: Vec<Lit> = Vec::new();
        let mut new_buckets: Vec<HashBucket> = Vec::new();
        let nb = self.clauses.len();
        let mut i: usize = 0;
        while i < nb
            invariant
                *self == *old(self),
                bs0 == self.clauses@,
                buf0 == self.literal_buffer@,
                buckets_wf(bs0, buf0),
                nb == bs0.len(),
                i <= nb,
                new_buckets@.len() == i,
                new_buf@.len() == live_in_buckets(new_buckets@),
                forall|ii: int|
                    0 <= ii < i ==> (#[trigger] new_buckets@[ii]).hash == bs0[ii].hash
                        && new_buckets@[ii].clauses@.len() == bs0[ii].clauses@.len(),
                forall|ii: int, jj: int|
                    0 <= ii < i && 0 <= jj < new_buckets@[ii].clauses@.len() ==> {
                        let nc = #[trigger] new_buckets@[ii].clauses@[jj];
                        let oc = bs0[ii].clauses@[jj];
                        &&& nc.id == oc.id
                        &&& nc.ref_count == oc.ref_count
                        &&& nc.lits.length == oc.lits.length
                        &&& lits_in_buf(nc.lits, new_buf@.len() as int)
                        &&& lits_of(nc.lits, new_buf@) == lits_of(oc.lits, buf0)
                    },
            decreases nb - i,
        {
            proof {
                assert(bucket_wf(bs0[i as int], buf0));
            }
            let blen = self.clauses[i].clauses.len();
            let mut new_cs: Vec<Clause> = Vec::new();
            let mut j: usize = 0;
            while j < blen
                invariant
                    *self == *old(self),
                    bs0 == self.clauses@,
                    buf0 == self.literal_buffer@,
                    buckets_wf(bs0, buf0),
                    nb == bs0.len(),
                    i < nb,
                    blen == bs0[i as int].clauses@.len(),
                    j <= blen,
                    new_buckets@.len() == i,
                    new_cs@.len() == j,
                    new_buf@.len() == live_in_buckets(new_buckets@) + live_in_clauses(new_cs@),
                    forall|ii: int|
                        0 <= ii < i ==> (#[trigger] new_buckets@[ii]).hash == bs0[ii].hash
                            && new_buckets@[ii].clauses@.len() == bs0[ii].clauses@.len(),
                    forall|ii: int, jj: int|
                        0 <= ii < i && 0 <= jj < new_buckets@[ii].clauses@.len() ==> {
                            let nc = #[trigger] new_buckets@[ii].clauses@[jj];
                            let oc = bs0[ii].clauses@[jj];
                            &&& nc.id == oc.id
                            &&& nc.ref_count == oc.ref_count
                            &&& nc.lits.length == oc.lits.length
                            &&& lits_in_buf(nc.lits, new_buf@.len() as int)
                            &&& lits_of(nc.lits, new_buf@) == lits_of(oc.lits, buf0)
                        },
                    forall|jj: int|
                        0 <= jj < j ==> {
                            let nc = #[trigger] new_cs@[jj];
                            let oc = bs0[i as int].clauses@[jj];
                            &&& nc.id == oc.id
                            &&& nc.ref_count == oc.ref_count
                            &&& nc.lits.length == oc.lits.length
                            &&& lits_in_buf(nc.lits, new_buf@.len() as int)
                            &&& lits_of(nc.lits, new_buf@) == lits_of(oc.lits, buf0)
                        },
                decreases blen - j,
            {
                let cj = self.clauses[i].clauses[j];
                proof {
                    assert(clause_wf(cj, buf0));
                }
                let mut tmp: Vec<Lit> = Vec::new();
                let mut k: usize = 0;
                while k < cj.lits.length
                    invariant
                        *self == *old(self),
                        buf0 == self.literal_buffer@,
                        k <= cj.lits.length,
                        lits_in_buf(cj.lits, buf0.len() as int),
                        tmp@ == lits_of(cj.lits, buf0).take(k as int),
                    decreases cj.lits.length - k,
                {
                    let x = lit_at(&cj.lits, &self.literal_buffer, k);
                    tmp.push(x);
                    proof {
                        assert(tmp@ =~= lits_of(cj.lits, buf0).take(k + 1));
                    }
                    k += 1;
                }
                proof {
                    assert(lits_of(cj.lits, buf0).take(cj.lits.length as int) == lits_of(
                        cj.lits,
                        buf0,
                    ));
                }
                let ghost nb_before = new_buf@;
                let cl2 = ClauseLits::new(&tmp, &mut new_buf);
                let c2 = Clause { id: cj.id, ref_count: cj.ref_count, lits: cl2 };
                let ghost cs_pre = new_cs@;
                new_cs.push(c2);
                proof {
                    lemma_live_clauses_push(cs_pre, c2);
                    assert forall|ii: int, jj: int|
                        0 <= ii < i && 0 <= jj < new_buckets@[ii].clauses@.len() implies {
                        let nc = #[trigger] new_buckets@[ii].clauses@[jj];
                        let oc = bs0[ii].clauses@[jj];
                        &&& nc.id == oc.id
                        &&& nc.ref_count == oc.ref_count
                        &&& nc.lits.length == oc.lits.length
                        &&& lits_in_buf(nc.lits, new_buf@.len() as int)
                        &&& lits_of(nc.lits, new_buf@) == lits_of(oc.lits, buf0)
                    } by {
                        let nc = new_buckets@[ii].clauses@[jj];
                        crate::store::lemma_lits_of_extend(nc.lits, nb_before, new_buf@);
                    }
                    assert forall|jj: int| 0 <= jj < new_cs@.len() implies {
                        let nc = #[trigger] new_cs@[jj];
                        let oc = bs0[i as int].clauses@[jj];
                        &&& nc.id == oc.id
                        &&& nc.ref_count == oc.ref_count
                        &&& nc.lits.length == oc.lits.length
                        &&& lits_in_buf(nc.lits, new_buf@.len() as int)
                        &&& lits_of(nc.lits, new_buf@) == lits_of(oc.lits, buf0)
                    } by {
                        let nc = new_cs@[jj];
                        if jj < j {
                            crate::store::lemma_lits_of_extend(nc.lits, nb_before, new_buf@);
                        } else {
                            assert(nc == c2);
                        }
                    }
                }
                j += 1;
            }
            let newb = HashBucket { hash: self.clauses[i].hash, clauses: new_cs };
            proof {
                lemma_live_buckets_push(new_buckets@, newb);
            }
            new_buckets.push(newb);
            i += 1;
        }
        self.clauses = new_buckets;
        self.literal_buffer = new_buf;
        self.garbage_size = 0;
        proof {
            let bs1 = self.clauses@;
            let buf1 = self.literal_buffer@;
            assert forall|ii: int| 0 <= ii < bs1.len() implies bucket_wf(
                #[trigger] bs1[ii],
                buf1,
            ) by {
                assert(bucket_wf(bs0[ii], buf0));
                assert forall|jj: int| 0 <= jj < bs1[ii].clauses@.len() implies clause_wf(
                    #[trigger] bs1[ii].clauses@[jj],
                    buf1,
                ) by {
                    assert(clause_wf(bs0[ii].clauses@[jj], buf0));
                }
                assert forall|jj: int|
                    0 <= jj < bs1[ii].clauses@.len() implies hash_lits(
                    lits_of(#[trigger] bs1[ii].clauses@[jj].lits, buf1),
                ) == bs1[ii].hash by {
                    assert(lits_of(bs1[ii].clauses@[jj].lits, buf1) == lits_of(
                        bs0[ii].clauses@[jj].lits,
                        buf0,
                    ));
                }
                assert forall|jj: int, kk: int|
                    0 <= jj < kk < bs1[ii].clauses@.len() implies lits_of(
                    bs1[ii].clauses@[jj].lits,
                    buf1,
                ) != lits_of(bs1[ii].clauses@[kk].lits, buf1) by {
                    assert(lits_of(bs1[ii].clauses@[jj].lits, buf1) == lits_of(
                        bs0[ii].clauses@[jj].lits,
                        buf0,
                    ));
                    assert(lits_of(bs1[ii].clauses@[kk].lits, buf1) == lits_of(
                        bs0[ii].clauses@[kk].lits,
                        buf0,
                    ));
                }
            }
            assert forall|ii: int, kk: int|
                0 <= ii < kk < bs1.len() implies bs1[ii].hash != bs1[kk].hash by {
                assert(bs1[ii].hash == bs0[ii].hash && bs1[kk].hash == bs0[kk].hash);
            }
            assert forall|l: Seq<Lit>| #[trigger] count_in_buckets(bs1, buf1, l)
                == count_in_buckets(bs0, buf0, l) by {
                crate::store::lemma_count_buckets_congruent(bs1, buf1, bs0, buf0, l);
            }
            assert forall|ii: int, jj: int|
                0 <= ii < bs1.len() && 0 <= jj < bs1[ii].clauses@.len() implies (
            #[trigger] bs1[ii].clauses@[jj]).id < self.next_clause_id by {
                assert(bs1[ii].clauses@[jj].id == bs0[ii].clauses@[jj].id);
                assert(bs0[ii].clauses@[jj].id < old(self).next_clause_id);
            }
        }
    }

    /// Removes one copy of a clause given in canonical form. Returns the
    /// record's identifier when its last copy went, `None` when copies
    /// remain; deleting a clause that is not present, or has fewer than two
    /// literals, is refused as `InvalidDelete`. Afterwards the buffer is
    /// compacted if more than half of it is garbage.
    #[verifier::rlimit(100)]
    fn delete_clause(&mut self, lits: &Vec<Lit>) -> (r: Result<Option<u64>, CheckerError>)
        requires
            old(self).inv(),
            strictly_sorted(lits@),
        ensures
            match r {
                Ok(opt) => {
                    &&& final(self).inv()
                    &&& lits@.len() >= 2
                    &&& old(self).counts(lits@) > 0
                    &&& final(self).counts(lits@) + 1 == old(self).counts(lits@)
                    &&& forall|l2: Seq<Lit>|
                        l2 != lits@ ==> #[trigger] final(self).counts(l2) == old(self).counts(l2)
                    &&& final(self).step == old(self).step
                    &&& final(self).next_clause_id == old(self).next_clause_id
                    &&& final(self).unit_clauses == old(self).unit_clauses
                    &&& final(self).trail == old(self).trail
                    &&& final(self).unsat == old(self).unsat
                    &&& final(self).trace == old(self).trace
                    &&& final(self).trace_edges == old(self).trace_edges
                    &&& final(self).trace_ids == old(self).trace_ids
                    &&& final(self).emitted == old(self).emitted
                    &&& final(self).unit_conflict == old(self).unit_conflict
                    &&& match opt {
                        Some(id) => old(self).counts(lits@) == 1 && stored_with_id(
                            old(self).clauses@,
                            old(self).literal_buffer@,
                            lits@,
                            id,
                        ) && (forall|i: int, j: int|
                            0 <= i < old(self).clauses@.len() && 0 <= j < old(
                                self,
                            ).clauses@[i].clauses@.len() && lits_of(
                                (#[trigger] old(self).clauses@[i].clauses@[j]).lits,
                                old(self).literal_buffer@,
                            ) == lits@ ==> {
                                let used = spec_buffer_used(old(self).clauses@[i].clauses@[j].lits);
                                ||| (final(self).literal_buffer == old(self).literal_buffer
                                    && final(self).garbage_size == old(self).garbage_size + used)
                                ||| (final(self).garbage_size == 0 && (old(self).garbage_size
                                    + used) * 2 > old(self).literal_buffer@.len())
                            }),
                        None => old(self).counts(lits@) > 1 && final(self).literal_buffer == old(self).literal_buffer && final(self).garbage_size == old(self).garbage_size,
                    }
                },
                Err(e) => {
                    &&& *final(self) == *old(self)
                    &&& (e matches CheckerError::InvalidDelete { step, clause } && step == old(self).step && clause@ == lits@)
                    &&& (lits@.len() < 2 || old(self).counts(lits@) == 0)
                },
            },
    {
        let ghost l = lits@;
        if lits.len() < 2 {
            let c = copy_lits(lits);
            proof {
                if l.len() == 1 {
                    // A unit clause is never a stored record.
                    assert forall|i: int, j: int|
                        0 <= i < self.clauses@.len() && 0 <= j < self.clauses@[i].clauses@.len()
                        implies lits_of(self.clauses@[i].clauses@[j].lits, self.literal_buffer@)
                        != l by {
                        assert(bucket_wf(self.clauses@[i], self.literal_buffer@));
                        assert(clause_wf(self.clauses@[i].clauses@[j], self.literal_buffer@));
                        assert(lits_of(self.clauses@[i].clauses@[j].lits, self.literal_buffer@).len()
                            >= 2);
                    }
                    lemma_count_buckets_pos(self.clauses@, self.literal_buffer@, l);
                } else {
                    assert forall|i: int, j: int|
                        0 <= i < self.clauses@.len() && 0 <= j < self.clauses@[i].clauses@.len()
                        implies lits_of(self.clauses@[i].clauses@[j].lits, self.literal_buffer@)
                        != l by {
                        assert(bucket_wf(self.clauses@[i], self.literal_buffer@));
                        assert(clause_wf(self.clauses@[i].clauses@[j], self.literal_buffer@));
                        assert(lits_of(self.clauses@[i].clauses@[j].lits, self.literal_buffer@).len()
                            >= 2);
                    }
                    lemma_count_buckets_pos(self.clauses@, self.literal_buffer@, l);
                }
            }
            return Err(CheckerError::InvalidDelete { step: self.step, clause: c });
        }
        let hash = clause_hash(lits);
        let ghost s0 = *self;
        let nb = self.clauses.len();
        let mut bi: usize = 0;
        while bi < nb && self.clauses[bi].hash != hash
            invariant
                *self == s0,
                *self == *old(self),
                nb == self.clauses@.len(),
                bi <= nb,
                forall|k: int| 0 <= k < bi ==> (#[trigger] self.clauses@[k].hash) != hash,
            decreases nb - bi,
        {
            bi += 1;
        }
        if bi == nb {
            proof {
                lemma_no_bucket_no_rec(self.clauses@, self.literal_buffer@, l);
            }
            let c = copy_lits(lits);
            return Err(CheckerError::InvalidDelete { step: self.step, clause: c });
        }
        let ghost bs0 = self.clauses@;
        let ghost buf0 = self.literal_buffer@;
        let blen = self.clauses[bi].clauses.len();
        let mut j: usize = 0;
        while j < blen
            invariant
                *self == s0,
                *self == *old(self),
                bs0 == self.clauses@,
                buf0 == self.literal_buffer@,
                old(self).inv(),
                0 <= bi < self.clauses@.len(),
                self.clauses@[bi as int].hash == hash,
                blen == self.clauses@[bi as int].clauses@.len(),
                j <= blen,
                forall|k: int|
                    0 <= k < j ==> lits_of(
                        (#[trigger] self.clauses@[bi as int].clauses@[k]).lits,
                        self.literal_buffer@,
                    ) != l,
                l == lits@,
                hash == hash_lits(l),
            decreases blen - j,
        {
            let cj = self.clauses[bi].clauses[j];
            proof {
                assert(bucket_wf(self.clauses@[bi as int], self.literal_buffer@));
                assert(clause_wf(cj, self.literal_buffer@));
            }
            if clause_lits_equal(&cj.lits, &self.literal_buffer, lits) {
                let result: Option<u64>;
                if cj.ref_count == 1 {
                    // Only a removed record's literals become garbage.
                    let used = cj.lits.buffer_used();
                    let buflen = self.literal_buffer.len();
                    proof {
                        assert(self.garbage_size * 2 <= buf0.len());
                        assert(buf0.len() == buflen);
                        assert forall|i2: int, j2: int|
                            0 <= i2 < bs0.len() && 0 <= j2 < bs0[i2].clauses@.len() && lits_of(
                                (#[trigger] bs0[i2].clauses@[j2]).lits,
                                buf0,
                            ) == l implies spec_buffer_used(bs0[i2].clauses@[j2].lits)
                            == spec_buffer_used(cj.lits) by {
                            assert(bucket_wf(bs0[i2], buf0));
                            assert(hash_lits(lits_of(bs0[i2].clauses@[j2].lits, buf0))
                                == bs0[i2].hash);
                            assert(bs0[bi as int].hash == hash);
                            if i2 != bi {
                                if i2 < bi {
                                    assert(bs0[i2].hash != bs0[bi as int].hash);
                                } else {
                                    assert(bs0[bi as int].hash != bs0[i2].hash);
                                }
                                assert(false);
                            }
                            assert(bucket_wf(bs0[bi as int], buf0));
                            if j2 != j {
                                if j2 < j {
                                    assert(lits_of(bs0[bi as int].clauses@[j2].lits, buf0)
                                        != lits_of(bs0[bi as int].clauses@[j as int].lits, buf0));
                                } else {
                                    assert(lits_of(bs0[bi as int].clauses@[j as int].lits, buf0)
                                        != lits_of(bs0[bi as int].clauses@[j2].lits, buf0));
                                }
                                assert(false);
                            }
                            assert(bs0[i2].clauses@[j2] == cj);
                        }
                    }
                    self.garbage_size = self.garbage_size + (used as u128);
                    let mut bucket = self.clauses.remove(bi);
                    let _rm = bucket.clauses.remove(j);
                    if bucket.clauses.len() == 0 {
                        proof {
                            assert(blen == 1);
                            assert(self.clauses@ == bs0.remove(bi as int));
                            assert forall|i: int| 0 <= i < self.clauses@.len() implies bucket_wf(
                                #[trigger] self.clauses@[i],
                                buf0,
                            ) by {
                                if i < bi {
                                    assert(self.clauses@[i] == bs0[i]);
                                } else {
                                    assert(self.clauses@[i] == bs0[i + 1]);
                                }
                            }
                            assert forall|i: int, k: int|
                                0 <= i < k < self.clauses@.len() implies self.clauses@[i].hash
                                != self.clauses@[k].hash by {
                                if k < bi {
                                } else if i < bi {
                                    assert(self.clauses@[k] == bs0[k + 1]);
                                } else {
                                    assert(self.clauses@[i] == bs0[i + 1]);
                                    assert(self.clauses@[k] == bs0[k + 1]);
                                }
                            }
                            assert(count_in_clauses(bs0[bi as int].clauses@, buf0, l)
                                == clause_contrib(cj, buf0, l)) by {
                                assert(bs0[bi as int].clauses@.last() == cj);
                                assert(bs0[bi as int].clauses@.drop_last() =~= Seq::<
                                    Clause,
                                >::empty());
                                assert(count_in_clauses(Seq::<Clause>::empty(), buf0, l) == 0);
                            }
                            assert forall|l2: Seq<Lit>|
                                l2 != l implies #[trigger] count_in_buckets(self.clauses@, buf0, l2)
                                == count_in_buckets(bs0, buf0, l2) by {
                                lemma_count_buckets_remove(bs0, buf0, bi as int, l2);
                                assert(count_in_clauses(bs0[bi as int].clauses@, buf0, l2)
                                    == clause_contrib(cj, buf0, l2)) by {
                                    assert(bs0[bi as int].clauses@.last() == cj);
                                    assert(bs0[bi as int].clauses@.drop_last() =~= Seq::<
                                        Clause,
                                    >::empty());
                                    assert(count_in_clauses(Seq::<Clause>::empty(), buf0, l2) == 0);
                                }
                                assert(clause_contrib(cj, buf0, l2) == 0);
                            }
                            assert(count_in_buckets(self.clauses@, buf0, l) + 1
                                == count_in_buckets(bs0, buf0, l)) by {
                                lemma_count_buckets_remove(bs0, buf0, bi as int, l);
                            }
                            assert(count_in_buckets(bs0, buf0, l) == 1) by {
                                lemma_count_buckets_at_least(bs0, buf0, bi as int, j as int);
                                assert(count_in_buckets(bs0, buf0, l) >= 1);
                                assert(count_in_buckets(self.clauses@, buf0, l) >= 0);
                                if count_in_buckets(self.clauses@, buf0, l) > 0 {
                                    assert forall|i: int| 0 <= i < self.clauses@.len() implies (
                                    #[trigger] self.clauses@[i].hash) != hash by {
                                        if i < bi {
                                        } else {
                                            assert(self.clauses@[i] == bs0[i + 1]);
                                            assert(bs0[bi as int].hash != bs0[i + 1].hash);
                                        }
                                    }
                                    lemma_no_bucket_no_rec(self.clauses@, buf0, l);
                                }
                            }
                            assert forall|i: int, k: int|
                                0 <= i < self.clauses@.len() && 0 <= k
                                    < self.clauses@[i].clauses@.len() implies (
                            #[trigger] self.clauses@[i].clauses@[k]).id < self.next_clause_id by {
                                if i < bi {
                                    assert(self.clauses@[i].clauses@[k] == bs0[i].clauses@[k]);
                                } else {
                                    assert(self.clauses@[i].clauses@[k] == bs0[i + 1].clauses@[k]);
                                }
                            }
                        }
                    } else {
                        self.clauses.insert(bi, bucket);
                        proof {
                            let b2 = self.clauses@[bi as int];
                            assert(b2.clauses@ == bs0[bi as int].clauses@.remove(j as int));
                            assert(self.clauses@ =~= bs0.update(bi as int, b2));
                            assert(bucket_wf(b2, buf0)) by {
                                assert(bucket_wf(bs0[bi as int], buf0));
                                assert forall|k: int| 0 <= k < b2.clauses@.len() implies clause_wf(
                                    #[trigger] b2.clauses@[k],
                                    buf0,
                                ) && hash_lits(lits_of(b2.clauses@[k].lits, buf0)) == b2.hash by {
                                    if k < j {
                                        assert(b2.clauses@[k] == bs0[bi as int].clauses@[k]);
                                    } else {
                                        assert(b2.clauses@[k] == bs0[bi as int].clauses@[k + 1]);
                                    }
                                }
                                assert forall|k: int, m: int|
                                    0 <= k < m < b2.clauses@.len() implies lits_of(
                                    b2.clauses@[k].lits,
                                    buf0,
                                ) != lits_of(b2.clauses@[m].lits, buf0) by {
                                    let k2: int = if k < j {
                                        k
                                    } else {
                                        k + 1
                                    };
                                    let m2: int = if m < j {
                                        m
                                    } else {
                                        m + 1
                                    };
                                    assert(b2.clauses@[k] == bs0[bi as int].clauses@[k2]);
                                    assert(b2.clauses@[m] == bs0[bi as int].clauses@[m2]);
                                }
                            }
                            assert forall|i: int| 0 <= i < self.clauses@.len() implies bucket_wf(
                                #[trigger] self.clauses@[i],
                                buf0,
                            ) by {
                                if i != bi {
                                    assert(self.clauses@[i] == bs0[i]);
                                }
                            }
                            assert forall|i: int, k: int|
                                0 <= i < k < self.clauses@.len() implies self.clauses@[i].hash
                                != self.clauses@[k].hash by {
                                assert(self.clauses@[i].hash == bs0[i].hash);
                                assert(self.clauses@[k].hash == bs0[k].hash);
                            }
                            assert forall|l2: Seq<Lit>|
                                l2 != l implies #[trigger] count_in_buckets(self.clauses@, buf0, l2)
                                == count_in_buckets(bs0, buf0, l2) by {
                                lemma_count_buckets_update(bs0, buf0, bi as int, b2, l2);
                                lemma_count_clauses_remove(
                                    bs0[bi as int].clauses@,
                                    buf0,
                                    j as int,
                                    l2,
                                );
                                assert(clause_contrib(cj, buf0, l2) == 0);
                            }
                            assert(count_in_buckets(self.clauses@, buf0, l) + 1
                                == count_in_buckets(bs0, buf0, l)) by {
                                lemma_count_buckets_update(bs0, buf0, bi as int, b2, l);
                                lemma_count_clauses_remove(
                                    bs0[bi as int].clauses@,
                                    buf0,
                                    j as int,
                                    l,
                                );
                            }
                            assert(count_in_buckets(bs0, buf0, l) == 1) by {
                                lemma_count_buckets_at_least(bs0, buf0, bi as int, j as int);
                                if count_in_buckets(self.clauses@, buf0, l) > 0 {
                                    lemma_count_buckets_pos(self.clauses@, buf0, l);
                                    let (i2, k2) = choose|i2: int, k2: int|
                                        0 <= i2 < self.clauses@.len() && 0 <= k2
                                            < self.clauses@[i2].clauses@.len() && lits_of(
                                            self.clauses@[i2].clauses@[k2].lits,
                                            buf0,
                                        ) == l;
                                    if i2 != bi {
                                        assert(self.clauses@[i2] == bs0[i2]);
                                        assert(hash_lits(
                                            lits_of(self.clauses@[i2].clauses@[k2].lits, buf0),
                                        ) == bs0[i2].hash);
                                        assert(bs0[i2].hash != bs0[bi as int].hash);
                                    } else {
                                        let k3: int = if k2 < j {
                                            k2
                                        } else {
                                            k2 + 1
                                        };
                                        assert(b2.clauses@[k2]
                                            == bs0[bi as int].clauses@[k3]);
                                        assert(lits_of(bs0[bi as int].clauses@[k3].lits, buf0)
                                            == l);
                                        assert(lits_of(bs0[bi as int].clauses@[j as int].lits, buf0)
                                            == l);
                                        assert(k3 != j);
                                        assert(bucket_wf(bs0[bi as int], buf0));
                                        assert(false);
                                    }
                                    assert(false);
                                }
                            }
                            assert forall|i: int, k: int|
                                0 <= i < self.clauses@.len() && 0 <= k
                                    < self.clauses@[i].clauses@.len() implies (
                            #[trigger] self.clauses@[i].clauses@[k]).id < self.next_clause_id by {
                                if i == bi {
                                    let k2: int = if k < j {
                                        k
                                    } else {
                                        k + 1
                                    };
                                    assert(self.clauses@[i].clauses@[k]
                                        == bs0[bi as int].clauses@[k2]);
                                } else {
                                    assert(self.clauses@[i].clauses@[k] == bs0[i].clauses@[k]);
                                }
                            }
                        }
                    }
                    result = Some(cj.id);
                    proof {
                        assert(stored_with_id(bs0, buf0, l, cj.id)) by {
                            assert(0 <= bi < bs0.len() && 0 <= j < bs0[bi as int].clauses@.len()
                                && lits_of(bs0[bi as int].clauses@[j as int].lits, buf0) == l
                                && bs0[bi as int].clauses@[j as int].id == cj.id);
                        }
                    }
                } else {
                    let c2 = Clause { id: cj.id, ref_count: cj.ref_count - 1, lits: cj.lits };
                    let mut bucket = self.clauses.remove(bi);
                    let _old_rec = bucket.clauses.remove(j);
                    bucket.clauses.insert(j, c2);
                    self.clauses.insert(bi, bucket);
                    proof {
                        let b2 = self.clauses@[bi as int];
                        assert(b2.clauses@ =~= bs0[bi as int].clauses@.update(j as int, c2));
                        assert(self.clauses@ =~= bs0.update(bi as int, b2));
                        assert(bucket_wf(b2, buf0)) by {
                            assert(bucket_wf(bs0[bi as int], buf0));
                            assert forall|k: int| 0 <= k < b2.clauses@.len() implies clause_wf(
                                #[trigger] b2.clauses@[k],
                                buf0,
                            ) && hash_lits(lits_of(b2.clauses@[k].lits, buf0)) == b2.hash by {
                                if k != j {
                                    assert(b2.clauses@[k] == bs0[bi as int].clauses@[k]);
                                } else {
                                    assert(b2.clauses@[k].lits == bs0[bi as int].clauses@[k].lits);
                                }
                            }
                            assert forall|k: int, m: int|
                                0 <= k < m < b2.clauses@.len() implies lits_of(
                                b2.clauses@[k].lits,
                                buf0,
                            ) != lits_of(b2.clauses@[m].lits, buf0) by {
                                assert(b2.clauses@[k].lits == bs0[bi as int].clauses@[k].lits);
                                assert(b2.clauses@[m].lits == bs0[bi as int].clauses@[m].lits);
                            }
                        }
                        assert forall|i: int| 0 <= i < self.clauses@.len() implies bucket_wf(
                            #[trigger] self.clauses@[i],
                            buf0,
                        ) by {
                            if i != bi {
                                assert(self.clauses@[i] == bs0[i]);
                            }
                        }
                        assert forall|i: int, k: int|
                            0 <= i < k < self.clauses@.len() implies self.clauses@[i].hash
                            != self.clauses@[k].hash by {
                            assert(self.clauses@[i].hash == bs0[i].hash);
                            assert(self.clauses@[k].hash == bs0[k].hash);
                        }
                        assert(clause_contrib(c2, buf0, l) + 1 == clause_contrib(cj, buf0, l));
                        assert forall|l2: Seq<Lit>|
                            l2 != l implies #[trigger] count_in_buckets(self.clauses@, buf0, l2)
                            == count_in_buckets(bs0, buf0, l2) by {
                            lemma_count_buckets_update(bs0, buf0, bi as int, b2, l2);
                            lemma_count_clauses_update(bs0[bi as int].clauses@, buf0, j as int, c2, l2);
                            assert(clause_contrib(c2, buf0, l2) == clause_contrib(cj, buf0, l2));
                        }
                        assert(count_in_buckets(self.clauses@, buf0, l) + 1 == count_in_buckets(
                            bs0,
                            buf0,
                            l,
                        )) by {
                            lemma_count_buckets_update(bs0, buf0, bi as int, b2, l);
                            lemma_count_clauses_update(bs0[bi as int].clauses@, buf0, j as int, c2, l);
                        }
                        assert(count_in_buckets(bs0, buf0, l) > 1) by {
                            lemma_count_buckets_at_least(bs0, buf0, bi as int, j as int);
                        }
                        assert forall|i: int, k: int|
                            0 <= i < self.clauses@.len() && 0 <= k
                                < self.clauses@[i].clauses@.len() implies (
                        #[trigger] self.clauses@[i].clauses@[k]).id < self.next_clause_id by {
                            if i == bi && k == j {
                                assert(self.clauses@[i].clauses@[k] == c2);
                                assert(bs0[bi as int].clauses@[j as int].id < self.next_clause_id);
                            } else if i == bi {
                                assert(self.clauses@[i].clauses@[k] == bs0[bi as int].clauses@[k]);
                            } else {
                                assert(self.clauses@[i].clauses@[k] == bs0[i].clauses@[k]);
                            }
                        }
                    }
                    result = None;
                }
                let ghost mid = *self;
                self.collect_garbage();
                proof {
                    assert forall|l2: Seq<Lit>|
                        l2 != l implies #[trigger] final(self).counts(l2) == old(self).counts(
                        l2,
                    ) by {
                        assert(self.counts(l2) == mid.counts(l2));
                    }
                }
                return Ok(result);
            }
            j += 1;
        }
        // A bucket with this fingerprint exists, but no record matches.
        proof {
            assert forall|i: int, k: int|
                0 <= i < bs0.len() && 0 <= k < bs0[i].clauses@.len() implies lits_of(
                bs0[i].clauses@[k].lits,
                buf0,
            ) != l by {
                assert(bucket_wf(bs0[i], buf0));
                if i == bi {
                } else {
                    assert(hash_lits(lits_of(bs0[i].clauses@[k].lits, buf0)) == bs0[i].hash);
                    if i < bi {
                        assert(bs0[i].hash != hash);
                    } else {
                        assert(bs0[bi as int].hash != bs0[i].hash);
                    }
                }
            }
            assert(!has_rec(bs0, buf0, l));
            lemma_count_buckets_pos(bs0, buf0, l);
        }
        let c = copy_lits(lits);
        Err(CheckerError::InvalidDelete { step: self.step, clause: c })
    }
}

impl Default for Checker {
    /// A checker holding the empty formula, as `new` builds it.
    fn default() -> (r: Checker)
        ensures
            r.inv(),
            r.step == 0,
            r.next_clause_id == 1,
            !r.unsat,
            r.emitted@.len() == 0,
            r.clauses@.len() == 0,
    {
        Checker::new()
    }
}

/// A prefix of a prefix is a prefix.
pub proof fn lemma_prefix_trans(a: Seq<CheckedProofStep>, b: Seq<CheckedProofStep>, c: Seq<CheckedProofStep>)
    requires
        a.is_prefix_of(b),
        b.is_prefix_of(c),
    ensures
        a.is_prefix_of(c),
{
    assert(c.subrange(0, a.len() as int) =~= a) by {
        assert forall|i: int| 0 <= i < a.len() implies c.subrange(0, a.len() as int)[i] == a[i] by {
            assert(b[i] == b.subrange(0, a.len() as int)[i]);
            assert(c[i] == c.subrange(0, b.len() as int)[i]);
        }
    }
}

/// Balanced additions and deletions empty the store: a well-formed checker
/// holding no copies of any clause has no clause records, and no part of
/// the literal buffer is occupied.
pub proof fn lemma_balanced_store_empty(c: Checker)
    requires
        c.inv(),
        forall|l: Seq<Lit>| c.counts(l) == 0,
    ensures
        c.clauses@.len() == 0,
        live_in_buckets(c.clauses@) == 0,
{
    assert forall|l: Seq<Lit>| count_in_buckets(c.clauses@, c.literal_buffer@, l) == 0 by {
        assert(c.counts(l) == 0);
    }
    lemma_empty_store(c.clauses@, c.literal_buffer@);
}

/// Returns a copy of a fingerprint vector.
pub fn copy_u64s(v: &Vec<u64>) -> (r: Vec<u64>)
    ensures
        r@ == v@,
{
    let mut r: Vec<u64> = Vec::new();
    let mut i: usize = 0;
    while i < v.len()
        invariant
            i <= v@.len(),
            r@ == v@.take(i as int),
        decreases v@.len() - i,
    {
        r.push(v[i]);
        proof {
            assert(r@ =~= v@.take(i + 1));
        }
        i += 1;
    }
    proof {
        assert(v@.take(v@.len() as int) == v@);
    }
    r
}

/// Returns a copy of a literal vector.
pub fn copy_lits(v: &Vec<Lit>) -> (r: Vec<Lit>)
    ensures
        r@ == v@,
{
    let mut r: Vec<Lit> = Vec::new();
    let mut i: usize = 0;
    while i < v.len()
        invariant
            i <= v@.len(),
            r@ == v@.take(i as int),
        decreases v@.len() - i,
    {
        r.push(v[i]);
        proof {
            assert(r@ =~= v@.take(i + 1));
        }
        i += 1;
    }
    proof {
        assert(v@.take(v@.len() as int) == v@);
    }
    r
}

/// The unit table as it becomes when the saved entries of `tr` are written
/// back, last first.
pub open spec fn restore(
    um: Seq<Option<UnitClause>>,
    tr: Seq<(Lit, Option<UnitClause>)>,
) -> Seq<Option<UnitClause>>
    decreases tr.len(),
{
    if tr.len() == 0 {
        um
    } else {
        let v = tr.last().0.spec_var();
        if 0 <= v < um.len() {
            restore(um.update(v, tr.last().1), tr.drop_last())
        } else {
            restore(um, tr.drop_last())
        }
    }
}

/// Every trail entry's variable lies inside a table of length `len`.
pub open spec fn trail_vars_ok(tr: Seq<(Lit, Option<UnitClause>)>, len: int) -> bool {
    forall|t: int| 0 <= t < tr.len() ==> 0 <= (#[trigger] tr[t]).0.spec_var() < len
}

/// Writing the trail back turns the table into the table of entry, padded
/// with unforced variables.
pub open spec fn restores_to(
    um: Seq<Option<UnitClause>>,
    tr: Seq<(Lit, Option<UnitClause>)>,
    um0: Seq<Option<UnitClause>>,
) -> bool {
    let r = restore(um, tr);
    &&& um0.len() <= um.len()
    &&& r.len() == um.len()
    &&& r.subrange(0, um0.len() as int) == um0
    &&& forall|v: int| um0.len() <= v < r.len() ==> (#[trigger] r[v]) is None
}

/// Writing the trail back keeps the table's length.
pub proof fn lemma_restore_len(um: Seq<Option<UnitClause>>, tr: Seq<(Lit, Option<UnitClause>)>)
    ensures
        restore(um, tr).len() == um.len(),
    decreases tr.len(),
{
    if tr.len() > 0 {
        let v = tr.last().0.spec_var();
        if 0 <= v < um.len() {
            lemma_restore_len(um.update(v, tr.last().1), tr.drop_last());
        } else {
            lemma_restore_len(um, tr.drop_last());
        }
    }
}

/// Overwriting an in-range entry while saving its old value on the trail
/// leaves the written-back table as it was.
pub proof fn lemma_restore_push(
    um: Seq<Option<UnitClause>>,
    tr: Seq<(Lit, Option<UnitClause>)>,
    l: Lit,
    newv: Option<UnitClause>,
)
    requires
        0 <= l.spec_var() < um.len(),
    ensures
        restore(um.update(l.spec_var(), newv), tr.push((l, um[l.spec_var()]))) == restore(um, tr),
{
    let v = l.spec_var();
    let um2 = um.update(v, newv);
    let tr2 = tr.push((l, um[v]));
    assert(tr2.last() == (l, um[v]));
    assert(tr2.drop_last() =~= tr);
    assert(um2.update(v, um[v]) =~= um);
}

/// Padding the table with unforced variables pads the written-back table
/// the same way, provided the trail stays inside the unpadded part.
pub proof fn lemma_restore_pad(
    um: Seq<Option<UnitClause>>,
    um2: Seq<Option<UnitClause>>,
    tr: Seq<(Lit, Option<UnitClause>)>,
)
    requires
        um.len() <= um2.len(),
        um2.subrange(0, um.len() as int) == um,
        forall|v: int| um.len() <= v < um2.len() ==> (#[trigger] um2[v]) is None,
        trail_vars_ok(tr, um.len() as int),
    ensures
        restore(um2, tr).len() == um2.len(),
        restore(um2, tr).subrange(0, um.len() as int) == restore(um, tr),
        forall|v: int| um.len() <= v < um2.len() ==> (#[trigger] restore(um2, tr)[v]) is None,
    decreases tr.len(),
{
    lemma_restore_len(um2, tr);
    lemma_restore_len(um, tr);
    if tr.len() == 0 {
        assert(restore(um2, tr).subrange(0, um.len() as int) =~= restore(um, tr));
    } else {
        let (l, p) = tr.last();
        let v = l.spec_var();
        assert(0 <= v < um.len()) by {
            assert(tr[tr.len() - 1] == tr.last());
        }
        let uma = um.update(v, p);
        let umb = um2.update(v, p);
        assert(umb.subrange(0, uma.len() as int) =~= uma);
        assert(forall|w: int| uma.len() <= w < umb.len() ==> (#[trigger] umb[w]) is None);
        assert(trail_vars_ok(tr.drop_last(), uma.len() as int)) by {
            assert(forall|t: int|
                0 <= t < tr.drop_last().len() ==> tr.drop_last()[t] == tr[t]);
        }
        lemma_restore_pad(uma, umb, tr.drop_last());
    }
}

/// Growing the unit table with unforced variables keeps what the trail
/// restores.
pub proof fn lemma_restores_to_pad(
    um: Seq<Option<UnitClause>>,
    um2: Seq<Option<UnitClause>>,
    tr: Seq<(Lit, Option<UnitClause>)>,
    um0: Seq<Option<UnitClause>>,
)
    requires
        restores_to(um, tr, um0),
        trail_vars_ok(tr, um.len() as int),
        um.len() <= um2.len(),
        um2.subrange(0, um.len() as int) == um,
        forall|v: int| um.len() <= v < um2.len() ==> (#[trigger] um2[v]) is None,
    ensures
        restores_to(um2, tr, um0),
        trail_vars_ok(tr, um2.len() as int),
{
    lemma_restore_pad(um, um2, tr);
    let r = restore(um, tr);
    let r2 = restore(um2, tr);
    assert(r2.subrange(0, um0.len() as int) =~= um0) by {
        assert forall|v: int| 0 <= v < um0.len() implies r2.subrange(0, um0.len() as int)[v]
            == um0[v] by {
            assert(r2[v] == r2.subrange(0, um.len() as int)[v]);
            assert(r[v] == r.subrange(0, um0.len() as int)[v]);
        }
    }
    assert forall|v: int| um0.len() <= v < r2.len() implies (#[trigger] r2[v]) is None by {
        if v < um.len() {
            assert(r2[v] == r2.subrange(0, um.len() as int)[v]);
        }
    }
}

/// Whether two literal sequences hold the same literals.
pub open spec fn same_lit_set(a: Seq<Lit>, b: Seq<Lit>) -> bool {
    forall|x: Lit| a.contains(x) <==> b.contains(x)
}

/// Whether `c` is the canonical form of the clause `of`: sorted, free of
/// duplicates, with the same literals. By `lemma_sorted_set_unique` exactly
/// one sequence is.
pub open spec fn is_canon(c: Seq<Lit>, of: Seq<Lit>) -> bool {
    strictly_sorted(c) && same_lit_set(c, of)
}

/// Whether the record with these literals cannot count another copy.
pub open spec fn stored_at_max(bs: Seq<HashBucket>, buf: Seq<Lit>, lits: Seq<Lit>) -> bool {
    exists|i: int, j: int|
        0 <= i < bs.len() && 0 <= j < bs[i].clauses@.len() && lits_of(
            (#[trigger] bs[i].clauses@[j]).lits,
            buf,
        ) == lits && bs[i].clauses@[j].ref_count == u32::MAX
}

/// Whether the store has a bucket with this fingerprint.
pub open spec fn bucket_with_hash(bs: Seq<HashBucket>, hash: u64) -> bool {
    exists|i: int| 0 <= i < bs.len() && (#[trigger] bs[i]).hash == hash
}

/// Whether `id` names a clause of the store `bs` or a global unit of the
/// table `um`.
pub open spec fn id_present_in(bs: Seq<HashBucket>, um: Seq<Option<UnitClause>>, id: u64) -> bool {
    stored_with_id_any(bs, id) || global_unit_with_id(um, id)
}

/// The evolving state of a RUP check, mathematically: the assignment (by
/// variable), the identifiers of the trace so far, and whether a conflict
/// has been reached.
pub ghost struct Prop {
    pub units: Map<int, UnitClause>,
    pub ids: Seq<u64>,
    pub conflict: bool,
}

/// The unit table as a partial assignment by variable.
pub open spec fn units_map(um: Seq<Option<UnitClause>>) -> Map<int, UnitClause> {
    Map::new(|v: int| 0 <= v < um.len() && um[v] is Some, |v: int| um[v]->Some_0)
}

/// The identifiers of a trace, in trace order.
pub open spec fn trace_ids_of(tr: Seq<TraceItem>) -> Seq<u64> {
    tr.map_values(|t: TraceItem| t.id)
}

/// What an assignment says about a literal: whether it is satisfied, and
/// the entry that forces its variable.
pub open spec fn lit_status(st: Prop, l: Lit) -> Option<(bool, UnitClause)> {
    if st.units.contains_key(l.spec_var()) {
        let u = st.units[l.spec_var()];
        Some(((u.value != l.spec_is_negative()), u))
    } else {
        None
    }
}

/// The effect of visiting one falsified literal of a candidate clause: a
/// variable still forced by a stored unit clause is re-sourced to a fresh
/// trace entry naming that unit; other sources leave the state unchanged.
pub open spec fn scan_lit(st: Prop, l: Lit) -> Prop {
    match lit_status(st, l) {
        Some((sat, u)) => if !sat {
            match u.id {
                UnitId::Global(g) => Prop {
                    units: st.units.insert(
                        l.spec_var(),
                        UnitClause {
                            value: l.spec_is_negative(),
                            id: UnitId::TracePos(st.ids.len() as usize),
                        },
                    ),
                    ids: st.ids.push(g),
                    conflict: st.conflict,
                },
                _ => st,
            }
        } else {
            st
        },
        None => st,
    }
}

/// The outcome of scanning a candidate clause's literals: the state after
/// the visited falsified literals, whether a satisfied literal stopped the
/// scan, and the count and last of the unassigned literals seen.
pub ghost struct ScanOut {
    pub st: Prop,
    pub satisfied: bool,
    pub n_unassigned: nat,
    pub ulit: Lit,
}

/// Scans the literals of a candidate clause from position `k`, stopping at
/// the first satisfied literal.
pub open spec fn scan_clause(lits: Seq<Lit>, k: int, st: Prop, n: nat, ulit: Lit) -> ScanOut
    decreases lits.len() - k,
{
    if k < 0 || k >= lits.len() {
        ScanOut { st, satisfied: false, n_unassigned: n, ulit }
    } else {
        let l = lits[k];
        match lit_status(st, l) {
            Some((sat, u)) => if sat {
                ScanOut { st, satisfied: true, n_unassigned: n, ulit }
            } else {
                scan_clause(lits, k + 1, scan_lit(st, l), n, ulit)
            },
            None => scan_clause(lits, k + 1, st, (n + 1) as nat, l),
        }
    }
}

/// The effect of one candidate record: a satisfied record changes nothing
/// more; a fully falsified record is the conflict; a record with exactly
/// one unassigned literal propagates it; a record with two or more
/// unassigned literals is skipped.
pub open spec fn apply_candidate(c: Clause, buf: Seq<Lit>, st: Prop) -> Prop {
    let out = scan_clause(lits_of(c.lits, buf), 0, st, 0, Lit { code: 0 });
    if out.satisfied {
        out.st
    } else if out.n_unassigned == 0 {
        Prop { units: out.st.units, ids: out.st.ids.push(c.id), conflict: true }
    } else if out.n_unassigned == 1 {
        Prop {
            units: out.st.units.insert(
                out.ulit.spec_var(),
                UnitClause {
                    value: !out.ulit.spec_is_negative(),
                    id: UnitId::TracePos(out.st.ids.len() as usize),
                },
            ),
            ids: out.st.ids.push(c.id),
            conflict: false,
        }
    } else {
        out.st
    }
}

/// Applies a bucket's candidate records in order, from index `j`, stopping
/// at a conflict.
pub open spec fn apply_bucket(cs: Seq<Clause>, buf: Seq<Lit>, j: int, st: Prop) -> Prop
    decreases cs.len() - j,
{
    if st.conflict || j < 0 || j >= cs.len() {
        st
    } else {
        apply_bucket(cs, buf, j + 1, apply_candidate(cs[j], buf, st))
    }
}

/// The index of the bucket with fingerprint `h`, searched from `i`; -1 when
/// there is none.
pub open spec fn bucket_index(bs: Seq<HashBucket>, h: u64, i: int) -> int
    decreases bs.len() - i,
{
    if i < 0 || i >= bs.len() {
        -1
    } else if bs[i].hash == h {
        i
    } else {
        bucket_index(bs, h, i + 1)
    }
}

/// Unit propagation along the fingerprints from index `hi`: each
/// fingerprint's bucket is applied in order until a conflict; a fingerprint
/// without a bucket, reached before any conflict, is the error.
pub open spec fn propagate(
    bs: Seq<HashBucket>,
    buf: Seq<Lit>,
    hashes: Seq<u64>,
    hi: int,
    st: Prop,
) -> Result<Prop, u64>
    decreases hashes.len() - hi,
{
    if st.conflict || hi < 0 || hi >= hashes.len() {
        Ok(st)
    } else {
        let bi = bucket_index(bs, hashes[hi], 0);
        if bi < 0 {
            Err(hashes[hi])
        } else {
            propagate(bs, buf, hashes, hi + 1, apply_bucket(bs[bi].clauses@, buf, 0, st))
        }
    }
}

/// The assignment that assumes the negation of every candidate literal
/// from position `k` on.
pub open spec fn assume_negation(lits: Seq<Lit>, k: int, units: Map<int, UnitClause>) -> Map<
    int,
    UnitClause,
>
    decreases lits.len() - k,
{
    if k < 0 || k >= lits.len() {
        units
    } else {
        assume_negation(
            lits,
            k + 1,
            units.insert(
                lits[k].spec_var(),
                UnitClause { value: lits[k].spec_is_negative(), id: UnitId::InClause },
            ),
        )
    }
}

/// The state a RUP check of the candidate `lits` starts from, given the
/// checker at entry.
pub open spec fn start_prop(c: Checker, lits: Seq<Lit>) -> Prop {
    Prop {
        units: assume_negation(lits, 0, units_map(c.unit_clauses@)),
        ids: Seq::empty(),
        conflict: false,
    }
}

/// What a RUP check of `lits` against `hashes` must return, given the
/// checker at entry: the result of the propagation above.
pub open spec fn rup_outcome(c: Checker, lits: Seq<Lit>, hashes: Seq<u64>) -> Result<Prop, u64> {
    propagate(c.clauses@, c.literal_buffer@, hashes, 0, start_prop(c, lits))
}

/// The current propagation state of a checker in mid-check.
pub open spec fn cur_prop(c: Checker, conflict: bool) -> Prop {
    Prop { units: units_map(c.unit_clauses@), ids: trace_ids_of(c.trace@), conflict }
}

/// Overwriting an in-range table entry inserts into the assignment.
pub proof fn lemma_units_map_update(um: Seq<Option<UnitClause>>, v: int, u: UnitClause)
    requires
        0 <= v < um.len(),
    ensures
        units_map(um.update(v, Some(u))) == units_map(um).insert(v, u),
{
    assert(units_map(um.update(v, Some(u))) =~= units_map(um).insert(v, u));
}

/// Growing the table with unforced variables leaves the assignment as it
/// was.
pub proof fn lemma_units_map_pad(um: Seq<Option<UnitClause>>, um2: Seq<Option<UnitClause>>)
    requires
        um.len() <= um2.len(),
        um2.subrange(0, um.len() as int) == um,
        forall|v: int| um.len() <= v < um2.len() ==> (#[trigger] um2[v]) is None,
    ensures
        units_map(um2) == units_map(um),
{
    assert forall|v: int| 0 <= v < um.len() implies um2[v] == um[v] by {
        assert(um[v] == um2.subrange(0, um.len() as int)[v]);
    }
    assert(units_map(um2) =~= units_map(um));
}

/// No bucket scanned up to `n` has the fingerprint: the search fails.
pub proof fn lemma_bucket_index_none(bs: Seq<HashBucket>, h: u64, i: int, n: int)
    requires
        0 <= i <= n == bs.len(),
        forall|k: int| i <= k < n ==> (#[trigger] bs[k]).hash != h,
    ensures
        bucket_index(bs, h, i) == -1,
    decreases n - i,
{
    if i < n {
        lemma_bucket_index_none(bs, h, i + 1, n);
    }
}

/// The first bucket with the fingerprint is the one the search finds.
pub proof fn lemma_bucket_index_found(bs: Seq<HashBucket>, h: u64, i: int, bi: int)
    requires
        0 <= i <= bi < bs.len(),
        bs[bi].hash == h,
        forall|k: int| i <= k < bi ==> (#[trigger] bs[k]).hash != h,
    ensures
        bucket_index(bs, h, i) == bi,
    decreases bi - i,
{
    if i < bi {
        lemma_bucket_index_found(bs, h, i + 1, bi);
    }
}

/// What one asymmetric-tautology step must do, stated for the canonical
/// clause `cl`: the propagation outcome decides between clause-not-found,
/// check-failed and success, and on success the clause is stored and an
/// `AtClause` step is emitted exactly when it was new.
#[verifier::opaque]
pub open spec fn at_step_effect(
    pre: Checker,
    post: Checker,
    r: Result<(), CheckerError>,
    cl: Seq<Lit>,
    hashes: Seq<u64>,
) -> bool {
    match rup_outcome(
        pre,
        cl,
        hashes,
    ) {
        Err(h) => {
&&& (r matches Err(e) && e == (CheckerError::ClauseNotFound {
    step: pre.step,
    hash: h,
}))
&&& post.emitted == pre.emitted
&&& post.clauses == pre.clauses
&&& post.literal_buffer == pre.literal_buffer
&&& (forall|v: int| post.unit_at(v) == pre.unit_at(v))
        },
        Ok(stf) => if !stf.conflict {
&&& (r matches Err(e) && (e matches CheckerError::ClauseCheckFailed {
    step,
    clause: c2,
} && step == pre.step && c2@ == cl))
&&& post.emitted == pre.emitted
&&& post.clauses == pre.clauses
&&& (forall|v: int| post.unit_at(v) == pre.unit_at(v))
        } else {
&&& (r matches Err(e) ==> e matches CheckerError::CounterOverflow {
    ..
})
&&& r is Ok ==> {
    &&& (cl.len() >= 2 ==> {
        &&& post.counts(cl) == pre.counts(cl) + 1
        &&& (forall|l2: Seq<Lit>|
            l2 != cl ==> #[trigger] post.counts(l2) == pre.counts(l2))
        &&& (forall|v: int| post.unit_at(v) == pre.unit_at(v))
        &&& (pre.counts(cl) == 0 ==> post.emitted@.len()
            == pre.emitted@.len() + 1 && (post.emitted@.last() matches CheckedProofStep::AtClause {
            id,
            clause: c2,
            propagations,
        } && id == pre.next_clause_id && c2@ == cl
            && propagations@ == stf.ids))
        &&& (pre.counts(cl) > 0 ==> post.emitted == pre.emitted)
    })
    &&& (cl.len() == 1 ==> post.clauses == pre.clauses
        && match pre.spec_lit_value(cl[0]) {
        None => {
            &&& post.emitted@.len() == pre.emitted@.len() + 1
            &&& (post.emitted@.last()
                matches CheckedProofStep::AtClause {
                id,
                clause: c2,
                propagations,
            } && id == pre.next_clause_id && c2@ == cl
                && propagations@ == stf.ids)
            &&& post.unit_at(cl[0].spec_var()) == Some(
                UnitClause {
                    value: !cl[0].spec_is_negative(),
                    id: UnitId::Global(pre.next_clause_id),
                },
            )
        },
        Some((sat, u)) => if sat {
            post.emitted == pre.emitted && (forall|v: int| post.unit_at(v) == pre.unit_at(v))
        } else {
            post.unsat && post.emitted@.len() == pre.emitted@.len() + 1
        },
    })
    &&& (cl.len() == 0 ==> post.unsat)
}
        },
    }
}

/// What one deletion step must do, stated for the canonical clause `cl`:
/// a present long clause loses one copy, with a `DeleteClause` step emitted
/// exactly when the last copy went; anything else is an invalid deletion
/// that changes nothing.
pub open spec fn delete_step_effect(
    pre: Checker,
    post: Checker,
    r: Result<(), CheckerError>,
    cl: Seq<Lit>,
) -> bool {
    if cl.len() >= 2 && pre.counts(cl)
        > 0 {
        &&& r is Ok
        &&& post.unsat == pre.unsat
        &&& post.next_clause_id == pre.next_clause_id
        &&& post.unit_conflict == pre.unit_conflict
        &&& post.counts(cl) + 1 == pre.counts(cl)
        &&& (forall|l2: Seq<Lit>|
l2 != cl ==> #[trigger] post.counts(l2) == pre.counts(
    l2,
))
        &&& post.unit_clauses == pre.unit_clauses
        &&& (pre.counts(cl) > 1 ==> post.emitted == pre.emitted)
        &&& (pre.counts(cl) == 1 ==> post.emitted@.len() == pre.emitted@.len() + 1 && (post.emitted@.last()
matches CheckedProofStep::DeleteClause { id, clause: c2 } && c2@ == cl
&& stored_with_id(
pre.clauses@,
pre.literal_buffer@,
cl,
id,
        )))
    } else {
        &&& (r matches Err(e) && (e matches CheckerError::InvalidDelete {
step,
clause: c2,
        } && step == pre.step && c2@ == cl))
        &&& post == pre
    }
}

/// What storing one justified unit clause does: the unit's single-
/// fingerprint RUP check reaches a conflict, and the unit is stored, with
/// an `AtClause` step emitted exactly when the unit was new.
pub open spec fn unit_effect(pre: Checker, post: Checker, l: Lit, h: u64) -> bool {
    match rup_outcome(pre, seq![l], seq![h]) {
        Err(_) => false,
        Ok(stf) => {
            &&& stf.conflict
            &&& post.clauses == pre.clauses
            &&& post.literal_buffer == pre.literal_buffer
            &&& match pre.spec_lit_value(l) {
                Some((sat, u)) => if sat {
                    &&& post.emitted == pre.emitted
                    &&& (forall|v: int| post.unit_at(v) == pre.unit_at(v))
                    &&& post.next_clause_id == pre.next_clause_id
                    &&& post.unsat == pre.unsat
                    &&& post.unit_conflict == pre.unit_conflict
                } else {
                    &&& (u.id matches UnitId::Global(g) && post.unit_conflict == Some(
                        (g, pre.next_clause_id),
                    ))
                    &&& post.unsat
                    &&& post.next_clause_id == pre.next_clause_id + 1
                    &&& (forall|v: int| post.unit_at(v) == pre.unit_at(v))
                    &&& post.emitted@.len() == pre.emitted@.len() + 1
                    &&& (post.emitted@.last() matches CheckedProofStep::AtClause {
                        id,
                        clause,
                        propagations,
                    } && id == pre.next_clause_id && clause@ == seq![l] && propagations@
                        == stf.ids)
                },
                None => {
                    &&& post.next_clause_id == pre.next_clause_id + 1
                    &&& post.unsat == pre.unsat
                    &&& post.unit_conflict == pre.unit_conflict
                    &&& post.unit_at(l.spec_var()) == Some(
                        UnitClause {
                            value: !l.spec_is_negative(),
                            id: UnitId::Global(pre.next_clause_id),
                        },
                    )
                    &&& (forall|v: int| v != l.spec_var() ==> post.unit_at(v) == pre.unit_at(v))
                    &&& post.emitted@.len() == pre.emitted@.len() + 1
                    &&& (post.emitted@.last() matches CheckedProofStep::AtClause {
                        id,
                        clause,
                        propagations,
                    } && id == pre.next_clause_id && clause@ == seq![l] && propagations@
                        == stf.ids)
                },
            }
        },
    }
}

/// Every unit of the list applied in order, through the chain of states
/// `cs`.
pub open spec fn units_applied(cs: Seq<Checker>, units: Seq<(Lit, u64)>) -> bool {
    &&& cs.len() == units.len() + 1
    &&& forall|k: int|
        0 <= k < units.len() ==> unit_effect(cs[k], cs[k + 1], (#[trigger] units[k]).0, units[k].1)
}

/// What adding one input-formula clause does: nothing once the formula is
/// unsatisfiable, else exactly one checked step is emitted describing the
/// clause's canonical form.
#[verifier::opaque]
pub open spec fn add_clause_effect(pre: Checker, post: Checker, clause: Seq<Lit>) -> bool {
    if pre.unsat {
        post == pre
    } else {
        &&& post.step == pre.step
        &&& post.emitted@.len() == pre.emitted@.len() + 1
        &&& post.emitted@.subrange(0, pre.emitted@.len() as int) == pre.emitted@
        &&& match post.emitted@.last() {
    CheckedProofStep::AddClause { id, clause: cl } => {
        &&& strictly_sorted(cl@)
        &&& same_lit_set(cl@, clause)
        &&& id == pre.next_clause_id
        &&& post.next_clause_id == pre.next_clause_id + 1
        &&& (cl@.len() >= 2 ==> post.counts(cl@) == pre.counts(cl@)
            + 1 && pre.counts(cl@) == 0 && post.unsat == pre.unsat && post.unit_clauses == pre.unit_clauses && (forall|
            l2: Seq<Lit>,
        |
            l2 != cl@ ==> #[trigger] post.counts(l2) == pre.counts(
                l2,
            )))
        &&& (cl@.len() == 0 ==> post.unsat && post.clauses == pre.clauses && post.unit_clauses == pre.unit_clauses && post.unit_conflict == pre.unit_conflict)
        &&& (cl@.len() == 1 ==> post.clauses == pre.clauses && match
            pre.spec_lit_value(cl@[0]) {
            None => {
                &&& post.unsat == pre.unsat
                &&& post.unit_conflict == pre.unit_conflict
                &&& post.unit_at(cl@[0].spec_var()) == Some(
                    UnitClause {
                        value: !cl@[0].spec_is_negative(),
                        id: UnitId::Global(id),
                    },
                )
                &&& forall|v: int|
                    v != cl@[0].spec_var() ==> post.unit_at(v) == pre.unit_at(v)
            },
            Some((sat, u)) => !sat && (u.id matches UnitId::Global(g) && post.unit_conflict == Some((g, id))) && post.unsat && post.unit_clauses == pre.unit_clauses,
        })
    },
    CheckedProofStep::DuplicatedClause { id, same_as_id, clause: cl } => {
        &&& strictly_sorted(cl@)
        &&& same_lit_set(cl@, clause)
        &&& id == pre.next_clause_id
        &&& post.next_clause_id == pre.next_clause_id + 1
        &&& same_as_id < pre.next_clause_id
        &&& post.unsat == pre.unsat
        &&& post.unit_clauses == pre.unit_clauses
        &&& post.unit_conflict == pre.unit_conflict
        &&& cl@.len() >= 1
        &&& (cl@.len() >= 2 ==> post.counts(cl@) == pre.counts(cl@)
            + 1 && pre.counts(cl@) > 0 && (forall|l2: Seq<Lit>|
            l2 != cl@ ==> #[trigger] post.counts(l2) == pre.counts(
                l2,
            )))
        &&& (cl@.len() == 1 ==> post.clauses == pre.clauses && (pre.spec_lit_value(cl@[0]) matches Some((sat, u)) && sat && u.id
            == UnitId::Global(same_as_id)))
    },
    _ => false,
        }
    }
}

/// Every clause of a formula added in order, through the chain of states
/// `cs`.
pub open spec fn formula_applied(cs: Seq<Checker>, formula: Seq<Vec<Lit>>) -> bool {
    &&& cs.len() == formula.len() + 1
    &&& forall|k: int|
        0 <= k < formula.len() ==> add_clause_effect(cs[k], cs[k + 1], (#[trigger] formula[k])@)
}

/// Whether two checkers differ at most in the proof-step counter.
pub open spec fn eq_mod_step(a: Checker, b: Checker) -> bool {
    &&& a.next_clause_id == b.next_clause_id
    &&& a.literal_buffer == b.literal_buffer
    &&& a.garbage_size == b.garbage_size
    &&& a.clauses == b.clauses
    &&& a.unit_clauses == b.unit_clauses
    &&& a.trail == b.trail
    &&& a.unsat == b.unsat
    &&& a.trace == b.trace
    &&& a.trace_edges == b.trace_edges
    &&& a.trace_ids == b.trace_ids
    &&& a.emitted == b.emitted
    &&& a.unit_conflict == b.unit_conflict
}

/// What applying one decoded proof step returns and does, by the step's
/// kind.
pub open spec fn step_effect(
    pre: Checker,
    post: Checker,
    r: Result<(), CheckerError>,
    stv: ProofStepView,
) -> bool {
    match stv {
        ProofStepView::AtClause { clause, propagation_hashes } => forall|cl: Seq<Lit>|
            #[trigger] is_canon(cl, clause) ==> at_step_effect(pre, post, r, cl, propagation_hashes),
        ProofStepView::DeleteClause(clause) => forall|cl: Seq<Lit>|
            #[trigger] is_canon(cl, clause) ==> delete_step_effect(pre, post, r, cl),
        ProofStepView::UnitClauses(units) => if r is Ok {
            exists|cs: Seq<Checker>|
                units_applied(cs, units) && cs[0] == pre && cs[units.len() as int] == post
        } else {
            true
        },
    }
}

/// One link of a proof run: the step counter advances by one, then the
/// decoded step applies successfully.
pub open spec fn proof_step_link(a: Checker, b: Checker, stv: ProofStepView) -> bool {
    exists|mid: Checker|
        eq_mod_step(mid, a) && mid.step == a.step + 1 && step_effect(mid, b, Ok(()), stv)
}

/// The bytes decode to exactly these steps, one after another, from `pos`
/// to `end`.
pub open spec fn decodes_to(s: Seq<u8>, pos: int, stvs: Seq<ProofStepView>, end: int) -> bool
    decreases stvs.len(),
{
    if stvs.len() == 0 {
        end == pos
    } else {
        match dec_step(s, pos) {
            Ok((stv, p)) => stv == stvs[0] && decodes_to(s, p, stvs.drop_first(), end),
            Err(_) => false,
        }
    }
}

/// A run of the checker: each consecutive pair of states is one applied
/// step.
pub open spec fn proof_run(cs: Seq<Checker>, stvs: Seq<ProofStepView>) -> bool {
    &&& cs.len() == stvs.len() + 1
    &&& forall|k: int|
        0 <= k < stvs.len() ==> proof_step_link(cs[k], cs[k + 1], #[trigger] stvs[k])
}

/// Decoding one more step extends what the bytes decode to.
pub proof fn lemma_decodes_to_push(
    s: Seq<u8>,
    pos: int,
    stvs: Seq<ProofStepView>,
    end: int,
    x: ProofStepView,
    end2: int,
)
    requires
        decodes_to(s, pos, stvs, end),
        dec_step(s, end) == Ok::<(ProofStepView, int), DecodeError>((x, end2)),
    ensures
        decodes_to(s, pos, stvs.push(x), end2),
    decreases stvs.len(),
{
    if stvs.len() == 0 {
        assert(stvs.push(x).drop_first() =~= Seq::<ProofStepView>::empty());
        assert(stvs.push(x)[0] == x);
        assert(decodes_to(s, end2, Seq::<ProofStepView>::empty(), end2));
        assert(decodes_to(s, pos, stvs.push(x), end2));
    } else {
        assert(stvs.push(x).drop_first() =~= stvs.drop_first().push(x));
        match dec_step(s, pos) {
            Ok((stv, p)) => {
                lemma_decodes_to_push(s, p, stvs.drop_first(), end, x, end2);
            },
            Err(_) => {
                assert(false);
            },
        }
    }
}

/// The unassigned literal an executable scan remembers, as the spec scan
/// carries it.
pub open spec fn opt_lit(o: Option<Lit>) -> Lit {
    match o {
        Some(l) => l,
        None => Lit { code: 0 },
    }
}

/// What the mid-check assignment says about a literal is what the checker's
/// table says.
pub proof fn lemma_lit_status(c: Checker, conflict: bool, l: Lit)
    ensures
        lit_status(cur_prop(c, conflict), l) == c.spec_lit_value(l),
{
    let m = units_map(c.unit_clauses@);
    if 0 <= l.spec_var() < c.unit_clauses@.len() && c.unit_clauses@[l.spec_var()] is Some {
        assert(m.contains_key(l.spec_var()));
        assert(m[l.spec_var()] == c.unit_clauses@[l.spec_var()]->Some_0);
    } else {
        assert(!m.contains_key(l.spec_var()));
    }
}

/// The fields a RUP check never touches, compared between the checker at
/// entry (`a`) and during the check (`b`).
pub open spec fn check_frames(a: Checker, b: Checker) -> bool {
    &&& b.clauses == a.clauses
    &&& b.literal_buffer == a.literal_buffer
    &&& b.garbage_size == a.garbage_size
    &&& b.next_clause_id == a.next_clause_id
    &&& b.step == a.step
    &&& b.unsat == a.unsat
    &&& b.unit_conflict == a.unit_conflict
    &&& b.emitted == a.emitted
}

/// The unit table and trail during a RUP check: the trail restores the
/// table of entry, trail variables are in range, and every entry is a
/// global unit known at entry, a trace position inside the trace, or an
/// assumption from the candidate clause.
pub open spec fn check_units_ok(b: Checker, um0: Seq<Option<UnitClause>>) -> bool {
    &&& restores_to(b.unit_clauses@, b.trail@, um0)
    &&& trail_vars_ok(b.trail@, b.unit_clauses@.len() as int)
    &&& forall|v: int|
        0 <= v < b.unit_clauses@.len() ==> match #[trigger] b.unit_clauses@[v] {
            Some(u) => match u.id {
                UnitId::Global(g) => global_unit_with_id(um0, g),
                UnitId::TracePos(p) => p < b.trace@.len(),
                UnitId::InClause => true,
            },
            None => true,
        }
}

/// Whether trace entry `k`'s edges name entry `m`.
pub open spec fn edge_hits(tr: Seq<TraceItem>, te: Seq<usize>, k: int, m: int) -> bool {
    exists|e: int|
        0 <= e < te.len() && tr[k].edge_start <= e < tr[k].edge_end && (#[trigger] te[e]) == m
}

/// The trace during a RUP check: every entry names a clause present at
/// entry, all edges lie inside the trace, and every entry's edges point to
/// strictly earlier entries.
pub open spec fn trace_ok(b: Checker, s0: Checker, um0: Seq<Option<UnitClause>>) -> bool {
    &&& forall|k: int|
        0 <= k < b.trace@.len() ==> id_present_in(
            s0.clauses@,
            um0,
            (#[trigger] b.trace@[k]).id,
        )
    &&& forall|e: int|
        0 <= e < b.trace_edges@.len() ==> (#[trigger] b.trace_edges@[e]) < b.trace@.len()
    &&& forall|k: int|
        0 <= k < b.trace@.len() ==> (#[trigger] b.trace@[k]).edge_start <= b.trace@[k].edge_end
            <= b.trace_edges@.len()
    &&& forall|k: int, e: int|
        0 <= k < b.trace@.len() && (#[trigger] b.trace@[k]).edge_start <= e
            < b.trace@[k].edge_end ==> (#[trigger] b.trace_edges@[e]) < k
}

/// Whether some stored clause carries this identifier.
pub open spec fn stored_with_id_any(bs: Seq<HashBucket>, id: u64) -> bool {
    exists|i: int, j: int|
        0 <= i < bs.len() && 0 <= j < bs[i].clauses@.len() && (#[trigger] bs[i].clauses@[j]).id
            == id
}

/// Whether some global unit-table entry carries this identifier.
pub open spec fn global_unit_with_id(units: Seq<Option<UnitClause>>, id: u64) -> bool {
    exists|v: int|
        0 <= v < units.len() && ((#[trigger] units[v]) matches Some(u) && u.id == UnitId::Global(
            id,
        ))
}

} // verus!
