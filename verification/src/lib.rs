//! A checker for unsatisfiability proofs of CNF formulas.
//!
//! The checker maintains the current formula as a multiset of clauses and
//! verifies each proof step by reverse unit propagation (RUP): a clause is
//! accepted when unit propagation on the formula extended with the clause's
//! negated literals derives a conflict. Checked steps are recorded with
//! stable clause identifiers and resolved propagation chains, so that a
//! downstream consumer can transcribe the proof into another certificate
//! format.

pub mod checker;
pub mod codec;
pub mod lit;
pub mod store;
