//! The binary proof format.
//!
//! A proof is a sequence of steps. Every integer in the format is written as
//! a variable-length unsigned number, seven bits per byte, least significant
//! group first; the high bit of a byte says that another byte follows. A step
//! is a tag followed by its payload: tag 0 is the addition of an asymmetric
//! tautology (a literal list and a list of propagation fingerprints), tag 1
//! is a list of unit clauses (pairs of a literal and a fingerprint), tag 2 is
//! a clause deletion (a literal list). A literal list and a fingerprint list
//! are a count followed by that many numbers.
//!
//! The encoding of every value is given by spec functions, the decoders are
//! proved to match them exactly, and a round-trip law shows that decoding an
//! encoded step sequence yields the original steps.

use vstd::prelude::*;

use crate::lit::Lit;

verus! {

/// Why a proof could not be decoded: the bytes ended inside a step, or a
/// number or tag in them makes no sense.
#[derive(Clone, Copy, PartialEq, Eq, Structural, Debug)]
pub enum DecodeError {
    Eof,
    Corrupt,
}

/// The encoding of one number: seven bits per byte, least significant group
/// first, high bit set on every byte but the last.
pub open spec fn enc_u64(v: u64) -> Seq<u8>
    decreases v,
{
    if v < 128 {
        seq![v as u8]
    } else {
        seq![(v % 128 + 128) as u8] + enc_u64(v / 128)
    }
}

/// Whether every byte from `pos` on has its high bit set, so that no number
/// ends before the bytes do.
pub open spec fn all_cont(s: Seq<u8>, pos: int) -> bool {
    forall|i: int| pos <= i < s.len() ==> s[i] >= 128
}

/// The unbounded value of the number starting at `pos`.
pub open spec fn raw_val(s: Seq<u8>, pos: int) -> nat
    decreases s.len() - pos,
{
    if pos < 0 || pos >= s.len() {
        0
    } else if s[pos] < 128 {
        s[pos] as nat
    } else {
        (s[pos] - 128) as nat + 128 * raw_val(s, pos + 1)
    }
}

/// How many bytes the number starting at `pos` occupies.
pub open spec fn raw_len(s: Seq<u8>, pos: int) -> int
    decreases s.len() - pos,
{
    if pos < 0 || pos >= s.len() {
        0
    } else if s[pos] < 128 {
        1
    } else {
        1 + raw_len(s, pos + 1)
    }
}

/// The number decoded at `pos`: its value and the position after it, or the
/// exact reason decoding fails there.
pub open spec fn dec_u64(s: Seq<u8>, pos: int) -> Result<(u64, int), DecodeError> {
    if all_cont(s, pos) {
        Err(DecodeError::Eof)
    } else if raw_val(s, pos) > u64::MAX {
        Err(DecodeError::Corrupt)
    } else {
        Ok((raw_val(s, pos) as u64, pos + raw_len(s, pos)))
    }
}

/// Appends the encoding of `value` to `target`.
pub fn write_u64(target: &mut Vec<u8>, value: u64)
    ensures
        final(target)@ == old(target)@ + enc_u64(value),
    decreases value,
{
    if value < 128 {
        target.push(value as u8);
        proof {
            assert(target@ =~= old(target)@ + enc_u64(value));
        }
    } else {
        target.push((value % 128 + 128) as u8);
        let ghost mid = target@;
        write_u64(target, value / 128);
        proof {
            assert(target@ =~= old(target)@ + enc_u64(value));
        }
    }
}

/// Reads one number at `pos`, matching `dec_u64` exactly.
pub fn read_u64(source: &Vec<u8>, pos: usize) -> (r: Result<(u64, usize), DecodeError>)
    requires
        pos <= source@.len(),
    ensures
        match r {
            Ok((v, next)) => dec_u64(source@, pos as int) == Ok::<(u64, int), DecodeError>(
                (v, next as int),
            ) && pos < next <= source@.len(),
            Err(e) => dec_u64(source@, pos as int) == Err::<(u64, int), DecodeError>(e),
        },
    decreases source@.len() - pos,
{
    if pos == source.len() {
        return Err(DecodeError::Eof);
    }
    let b = source[pos];
    if b < 128 {
        proof {
            assert(!all_cont(source@, pos as int));
        }
        Ok((b as u64, pos + 1))
    } else {
        match read_u64(source, pos + 1) {
            Err(e) => {
                proof {
                    let s = source@;
                    let p = pos as int;
                    if e == DecodeError::Eof {
                        assert(all_cont(s, p));
                    } else {
                        assert(!all_cont(s, p)) by {
                            assert(!all_cont(s, p + 1));
                            let w = choose|i: int| p + 1 <= i < s.len() && s[i] < 128;
                            assert(s[w] < 128);
                        }
                        assert(raw_val(s, p) > u64::MAX) by {
                            assert(raw_val(s, p + 1) > u64::MAX);
                            assert(raw_val(s, p) == (s[p] - 128) as nat + 128 * raw_val(s, p + 1));
                        }
                    }
                }
                Err(e)
            },
            Ok((hi, next)) => {
                proof {
                    let s = source@;
                    let p = pos as int;
                    assert(!all_cont(s, p)) by {
                        assert(!all_cont(s, p + 1));
                        let w = choose|i: int| p + 1 <= i < s.len() && s[i] < 128;
                        assert(s[w] < 128);
                    }
                    assert(raw_val(s, p) == (s[p] - 128) as nat + 128 * raw_val(s, p + 1));
                }
                let low: u64 = (b - 128) as u64;
                let wide: u128 = 128u128 * (hi as u128) + (low as u128);
                if wide > u64::MAX as u128 {
                    Err(DecodeError::Corrupt)
                } else {
                    Ok((wide as u64, next))
                }
            },
        }
    }
}

/// One decoded proof step, owning its literals and fingerprints.
#[derive(Clone, PartialEq, Eq, Debug)]
pub enum ProofStep {
    /// Addition of an asymmetric tautology, justified by the fingerprints of
    /// the clauses that propagate towards the conflict.
    AtClause { clause: Vec<Lit>, propagation_hashes: Vec<u64> },
    /// Unit clauses, each justified by a single propagating clause.
    UnitClauses(Vec<(Lit, u64)>),
    /// Deletion of a clause of the current formula.
    DeleteClause(Vec<Lit>),
}

/// The mathematical form of a proof step.
pub enum ProofStepView {
    AtClause { clause: Seq<Lit>, propagation_hashes: Seq<u64> },
    UnitClauses(Seq<(Lit, u64)>),
    DeleteClause(Seq<Lit>),
}

impl View for ProofStep {
    type V = ProofStepView;

    open spec fn view(&self) -> ProofStepView {
        match self {
            ProofStep::AtClause { clause, propagation_hashes } => ProofStepView::AtClause {
                clause: clause@,
                propagation_hashes: propagation_hashes@,
            },
            ProofStep::UnitClauses(units) => ProofStepView::UnitClauses(units@),
            ProofStep::DeleteClause(clause) => ProofStepView::DeleteClause(clause@),
        }
    }
}

/// Tag of an asymmetric-tautology step.
pub const CODE_AT_CLAUSE: u64 = 0;

/// Tag of a unit-clause step.
pub const CODE_UNIT_CLAUSES: u64 = 1;

/// Tag of a deletion step.
pub const CODE_DELETE_CLAUSE: u64 = 2;

/// The concatenated encodings of a sequence of numbers.
pub open spec fn enc_codes(codes: Seq<u64>) -> Seq<u8>
    decreases codes.len(),
{
    if codes.len() == 0 {
        Seq::empty()
    } else {
        enc_u64(codes[0]) + enc_codes(codes.drop_first())
    }
}

/// The codes of a literal sequence, widened.
pub open spec fn lit_codes(lits: Seq<Lit>) -> Seq<u64> {
    lits.map_values(|l: Lit| l.code as u64)
}

/// The interleaved codes of a unit-clause list: each literal's code followed
/// by its fingerprint.
pub open spec fn unit_codes(units: Seq<(Lit, u64)>) -> Seq<u64>
    decreases units.len(),
{
    if units.len() == 0 {
        Seq::empty()
    } else {
        seq![units[0].0.code as u64, units[0].1] + unit_codes(units.drop_first())
    }
}

/// The encoding of a literal list: its length, then the codes.
pub open spec fn enc_lit_seq(lits: Seq<Lit>) -> Seq<u8> {
    enc_u64(lits.len() as u64) + enc_codes(lit_codes(lits))
}

/// The encoding of a fingerprint list: its length, then the fingerprints.
pub open spec fn enc_hash_seq(hashes: Seq<u64>) -> Seq<u8> {
    enc_u64(hashes.len() as u64) + enc_codes(hashes)
}

/// The encoding of a unit-clause list: its length, then the pairs.
pub open spec fn enc_unit_seq(units: Seq<(Lit, u64)>) -> Seq<u8> {
    enc_u64(units.len() as u64) + enc_codes(unit_codes(units))
}

/// The encoding of one proof step: its tag, then its payload.
pub open spec fn enc_step(v: ProofStepView) -> Seq<u8> {
    match v {
        ProofStepView::AtClause { clause, propagation_hashes } => enc_u64(CODE_AT_CLAUSE)
            + enc_lit_seq(clause) + enc_hash_seq(propagation_hashes),
        ProofStepView::UnitClauses(units) => enc_u64(CODE_UNIT_CLAUSES) + enc_unit_seq(units),
        ProofStepView::DeleteClause(clause) => enc_u64(CODE_DELETE_CLAUSE) + enc_lit_seq(clause),
    }
}

/// Joins a decoded prefix with the outcome of decoding the rest.
pub open spec fn res_prepend<T>(prefix: Seq<T>, r: Result<(Seq<T>, int), DecodeError>) -> Result<
    (Seq<T>, int),
    DecodeError,
> {
    match r {
        Ok((tail, q)) => Ok((prefix + tail, q)),
        Err(e) => Err(e),
    }
}

/// Decodes `n` literals starting at `pos`.
pub open spec fn dec_lits(s: Seq<u8>, pos: int, n: nat) -> Result<(Seq<Lit>, int), DecodeError>
    decreases n,
{
    if n == 0 {
        Ok((Seq::empty(), pos))
    } else {
        match dec_u64(s, pos) {
            Err(e) => Err(e),
            Ok((c, p)) => if c > u32::MAX {
                Err(DecodeError::Corrupt)
            } else {
                res_prepend(seq![Lit { code: c as u32 }], dec_lits(s, p, (n - 1) as nat))
            },
        }
    }
}

/// Decodes `n` fingerprints starting at `pos`.
pub open spec fn dec_hashes(s: Seq<u8>, pos: int, n: nat) -> Result<(Seq<u64>, int), DecodeError>
    decreases n,
{
    if n == 0 {
        Ok((Seq::empty(), pos))
    } else {
        match dec_u64(s, pos) {
            Err(e) => Err(e),
            Ok((h, p)) => res_prepend(seq![h], dec_hashes(s, p, (n - 1) as nat)),
        }
    }
}

/// Decodes `n` unit clauses starting at `pos`.
pub open spec fn dec_units(s: Seq<u8>, pos: int, n: nat) -> Result<
    (Seq<(Lit, u64)>, int),
    DecodeError,
>
    decreases n,
{
    if n == 0 {
        Ok((Seq::empty(), pos))
    } else {
        match dec_u64(s, pos) {
            Err(e) => Err(e),
            Ok((c, p)) => if c > u32::MAX {
                Err(DecodeError::Corrupt)
            } else {
                match dec_u64(s, p) {
                    Err(e) => Err(e),
                    Ok((h, p2)) => res_prepend(
                        seq![(Lit { code: c as u32 }, h)],
                        dec_units(s, p2, (n - 1) as nat),
                    ),
                }
            },
        }
    }
}

/// Decodes a literal list (length, then codes) starting at `pos`.
pub open spec fn dec_lit_seq(s: Seq<u8>, pos: int) -> Result<(Seq<Lit>, int), DecodeError> {
    match dec_u64(s, pos) {
        Err(e) => Err(e),
        Ok((n, p)) => dec_lits(s, p, n as nat),
    }
}

/// Decodes a fingerprint list starting at `pos`.
pub open spec fn dec_hash_seq(s: Seq<u8>, pos: int) -> Result<(Seq<u64>, int), DecodeError> {
    match dec_u64(s, pos) {
        Err(e) => Err(e),
        Ok((n, p)) => dec_hashes(s, p, n as nat),
    }
}

/// Decodes a unit-clause list starting at `pos`.
pub open spec fn dec_unit_seq(s: Seq<u8>, pos: int) -> Result<(Seq<(Lit, u64)>, int), DecodeError> {
    match dec_u64(s, pos) {
        Err(e) => Err(e),
        Ok((n, p)) => dec_units(s, p, n as nat),
    }
}

/// Decodes one proof step starting at `pos`: its view and the position after
/// it, or the exact reason decoding fails there.
pub open spec fn dec_step(s: Seq<u8>, pos: int) -> Result<(ProofStepView, int), DecodeError> {
    match dec_u64(s, pos) {
        Err(e) => Err(e),
        Ok((tag, p)) => if tag == CODE_AT_CLAUSE {
            match dec_lit_seq(s, p) {
                Err(e) => Err(e),
                Ok((clause, p2)) => match dec_hash_seq(s, p2) {
                    Err(e) => Err(e),
                    Ok((hashes, p3)) => Ok(
                        (
                            ProofStepView::AtClause {
                                clause: clause,
                                propagation_hashes: hashes,
                            },
                            p3,
                        ),
                    ),
                },
            }
        } else if tag == CODE_UNIT_CLAUSES {
            match dec_unit_seq(s, p) {
                Err(e) => Err(e),
                Ok((units, p2)) => Ok((ProofStepView::UnitClauses(units), p2)),
            }
        } else if tag == CODE_DELETE_CLAUSE {
            match dec_lit_seq(s, p) {
                Err(e) => Err(e),
                Ok((clause, p2)) => Ok((ProofStepView::DeleteClause(clause), p2)),
            }
        } else {
            Err(DecodeError::Corrupt)
        },
    }
}

/// The encoding of a number starting at `pos` decodes back to it, whatever
/// follows.
pub proof fn lemma_enc_u64_dec(s: Seq<u8>, pos: int, v: u64)
    requires
        0 <= pos,
        pos + enc_u64(v).len() <= s.len(),
        s.subrange(pos, pos + enc_u64(v).len()) == enc_u64(v),
    ensures
        dec_u64(s, pos) == Ok::<(u64, int), DecodeError>((v, pos + enc_u64(v).len())),
    decreases v,
{
    let e = enc_u64(v);
    assert(s[pos] == e[0]);
    if v < 128 {
        assert(!all_cont(s, pos));
        assert(raw_val(s, pos) == v);
        assert(raw_len(s, pos) == 1);
    } else {
        assert(s[pos] == v % 128 + 128);
        let e2 = enc_u64(v / 128);
        assert(s.subrange(pos + 1, pos + 1 + e2.len()) =~= e2) by {
            assert forall|i: int| 0 <= i < e2.len() implies s.subrange(
                pos + 1,
                pos + 1 + e2.len(),
            )[i] == e2[i] by {
                assert(s[pos + 1 + i] == e[1 + i]);
                assert(e[1 + i] == e2[i]);
            }
        }
        lemma_enc_u64_dec(s, pos + 1, v / 128);
        assert(!all_cont(s, pos)) by {
            assert(!all_cont(s, pos + 1));
            let w = choose|i: int| pos + 1 <= i < s.len() && s[i] < 128;
            assert(s[w] < 128);
        }
        assert(raw_val(s, pos) == (s[pos] - 128) as nat + 128 * raw_val(s, pos + 1));
        assert(raw_val(s, pos) == v % 128 + 128 * (v / 128));
        assert(raw_len(s, pos) == 1 + raw_len(s, pos + 1));
    }
}

/// Appending one code extends the concatenated encoding at the end.
pub proof fn lemma_enc_codes_push(codes: Seq<u64>, x: u64)
    ensures
        enc_codes(codes.push(x)) == enc_codes(codes) + enc_u64(x),
    decreases codes.len(),
{
    if codes.len() == 0 {
        assert(codes.push(x).drop_first() =~= Seq::<u64>::empty());
        assert(enc_codes(Seq::<u64>::empty()) == Seq::<u8>::empty());
        assert(enc_codes(codes.push(x)) == enc_u64(x) + Seq::<u8>::empty());
        assert(enc_codes(codes.push(x)) =~= enc_codes(codes) + enc_u64(x));
    } else {
        assert(codes.push(x).drop_first() =~= codes.drop_first().push(x));
        lemma_enc_codes_push(codes.drop_first(), x);
        assert(enc_codes(codes.push(x)) == enc_u64(codes[0]) + (enc_codes(codes.drop_first())
            + enc_u64(x)));
        assert(enc_codes(codes.push(x)) =~= enc_codes(codes) + enc_u64(x));
    }
}

/// Writes a literal list: its length, then the codes.
pub fn write_literals(target: &mut Vec<u8>, literals: &Vec<Lit>)
    ensures
        final(target)@ == old(target)@ + enc_lit_seq(literals@),
{
    let ghost base = target@;
    write_u64(target, literals.len() as u64);
    let mut i: usize = 0;
    while i < literals.len()
        invariant
            i <= literals@.len(),
            target@ == base + enc_u64(literals@.len() as u64) + enc_codes(
                lit_codes(literals@.take(i as int)),
            ),
        decreases literals@.len() - i,
    {
        write_u64(target, literals[i].code() as u64);
        proof {
            let c: u64 = literals@[i as int].code as u64;
            assert(lit_codes(literals@.take(i + 1)) =~= lit_codes(literals@.take(i as int)).push(
                c,
            ));
            lemma_enc_codes_push(lit_codes(literals@.take(i as int)), c);
            assert(target@ =~= base + enc_u64(literals@.len() as u64) + enc_codes(
                lit_codes(literals@.take(i + 1)),
            ));
        }
        i += 1;
    }
    proof {
        assert(literals@.take(literals@.len() as int) == literals@);
        assert(target@ =~= base + enc_lit_seq(literals@));
    }
}

/// Writes a fingerprint list: its length, then the fingerprints.
pub fn write_hashes(target: &mut Vec<u8>, hashes: &Vec<u64>)
    ensures
        final(target)@ == old(target)@ + enc_hash_seq(hashes@),
{
    let ghost base = target@;
    write_u64(target, hashes.len() as u64);
    let mut i: usize = 0;
    while i < hashes.len()
        invariant
            i <= hashes@.len(),
            target@ == base + enc_u64(hashes@.len() as u64) + enc_codes(hashes@.take(i as int)),
        decreases hashes@.len() - i,
    {
        write_u64(target, hashes[i]);
        proof {
            assert(hashes@.take(i + 1) =~= hashes@.take(i as int).push(hashes@[i as int]));
            lemma_enc_codes_push(hashes@.take(i as int), hashes@[i as int]);
            assert(target@ =~= base + enc_u64(hashes@.len() as u64) + enc_codes(
                hashes@.take(i + 1),
            ));
        }
        i += 1;
    }
    proof {
        assert(hashes@.take(hashes@.len() as int) == hashes@);
        assert(target@ =~= base + enc_hash_seq(hashes@));
    }
}

/// Appending one unit clause extends the interleaved code sequence by its
/// literal's code and its fingerprint.
pub proof fn lemma_unit_codes_push(units: Seq<(Lit, u64)>, u: (Lit, u64))
    ensures
        unit_codes(units.push(u)) == unit_codes(units).push(u.0.code as u64).push(u.1),
    decreases units.len(),
{
    if units.len() == 0 {
        assert(units.push(u).drop_first() =~= Seq::<(Lit, u64)>::empty());
        assert(unit_codes(Seq::<(Lit, u64)>::empty()) == Seq::<u64>::empty());
        assert(unit_codes(units.push(u)) == seq![u.0.code as u64, u.1] + Seq::<u64>::empty());
        assert(unit_codes(units.push(u)) =~= unit_codes(units).push(u.0.code as u64).push(u.1));
    } else {
        assert(units.push(u).drop_first() =~= units.drop_first().push(u));
        lemma_unit_codes_push(units.drop_first(), u);
        assert(unit_codes(units.push(u)) == seq![units[0].0.code as u64, units[0].1] + (unit_codes(
            units.drop_first(),
        ).push(u.0.code as u64).push(u.1)));
        assert(unit_codes(units.push(u)) =~= unit_codes(units).push(u.0.code as u64).push(u.1));
    }
}

/// Writes a unit-clause list: its length, then for each unit its literal's
/// code and its fingerprint.
pub fn write_unit_clauses(target: &mut Vec<u8>, units: &Vec<(Lit, u64)>)
    ensures
        final(target)@ == old(target)@ + enc_unit_seq(units@),
{
    let ghost base = target@;
    write_u64(target, units.len() as u64);
    let mut i: usize = 0;
    while i < units.len()
        invariant
            i <= units@.len(),
            target@ == base + enc_u64(units@.len() as u64) + enc_codes(
                unit_codes(units@.take(i as int)),
            ),
        decreases units@.len() - i,
    {
        let (l, h) = units[i];
        write_u64(target, l.code() as u64);
        write_u64(target, h);
        proof {
            let u = units@[i as int];
            let pre = unit_codes(units@.take(i as int));
            assert(units@.take(i + 1) =~= units@.take(i as int).push(u));
            lemma_unit_codes_push(units@.take(i as int), u);
            lemma_enc_codes_push(pre, u.0.code as u64);
            lemma_enc_codes_push(pre.push(u.0.code as u64), u.1);
            assert(target@ =~= base + enc_u64(units@.len() as u64) + enc_codes(
                unit_codes(units@.take(i + 1)),
            ));
        }
        i += 1;
    }
    proof {
        assert(units@.take(units@.len() as int) == units@);
        assert(target@ =~= base + enc_unit_seq(units@));
    }
}

/// Writes one proof step: its tag, then its payload.
pub fn write_step(target: &mut Vec<u8>, step: &ProofStep)
    ensures
        final(target)@ == old(target)@ + enc_step(step@),
{
    match step {
        ProofStep::AtClause { clause, propagation_hashes } => {
            write_u64(target, CODE_AT_CLAUSE);
            write_literals(target, clause);
            write_hashes(target, propagation_hashes);
            proof {
                assert(target@ =~= old(target)@ + enc_step(step@));
            }
        },
        ProofStep::UnitClauses(units) => {
            write_u64(target, CODE_UNIT_CLAUSES);
            write_unit_clauses(target, units);
            proof {
                assert(target@ =~= old(target)@ + enc_step(step@));
            }
        },
        ProofStep::DeleteClause(clause) => {
            write_u64(target, CODE_DELETE_CLAUSE);
            write_literals(target, clause);
            proof {
                assert(target@ =~= old(target)@ + enc_step(step@));
            }
        },
    }
}

/// Reads a literal list at `pos` into `literals`, matching `dec_lit_seq`
/// exactly; returns the position after the list.
pub fn read_literals(source: &Vec<u8>, pos: usize, literals: &mut Vec<Lit>) -> (r: Result<
    usize,
    DecodeError,
>)
    requires
        pos <= source@.len(),
    ensures
        match r {
            Ok(next) => dec_lit_seq(source@, pos as int) == Ok::<(Seq<Lit>, int), DecodeError>(
                (final(literals)@, next as int),
            ) && pos < next <= source@.len(),
            Err(e) => dec_lit_seq(source@, pos as int) == Err::<(Seq<Lit>, int), DecodeError>(e),
        },
{
    let ghost s = source@;
    literals.clear();
    let (n, start) = match read_u64(source, pos) {
        Ok(v) => v,
        Err(e) => {
            return Err(e);
        },
    };
    let mut p: usize = start;
    let mut i: u64 = 0;
    while i < n
        invariant
            i <= n,
            pos < p <= s.len(),
            s == source@,
            literals@.len() == i,
            dec_u64(s, pos as int) == Ok::<(u64, int), DecodeError>((n, start as int)),
            dec_lits(s, start as int, n as nat) == res_prepend(
                literals@,
                dec_lits(s, p as int, (n - i) as nat),
            ),
        decreases n - i,
    {
        let ghost lits_before = literals@;
        let ghost rem = (n - i) as nat;
        match read_u64(source, p) {
            Err(e) => {
                proof {
                    assert(dec_lits(s, p as int, rem) == Err::<(Seq<Lit>, int), DecodeError>(e));
                }
                return Err(e);
            },
            Ok((c, next)) => {
                if c > u32::MAX as u64 {
                    proof {
                        assert(dec_lits(s, p as int, rem) == Err::<(Seq<Lit>, int), DecodeError>(
                            DecodeError::Corrupt,
                        ));
                    }
                    return Err(DecodeError::Corrupt);
                }
                literals.push(Lit::from_code(c as u32));
                proof {
                    let l = Lit { code: c as u32 };
                    let tail = dec_lits(s, next as int, (rem - 1) as nat);
                    assert(dec_lits(s, p as int, rem) == res_prepend(seq![l], tail));
                    assert(literals@ == lits_before.push(l));
                    match tail {
                        Ok((t, q)) => {
                            assert(lits_before + (seq![l] + t) =~= lits_before.push(l) + t);
                        },
                        Err(_) => {},
                    }
                    assert(res_prepend(lits_before, res_prepend(seq![l], tail)) == res_prepend(
                        literals@,
                        tail,
                    ));
                }
                p = next;
                i += 1;
            },
        }
    }
    proof {
        assert(dec_lits(s, p as int, 0) == Ok::<(Seq<Lit>, int), DecodeError>(
            (Seq::empty(), p as int),
        ));
        assert(literals@ + Seq::<Lit>::empty() =~= literals@);
    }
    Ok(p)
}

/// Reads a fingerprint list at `pos` into `hashes`, matching `dec_hash_seq`
/// exactly; returns the position after the list.
pub fn read_hashes(source: &Vec<u8>, pos: usize, hashes: &mut Vec<u64>) -> (r: Result<
    usize,
    DecodeError,
>)
    requires
        pos <= source@.len(),
    ensures
        match r {
            Ok(next) => dec_hash_seq(source@, pos as int) == Ok::<(Seq<u64>, int), DecodeError>(
                (final(hashes)@, next as int),
            ) && pos < next <= source@.len(),
            Err(e) => dec_hash_seq(source@, pos as int) == Err::<(Seq<u64>, int), DecodeError>(e),
        },
{
    let ghost s = source@;
    hashes.clear();
    let (n, start) = match read_u64(source, pos) {
        Ok(v) => v,
        Err(e) => {
            return Err(e);
        },
    };
    let mut p: usize = start;
    let mut i: u64 = 0;
    while i < n
        invariant
            i <= n,
            pos < p <= s.len(),
            s == source@,
            hashes@.len() == i,
            dec_u64(s, pos as int) == Ok::<(u64, int), DecodeError>((n, start as int)),
            dec_hashes(s, start as int, n as nat) == res_prepend(
                hashes@,
                dec_hashes(s, p as int, (n - i) as nat),
            ),
        decreases n - i,
    {
        let ghost hs_before = hashes@;
        let ghost rem = (n - i) as nat;
        match read_u64(source, p) {
            Err(e) => {
                proof {
                    assert(dec_hashes(s, p as int, rem) == Err::<(Seq<u64>, int), DecodeError>(e));
                }
                return Err(e);
            },
            Ok((h, next)) => {
                hashes.push(h);
                proof {
                    let tail = dec_hashes(s, next as int, (rem - 1) as nat);
                    assert(dec_hashes(s, p as int, rem) == res_prepend(seq![h], tail));
                    assert(hashes@ == hs_before.push(h));
                    match tail {
                        Ok((t, q)) => {
                            assert(hs_before + (seq![h] + t) =~= hs_before.push(h) + t);
                        },
                        Err(_) => {},
                    }
                }
                p = next;
                i += 1;
            },
        }
    }
    proof {
        assert(dec_hashes(s, p as int, 0) == Ok::<(Seq<u64>, int), DecodeError>(
            (Seq::empty(), p as int),
        ));
        assert(hashes@ + Seq::<u64>::empty() =~= hashes@);
    }
    Ok(p)
}

/// Reads a unit-clause list at `pos` into `units`, matching `dec_unit_seq`
/// exactly; returns the position after the list.
pub fn read_unit_clauses(source: &Vec<u8>, pos: usize, units: &mut Vec<(Lit, u64)>) -> (r: Result<
    usize,
    DecodeError,
>)
    requires
        pos <= source@.len(),
    ensures
        match r {
            Ok(next) => dec_unit_seq(source@, pos as int) == Ok::<
                (Seq<(Lit, u64)>, int),
                DecodeError,
            >((final(units)@, next as int)) && pos < next <= source@.len(),
            Err(e) => dec_unit_seq(source@, pos as int) == Err::<
                (Seq<(Lit, u64)>, int),
                DecodeError,
            >(e),
        },
{
    let ghost s = source@;
    units.clear();
    let (n, start) = match read_u64(source, pos) {
        Ok(v) => v,
        Err(e) => {
            return Err(e);
        },
    };
    let mut p: usize = start;
    let mut i: u64 = 0;
    while i < n
        invariant
            i <= n,
            pos < p <= s.len(),
            s == source@,
            units@.len() == i,
            dec_u64(s, pos as int) == Ok::<(u64, int), DecodeError>((n, start as int)),
            dec_units(s, start as int, n as nat) == res_prepend(
                units@,
                dec_units(s, p as int, (n - i) as nat),
            ),
        decreases n - i,
    {
        let ghost us_before = units@;
        let ghost rem = (n - i) as nat;
        match read_u64(source, p) {
            Err(e) => {
                proof {
                    assert(dec_units(s, p as int, rem) == Err::<(Seq<(Lit, u64)>, int), DecodeError>(
                        e,
                    ));
                }
                return Err(e);
            },
            Ok((c, mid)) => {
                if c > u32::MAX as u64 {
                    proof {
                        assert(dec_units(s, p as int, rem) == Err::<
                            (Seq<(Lit, u64)>, int),
                            DecodeError,
                        >(DecodeError::Corrupt));
                    }
                    return Err(DecodeError::Corrupt);
                }
                match read_u64(source, mid) {
                    Err(e) => {
                        proof {
                            assert(dec_units(s, p as int, rem) == Err::<
                                (Seq<(Lit, u64)>, int),
                                DecodeError,
                            >(e));
                        }
                        return Err(e);
                    },
                    Ok((h, next)) => {
                        units.push((Lit::from_code(c as u32), h));
                        proof {
                            let u = (Lit { code: c as u32 }, h);
                            let tail = dec_units(s, next as int, (rem - 1) as nat);
                            assert(dec_units(s, p as int, rem) == res_prepend(seq![u], tail));
                            assert(units@ == us_before.push(u));
                            match tail {
                                Ok((t, q)) => {
                                    assert(us_before + (seq![u] + t) =~= us_before.push(u) + t);
                                },
                                Err(_) => {},
                            }
                        }
                        p = next;
                        i += 1;
                    },
                }
            },
        }
    }
    proof {
        assert(dec_units(s, p as int, 0) == Ok::<(Seq<(Lit, u64)>, int), DecodeError>(
            (Seq::empty(), p as int),
        ));
        assert(units@ + Seq::<(Lit, u64)>::empty() =~= units@);
    }
    Ok(p)
}

/// Decodes proof steps one at a time from a byte buffer.
pub struct Parser {}

impl Parser {
    /// Creates a parser.
    pub fn new() -> Parser {
        Parser {  }
    }

    /// Reads the proof step at `pos`, matching `dec_step` exactly; returns
    /// the step and the position after it.
    pub fn parse_step(&self, source: &Vec<u8>, pos: usize) -> (r: Result<
        (ProofStep, usize),
        DecodeError,
    >)
        requires
            pos <= source@.len(),
        ensures
            match r {
                Ok((step, next)) => dec_step(source@, pos as int) == Ok::<
                    (ProofStepView, int),
                    DecodeError,
                >((step@, next as int)) && pos < next <= source@.len(),
                Err(e) => dec_step(source@, pos as int) == Err::<(ProofStepView, int), DecodeError>(
                    e,
                ),
            },
    {
        let (tag, p) = match read_u64(source, pos) {
            Ok(v) => v,
            Err(e) => {
                return Err(e);
            },
        };
        if tag == CODE_AT_CLAUSE {
            let mut clause: Vec<Lit> = Vec::new();
            let p2 = match read_literals(source, p, &mut clause) {
                Ok(v) => v,
                Err(e) => {
                    return Err(e);
                },
            };
            let mut hashes: Vec<u64> = Vec::new();
            let p3 = match read_hashes(source, p2, &mut hashes) {
                Ok(v) => v,
                Err(e) => {
                    return Err(e);
                },
            };
            Ok((ProofStep::AtClause { clause, propagation_hashes: hashes }, p3))
        } else if tag == CODE_UNIT_CLAUSES {
            let mut units: Vec<(Lit, u64)> = Vec::new();
            let p2 = match read_unit_clauses(source, p, &mut units) {
                Ok(v) => v,
                Err(e) => {
                    return Err(e);
                },
            };
            Ok((ProofStep::UnitClauses(units), p2))
        } else if tag == CODE_DELETE_CLAUSE {
            let mut clause: Vec<Lit> = Vec::new();
            let p2 = match read_literals(source, p, &mut clause) {
                Ok(v) => v,
                Err(e) => {
                    return Err(e);
                },
            };
            Ok((ProofStep::DeleteClause(clause), p2))
        } else {
            Err(DecodeError::Corrupt)
        }
    }
}

/// A subrange equal to a concatenation splits into subranges equal to the
/// parts.
pub proof fn lemma_subrange_split(s: Seq<u8>, pos: int, a: Seq<u8>, b: Seq<u8>)
    requires
        0 <= pos,
        pos + a.len() + b.len() <= s.len(),
        s.subrange(pos, pos + a.len() + b.len()) == a + b,
    ensures
        s.subrange(pos, pos + a.len()) == a,
        s.subrange(pos + a.len(), pos + a.len() + b.len()) == b,
{
    let whole = s.subrange(pos, pos + a.len() + b.len());
    assert forall|i: int| 0 <= i < a.len() implies s.subrange(pos, pos + a.len())[i] == a[i] by {
        assert(whole[i] == (a + b)[i]);
    }
    assert(s.subrange(pos, pos + a.len()) =~= a);
    assert forall|i: int| 0 <= i < b.len() implies s.subrange(
        pos + a.len(),
        pos + a.len() + b.len(),
    )[i] == b[i] by {
        assert(whole[a.len() + i] == (a + b)[a.len() + i]);
    }
    assert(s.subrange(pos + a.len(), pos + a.len() + b.len()) =~= b);
}

/// Every number's encoding takes at least one byte.
pub proof fn lemma_enc_u64_len(v: u64)
    ensures
        enc_u64(v).len() >= 1,
{
}

/// The encoding of a literal payload starting at `pos` decodes back to the
/// literals, whatever follows.
pub proof fn lemma_enc_lits_dec(s: Seq<u8>, pos: int, lits: Seq<Lit>)
    requires
        0 <= pos,
        pos + enc_codes(lit_codes(lits)).len() <= s.len(),
        s.subrange(pos, pos + enc_codes(lit_codes(lits)).len()) == enc_codes(lit_codes(lits)),
    ensures
        dec_lits(s, pos, lits.len()) == Ok::<(Seq<Lit>, int), DecodeError>(
            (lits, pos + enc_codes(lit_codes(lits)).len()),
        ),
    decreases lits.len(),
{
    if lits.len() == 0 {
        assert(lits =~= Seq::<Lit>::empty());
    } else {
        let c: u64 = lits[0].code as u64;
        let rest = lits.drop_first();
        assert(lit_codes(lits)[0] == c);
        assert(lit_codes(lits).drop_first() =~= lit_codes(rest));
        let e1 = enc_u64(c);
        let e2 = enc_codes(lit_codes(rest));
        assert(enc_codes(lit_codes(lits)) == e1 + e2);
        lemma_subrange_split(s, pos, e1, e2);
        lemma_enc_u64_dec(s, pos, c);
        lemma_enc_lits_dec(s, pos + e1.len(), rest);
        assert(seq![Lit { code: (c as u32) }] + rest =~= lits);
    }
}

/// The encoding of a fingerprint payload starting at `pos` decodes back to
/// the fingerprints, whatever follows.
pub proof fn lemma_enc_hashes_dec(s: Seq<u8>, pos: int, hashes: Seq<u64>)
    requires
        0 <= pos,
        pos + enc_codes(hashes).len() <= s.len(),
        s.subrange(pos, pos + enc_codes(hashes).len()) == enc_codes(hashes),
    ensures
        dec_hashes(s, pos, hashes.len()) == Ok::<(Seq<u64>, int), DecodeError>(
            (hashes, pos + enc_codes(hashes).len()),
        ),
    decreases hashes.len(),
{
    if hashes.len() == 0 {
        assert(hashes =~= Seq::<u64>::empty());
    } else {
        let h = hashes[0];
        let rest = hashes.drop_first();
        let e1 = enc_u64(h);
        let e2 = enc_codes(rest);
        assert(enc_codes(hashes) == e1 + e2);
        lemma_subrange_split(s, pos, e1, e2);
        lemma_enc_u64_dec(s, pos, h);
        lemma_enc_hashes_dec(s, pos + e1.len(), rest);
        assert(seq![h] + rest =~= hashes);
    }
}

/// The encoding of a unit-clause payload starting at `pos` decodes back to
/// the unit clauses, whatever follows.
pub proof fn lemma_enc_units_dec(s: Seq<u8>, pos: int, units: Seq<(Lit, u64)>)
    requires
        0 <= pos,
        pos + enc_codes(unit_codes(units)).len() <= s.len(),
        s.subrange(pos, pos + enc_codes(unit_codes(units)).len()) == enc_codes(unit_codes(units)),
    ensures
        dec_units(s, pos, units.len()) == Ok::<(Seq<(Lit, u64)>, int), DecodeError>(
            (units, pos + enc_codes(unit_codes(units)).len()),
        ),
    decreases units.len(),
{
    if units.len() == 0 {
        assert(units =~= Seq::<(Lit, u64)>::empty());
    } else {
        let c: u64 = units[0].0.code as u64;
        let h: u64 = units[0].1;
        let rest = units.drop_first();
        let codes = unit_codes(units);
        assert(codes == seq![c, h] + unit_codes(rest));
        assert(codes[0] == c);
        let mid = seq![h] + unit_codes(rest);
        assert(codes.drop_first() =~= mid);
        let e1 = enc_u64(c);
        let e2 = enc_u64(h);
        let e3 = enc_codes(unit_codes(rest));
        assert(mid[0] == h);
        assert(mid.drop_first() =~= unit_codes(rest));
        assert(enc_codes(mid) == e2 + enc_codes(mid.drop_first()));
        assert(enc_codes(codes.drop_first()) == e2 + e3);
        assert(enc_codes(codes) == e1 + (e2 + e3));
        assert(e1 + (e2 + e3) =~= (e1 + e2) + e3);
        lemma_subrange_split(s, pos, e1 + e2, e3);
        lemma_subrange_split(s, pos, e1, e2);
        lemma_enc_u64_dec(s, pos, c);
        lemma_enc_u64_dec(s, pos + e1.len(), h);
        lemma_enc_units_dec(s, pos + e1.len() + e2.len(), rest);
        assert(seq![(Lit { code: (c as u32) }, h)] + rest =~= units);
    }
}

/// The encoding of a literal list starting at `pos` decodes back to the
/// list, whatever follows.
pub proof fn lemma_enc_lit_seq_dec(s: Seq<u8>, pos: int, lits: Seq<Lit>)
    requires
        0 <= pos,
        lits.len() <= u64::MAX,
        pos + enc_lit_seq(lits).len() <= s.len(),
        s.subrange(pos, pos + enc_lit_seq(lits).len()) == enc_lit_seq(lits),
    ensures
        dec_lit_seq(s, pos) == Ok::<(Seq<Lit>, int), DecodeError>(
            (lits, pos + enc_lit_seq(lits).len()),
        ),
{
    let n: u64 = lits.len() as u64;
    let e1 = enc_u64(n);
    let e2 = enc_codes(lit_codes(lits));
    assert(enc_lit_seq(lits) == e1 + e2);
    lemma_subrange_split(s, pos, e1, e2);
    lemma_enc_u64_dec(s, pos, n);
    lemma_enc_lits_dec(s, pos + e1.len(), lits);
}

/// The encoding of a fingerprint list starting at `pos` decodes back to the
/// list, whatever follows.
pub proof fn lemma_enc_hash_seq_dec(s: Seq<u8>, pos: int, hashes: Seq<u64>)
    requires
        0 <= pos,
        hashes.len() <= u64::MAX,
        pos + enc_hash_seq(hashes).len() <= s.len(),
        s.subrange(pos, pos + enc_hash_seq(hashes).len()) == enc_hash_seq(hashes),
    ensures
        dec_hash_seq(s, pos) == Ok::<(Seq<u64>, int), DecodeError>(
            (hashes, pos + enc_hash_seq(hashes).len()),
        ),
{
    let n: u64 = hashes.len() as u64;
    let e1 = enc_u64(n);
    let e2 = enc_codes(hashes);
    assert(enc_hash_seq(hashes) == e1 + e2);
    lemma_subrange_split(s, pos, e1, e2);
    lemma_enc_u64_dec(s, pos, n);
    lemma_enc_hashes_dec(s, pos + e1.len(), hashes);
}

/// The encoding of a unit-clause list starting at `pos` decodes back to the
/// list, whatever follows.
pub proof fn lemma_enc_unit_seq_dec(s: Seq<u8>, pos: int, units: Seq<(Lit, u64)>)
    requires
        0 <= pos,
        units.len() <= u64::MAX,
        pos + enc_unit_seq(units).len() <= s.len(),
        s.subrange(pos, pos + enc_unit_seq(units).len()) == enc_unit_seq(units),
    ensures
        dec_unit_seq(s, pos) == Ok::<(Seq<(Lit, u64)>, int), DecodeError>(
            (units, pos + enc_unit_seq(units).len()),
        ),
{
    let n: u64 = units.len() as u64;
    let e1 = enc_u64(n);
    let e2 = enc_codes(unit_codes(units));
    assert(enc_unit_seq(units) == e1 + e2);
    lemma_subrange_split(s, pos, e1, e2);
    lemma_enc_u64_dec(s, pos, n);
    lemma_enc_units_dec(s, pos + e1.len(), units);
}

/// Whether every list in the step is short enough for its length to be
/// written as one number.
pub open spec fn step_lens_ok(v: ProofStepView) -> bool {
    match v {
        ProofStepView::AtClause { clause, propagation_hashes } => clause.len() <= u64::MAX
            && propagation_hashes.len() <= u64::MAX,
        ProofStepView::UnitClauses(units) => units.len() <= u64::MAX,
        ProofStepView::DeleteClause(clause) => clause.len() <= u64::MAX,
    }
}

/// The encoding of a step starting at `pos` decodes back to the step,
/// whatever follows.
pub proof fn lemma_enc_step_dec(s: Seq<u8>, pos: int, v: ProofStepView)
    requires
        0 <= pos,
        step_lens_ok(v),
        pos + enc_step(v).len() <= s.len(),
        s.subrange(pos, pos + enc_step(v).len()) == enc_step(v),
    ensures
        dec_step(s, pos) == Ok::<(ProofStepView, int), DecodeError>((v, pos + enc_step(v).len())),
{
    match v {
        ProofStepView::AtClause { clause, propagation_hashes } => {
            let e1 = enc_u64(CODE_AT_CLAUSE);
            let e2 = enc_lit_seq(clause);
            let e3 = enc_hash_seq(propagation_hashes);
            assert(enc_step(v) == (e1 + e2) + e3);
            assert((e1 + e2) + e3 =~= e1 + (e2 + e3));
            lemma_subrange_split(s, pos, e1, e2 + e3);
            lemma_subrange_split(s, pos + e1.len(), e2, e3);
            lemma_enc_u64_dec(s, pos, CODE_AT_CLAUSE);
            lemma_enc_lit_seq_dec(s, pos + e1.len(), clause);
            lemma_enc_hash_seq_dec(s, pos + e1.len() + e2.len(), propagation_hashes);
        },
        ProofStepView::UnitClauses(units) => {
            let e1 = enc_u64(CODE_UNIT_CLAUSES);
            let e2 = enc_unit_seq(units);
            assert(enc_step(v) == e1 + e2);
            lemma_subrange_split(s, pos, e1, e2);
            lemma_enc_u64_dec(s, pos, CODE_UNIT_CLAUSES);
            lemma_enc_unit_seq_dec(s, pos + e1.len(), units);
        },
        ProofStepView::DeleteClause(clause) => {
            let e1 = enc_u64(CODE_DELETE_CLAUSE);
            let e2 = enc_lit_seq(clause);
            assert(enc_step(v) == e1 + e2);
            lemma_subrange_split(s, pos, e1, e2);
            lemma_enc_u64_dec(s, pos, CODE_DELETE_CLAUSE);
            lemma_enc_lit_seq_dec(s, pos + e1.len(), clause);
        },
    }
}

/// The concatenated encodings of a sequence of steps.
pub open spec fn enc_steps(steps: Seq<ProofStepView>) -> Seq<u8>
    decreases steps.len(),
{
    if steps.len() == 0 {
        Seq::empty()
    } else {
        enc_step(steps[0]) + enc_steps(steps.drop_first())
    }
}

/// Decodes steps from `pos` until the bytes end.
pub open spec fn dec_steps(s: Seq<u8>, pos: int) -> Result<Seq<ProofStepView>, DecodeError>
    decreases s.len() - pos,
    when 0 <= pos <= s.len()
{
    if pos == s.len() {
        Ok(Seq::empty())
    } else {
        match dec_step(s, pos) {
            Err(e) => Err(e),
            Ok((st, p)) => if pos < p <= s.len() {
                match dec_steps(s, p) {
                    Err(e) => Err(e),
                    Ok(rest) => Ok(seq![st] + rest),
                }
            } else {
                Err(DecodeError::Corrupt)
            },
        }
    }
}

/// Decoding the encoding of a step sequence that fills the rest of the
/// bytes yields exactly that sequence.
pub proof fn lemma_enc_steps_dec(s: Seq<u8>, pos: int, steps: Seq<ProofStepView>)
    requires
        forall|i: int| 0 <= i < steps.len() ==> step_lens_ok(#[trigger] steps[i]),
        0 <= pos,
        pos + enc_steps(steps).len() == s.len(),
        s.subrange(pos, s.len() as int) == enc_steps(steps),
    ensures
        dec_steps(s, pos) == Ok::<Seq<ProofStepView>, DecodeError>(steps),
    decreases steps.len(),
{
    if steps.len() == 0 {
        assert(steps =~= Seq::<ProofStepView>::empty());
    } else {
        let st = steps[0];
        let rest = steps.drop_first();
        let e1 = enc_step(st);
        let e2 = enc_steps(rest);
        assert(enc_steps(steps) == e1 + e2);
        lemma_subrange_split(s, pos, e1, e2);
        lemma_enc_step_dec(s, pos, st);
        assert(e1.len() >= 1) by {
            match st {
                ProofStepView::AtClause { clause, propagation_hashes } => {
                    lemma_enc_u64_len(CODE_AT_CLAUSE);
                },
                ProofStepView::UnitClauses(units) => {
                    lemma_enc_u64_len(CODE_UNIT_CLAUSES);
                },
                ProofStepView::DeleteClause(clause) => {
                    lemma_enc_u64_len(CODE_DELETE_CLAUSE);
                },
            }
        }
        let p = pos + e1.len();
        assert(s.subrange(p, s.len() as int) == e2);
        lemma_enc_steps_dec(s, p, rest);
        assert(seq![st] + rest =~= steps);
    }
}

/// Round trip of the binary format: decoding the encoding of any step
/// sequence yields an equal sequence.
pub proof fn lemma_steps_round_trip(steps: Seq<ProofStepView>)
    requires
        forall|i: int| 0 <= i < steps.len() ==> step_lens_ok(#[trigger] steps[i]),
    ensures
        dec_steps(enc_steps(steps), 0) == Ok::<Seq<ProofStepView>, DecodeError>(steps),
{
    let s = enc_steps(steps);
    assert(s.subrange(0, s.len() as int) =~= s);
    lemma_enc_steps_dec(s, 0, steps);
}

} // verus!
