//! Clause records and the counted clause model.
//!
//! A stored clause keeps its literals inline when there are at most three of
//! them, and otherwise as a range of a shared append-only literal buffer.
//! Clauses live in buckets, one bucket per fingerprint. The model of the
//! store is the count of copies of each literal sequence, together with the
//! well-formedness of every record; the lemmas here say how the counts move
//! when a bucket is pushed, changed or removed, and that they do not move
//! when the buffer merely grows.

use vstd::prelude::*;

use crate::lit::{hash_lits, strictly_sorted, Lit};

verus! {

/// Largest number of literals kept inline in a clause record.
pub const INLINE_LITS: usize = 3;

/// Literals of a clause: inline codes when short, else a range of the
/// shared literal buffer.
#[derive(Clone, Copy)]
pub struct ClauseLits {
    /// Number of literals of the clause.
    pub length: usize,
    /// Start of the clause's range of the buffer; meaningful only when the
    /// clause is too long to be inline.
    pub offset: usize,
    /// The literal codes, when the clause is short enough.
    pub inline: [u32; 3],
}

/// The literal sequence a record stands for, given the shared buffer.
pub open spec fn lits_of(cl: ClauseLits, buf: Seq<Lit>) -> Seq<Lit> {
    if cl.length <= INLINE_LITS {
        Seq::new(cl.length as nat, |i: int| Lit { code: cl.inline@[i] })
    } else {
        buf.subrange(cl.offset as int, cl.offset + cl.length)
    }
}

/// Whether the record's buffer range lies inside a buffer of length
/// `buf_len`.
pub open spec fn lits_in_buf(cl: ClauseLits, buf_len: int) -> bool {
    cl.length > INLINE_LITS ==> cl.offset + cl.length <= buf_len
}

/// How many buffer entries the record occupies.
pub open spec fn spec_buffer_used(cl: ClauseLits) -> nat {
    if cl.length > INLINE_LITS {
        cl.length as nat
    } else {
        0
    }
}

impl ClauseLits {
    /// Builds a record for `lits`, storing them in `buffer` when they do not
    /// fit inline.
    pub fn new(lits: &Vec<Lit>, buffer: &mut Vec<Lit>) -> (r: ClauseLits)
        ensures
            r.length == lits@.len(),
            lits_in_buf(r, final(buffer)@.len() as int),
            lits_of(r, final(buffer)@) == lits@,
            final(buffer)@.len() == old(buffer)@.len() + spec_buffer_used(r),
            final(buffer)@.subrange(0, old(buffer)@.len() as int) == old(buffer)@,
    {
        let length = lits.len();
        if length > INLINE_LITS {
            let offset = buffer.len();
            let mut k: usize = 0;
            while k < length
                invariant
                    k <= length,
                    length == lits@.len(),
                    offset == old(buffer)@.len(),
                    buffer@.len() == offset + k,
                    buffer@.subrange(0, offset as int) == old(buffer)@,
                    buffer@.subrange(offset as int, buffer@.len() as int) == lits@.take(k as int),
                decreases length - k,
            {
                buffer.push(lits[k]);
                proof {
                    assert(buffer@.subrange(0, offset as int) =~= old(buffer)@);
                    assert(buffer@.subrange(offset as int, buffer@.len() as int) =~= lits@.take(
                        k + 1,
                    ));
                }
                k += 1;
            }
            let r = ClauseLits { length, offset, inline: [0, 0, 0] };
            proof {
                assert(lits@.take(length as int) == lits@);
                assert(lits_of(r, buffer@) =~= lits@);
            }
            r
        } else {
            let c0: u32 = if length > 0 {
                lits[0].code()
            } else {
                0
            };
            let c1: u32 = if length > 1 {
                lits[1].code()
            } else {
                0
            };
            let c2: u32 = if length > 2 {
                lits[2].code()
            } else {
                0
            };
            let r = ClauseLits { length, offset: 0, inline: [c0, c1, c2] };
            proof {
                assert(lits_of(r, buffer@) =~= lits@);
                assert(buffer@.subrange(0, buffer@.len() as int) =~= buffer@);
            }
            r
        }
    }

    /// How many buffer entries the record occupies.
    pub fn buffer_used(&self) -> (r: usize)
        ensures
            r == spec_buffer_used(*self),
    {
        if self.length > INLINE_LITS {
            self.length
        } else {
            0
        }
    }
}

/// Reads one literal of a record.
pub fn lit_at(cl: &ClauseLits, buf: &Vec<Lit>, k: usize) -> (r: Lit)
    requires
        k < cl.length,
        lits_in_buf(*cl, buf@.len() as int),
    ensures
        r == lits_of(*cl, buf@)[k as int],
{
    if cl.length <= INLINE_LITS {
        Lit { code: cl.inline[k] }
    } else {
        let n = buf.len();
        proof {
            assert(n == buf@.len());
            assert(cl.offset + k < n);
        }
        buf[cl.offset + k]
    }
}

/// Whether a record's literals equal `lits`.
pub fn clause_lits_equal(cl: &ClauseLits, buf: &Vec<Lit>, lits: &Vec<Lit>) -> (r: bool)
    requires
        lits_in_buf(*cl, buf@.len() as int),
    ensures
        r == (lits_of(*cl, buf@) == lits@),
{
    if cl.length != lits.len() {
        proof {
            assert(lits_of(*cl, buf@).len() == cl.length);
        }
        return false;
    }
    let mut k: usize = 0;
    while k < cl.length
        invariant
            k <= cl.length,
            cl.length == lits@.len(),
            lits_in_buf(*cl, buf@.len() as int),
            forall|m: int| 0 <= m < k ==> lits_of(*cl, buf@)[m] == lits@[m],
        decreases cl.length - k,
    {
        let a = lit_at(cl, buf, k);
        if a.code != lits[k].code() {
            proof {
                assert(lits_of(*cl, buf@)[k as int] != lits@[k as int]);
            }
            return false;
        }
        k += 1;
    }
    proof {
        assert(lits_of(*cl, buf@) =~= lits@);
    }
    true
}

/// A stored clause: its identifier, how many copies of it the formula
/// currently holds, and its literals.
#[derive(Clone, Copy)]
pub struct Clause {
    pub id: u64,
    pub ref_count: u32,
    pub lits: ClauseLits,
}

/// All stored clauses with one fingerprint.
pub struct HashBucket {
    pub hash: u64,
    pub clauses: Vec<Clause>,
}

/// A well-formed record: at least one copy, at least two literals, literals
/// inside the buffer, strictly sorted.
pub open spec fn clause_wf(c: Clause, buf: Seq<Lit>) -> bool {
    &&& c.ref_count >= 1
    &&& c.lits.length >= 2
    &&& lits_in_buf(c.lits, buf.len() as int)
    &&& strictly_sorted(lits_of(c.lits, buf))
}

/// A well-formed bucket: non-empty, every record well-formed with this
/// bucket's fingerprint, and no two records with the same literals.
pub open spec fn bucket_wf(b: HashBucket, buf: Seq<Lit>) -> bool {
    &&& b.clauses@.len() >= 1
    &&& forall|j: int| 0 <= j < b.clauses@.len() ==> clause_wf(#[trigger] b.clauses@[j], buf)
    &&& forall|j: int|
        0 <= j < b.clauses@.len() ==> hash_lits(lits_of(#[trigger] b.clauses@[j].lits, buf))
            == b.hash
    &&& forall|j: int, k: int|
        0 <= j < k < b.clauses@.len() ==> lits_of(b.clauses@[j].lits, buf) != lits_of(
            b.clauses@[k].lits,
            buf,
        )
}

/// A well-formed store: every bucket well-formed, fingerprints distinct.
pub open spec fn buckets_wf(bs: Seq<HashBucket>, buf: Seq<Lit>) -> bool {
    &&& forall|i: int| 0 <= i < bs.len() ==> bucket_wf(#[trigger] bs[i], buf)
    &&& forall|i: int, k: int| 0 <= i < k < bs.len() ==> bs[i].hash != bs[k].hash
}

/// What one record contributes to the count of `lits`.
pub open spec fn clause_contrib(c: Clause, buf: Seq<Lit>, lits: Seq<Lit>) -> nat {
    if lits_of(c.lits, buf) == lits {
        c.ref_count as nat
    } else {
        0
    }
}

/// How many copies of `lits` the records `cs` hold.
pub open spec fn count_in_clauses(cs: Seq<Clause>, buf: Seq<Lit>, lits: Seq<Lit>) -> nat
    decreases cs.len(),
{
    if cs.len() == 0 {
        0
    } else {
        clause_contrib(cs.last(), buf, lits) + count_in_clauses(cs.drop_last(), buf, lits)
    }
}

/// How many copies of `lits` the whole store holds.
pub open spec fn count_in_buckets(bs: Seq<HashBucket>, buf: Seq<Lit>, lits: Seq<Lit>) -> nat
    decreases bs.len(),
{
    if bs.len() == 0 {
        0
    } else {
        count_in_clauses(bs.last().clauses@, buf, lits) + count_in_buckets(
            bs.drop_last(),
            buf,
            lits,
        )
    }
}

/// Whether some record of the store has exactly these literals.
pub open spec fn has_rec(bs: Seq<HashBucket>, buf: Seq<Lit>, lits: Seq<Lit>) -> bool {
    exists|i: int, j: int|
        0 <= i < bs.len() && 0 <= j < bs[i].clauses@.len() && lits_of(
            bs[i].clauses@[j].lits,
            buf,
        ) == lits
}

/// Whether some record of the store carries this identifier together with
/// these literals.
pub open spec fn stored_with_id(bs: Seq<HashBucket>, buf: Seq<Lit>, lits: Seq<Lit>, id: u64) -> bool {
    exists|i: int, j: int|
        0 <= i < bs.len() && 0 <= j < bs[i].clauses@.len() && lits_of(bs[i].clauses@[j].lits, buf)
            == lits && bs[i].clauses@[j].id == id
}

/// How many buffer entries the records `cs` occupy.
pub open spec fn live_in_clauses(cs: Seq<Clause>) -> nat
    decreases cs.len(),
{
    if cs.len() == 0 {
        0
    } else {
        spec_buffer_used(cs.last().lits) + live_in_clauses(cs.drop_last())
    }
}

/// How many buffer entries the whole store occupies.
pub open spec fn live_in_buckets(bs: Seq<HashBucket>) -> nat
    decreases bs.len(),
{
    if bs.len() == 0 {
        0
    } else {
        live_in_clauses(bs.last().clauses@) + live_in_buckets(bs.drop_last())
    }
}

/// Appending a record adds its buffer usage to the occupied count.
pub proof fn lemma_live_clauses_push(cs: Seq<Clause>, c: Clause)
    ensures
        live_in_clauses(cs.push(c)) == live_in_clauses(cs) + spec_buffer_used(c.lits),
{
    assert(cs.push(c).last() == c);
    assert(cs.push(c).drop_last() =~= cs);
}

/// Appending a bucket adds its records' buffer usage to the occupied count.
pub proof fn lemma_live_buckets_push(bs: Seq<HashBucket>, b: HashBucket)
    ensures
        live_in_buckets(bs.push(b)) == live_in_buckets(bs) + live_in_clauses(b.clauses@),
{
    assert(bs.push(b).last() == b);
    assert(bs.push(b).drop_last() =~= bs);
}

/// A record's literal sequence does not change when the buffer grows at the
/// end.
pub proof fn lemma_lits_of_extend(cl: ClauseLits, buf1: Seq<Lit>, buf2: Seq<Lit>)
    requires
        lits_in_buf(cl, buf1.len() as int),
        buf1.len() <= buf2.len(),
        buf2.subrange(0, buf1.len() as int) == buf1,
    ensures
        lits_of(cl, buf2) == lits_of(cl, buf1),
{
    if cl.length > INLINE_LITS {
        assert forall|i: int|
            0 <= i < cl.length implies #[trigger] buf2.subrange(
            cl.offset as int,
            cl.offset + cl.length,
        )[i] == buf1.subrange(cl.offset as int, cl.offset + cl.length)[i] by {
            assert(buf2[cl.offset + i] == buf2.subrange(0, buf1.len() as int)[cl.offset + i]);
        }
        assert(lits_of(cl, buf2) =~= lits_of(cl, buf1));
    } else {
        assert(lits_of(cl, buf2) =~= lits_of(cl, buf1));
    }
}

/// Counts in a record list do not change when the buffer grows at the end.
pub proof fn lemma_count_clauses_extend(cs: Seq<Clause>, buf1: Seq<Lit>, buf2: Seq<Lit>, lits: Seq<Lit>)
    requires
        forall|j: int| 0 <= j < cs.len() ==> lits_in_buf(#[trigger] cs[j].lits, buf1.len() as int),
        buf1.len() <= buf2.len(),
        buf2.subrange(0, buf1.len() as int) == buf1,
    ensures
        count_in_clauses(cs, buf2, lits) == count_in_clauses(cs, buf1, lits),
    decreases cs.len(),
{
    if cs.len() > 0 {
        lemma_lits_of_extend(cs.last().lits, buf1, buf2);
        lemma_count_clauses_extend(cs.drop_last(), buf1, buf2, lits);
    }
}

/// Counts in the store do not change when the buffer grows at the end.
pub proof fn lemma_count_buckets_extend(
    bs: Seq<HashBucket>,
    buf1: Seq<Lit>,
    buf2: Seq<Lit>,
    lits: Seq<Lit>,
)
    requires
        buckets_wf(bs, buf1),
        buf1.len() <= buf2.len(),
        buf2.subrange(0, buf1.len() as int) == buf1,
    ensures
        count_in_buckets(bs, buf2, lits) == count_in_buckets(bs, buf1, lits),
    decreases bs.len(),
{
    if bs.len() > 0 {
        lemma_count_clauses_extend(bs.last().clauses@, buf1, buf2, lits);
        assert(buckets_wf(bs.drop_last(), buf1));
        lemma_count_buckets_extend(bs.drop_last(), buf1, buf2, lits);
    }
}

/// Well-formedness of the store is kept when the buffer grows at the end.
pub proof fn lemma_buckets_wf_extend(bs: Seq<HashBucket>, buf1: Seq<Lit>, buf2: Seq<Lit>)
    requires
        buckets_wf(bs, buf1),
        buf1.len() <= buf2.len(),
        buf2.subrange(0, buf1.len() as int) == buf1,
    ensures
        buckets_wf(bs, buf2),
        forall|i: int, j: int|
            0 <= i < bs.len() && 0 <= j < bs[i].clauses@.len() ==> lits_of(
                bs[i].clauses@[j].lits,
                buf2,
            ) == lits_of(bs[i].clauses@[j].lits, buf1),
{
    assert forall|i: int, j: int|
        0 <= i < bs.len() && 0 <= j < bs[i].clauses@.len() implies lits_of(
        bs[i].clauses@[j].lits,
        buf2,
    ) == lits_of(bs[i].clauses@[j].lits, buf1) by {
        assert(bucket_wf(bs[i], buf1));
        assert(clause_wf(bs[i].clauses@[j], buf1));
        lemma_lits_of_extend(bs[i].clauses@[j].lits, buf1, buf2);
    }
    assert forall|i: int| 0 <= i < bs.len() implies bucket_wf(#[trigger] bs[i], buf2) by {
        assert(bucket_wf(bs[i], buf1));
        assert forall|j: int| 0 <= j < bs[i].clauses@.len() implies clause_wf(
            #[trigger] bs[i].clauses@[j],
            buf2,
        ) by {
            assert(clause_wf(bs[i].clauses@[j], buf1));
        }
    }
}

/// Appending a record adds its contribution to every count.
pub proof fn lemma_count_clauses_push(cs: Seq<Clause>, buf: Seq<Lit>, c: Clause, lits: Seq<Lit>)
    ensures
        count_in_clauses(cs.push(c), buf, lits) == count_in_clauses(cs, buf, lits) + clause_contrib(
            c,
            buf,
            lits,
        ),
{
    assert(cs.push(c).last() == c);
    assert(cs.push(c).drop_last() =~= cs);
}

/// Changing one record moves every count by the difference of the
/// contributions.
pub proof fn lemma_count_clauses_update(
    cs: Seq<Clause>,
    buf: Seq<Lit>,
    j: int,
    c2: Clause,
    lits: Seq<Lit>,
)
    requires
        0 <= j < cs.len(),
    ensures
        count_in_clauses(cs.update(j, c2), buf, lits) + clause_contrib(cs[j], buf, lits)
            == count_in_clauses(cs, buf, lits) + clause_contrib(c2, buf, lits),
    decreases cs.len(),
{
    if j == cs.len() - 1 {
        assert(cs.update(j, c2).last() == c2);
        assert(cs.update(j, c2).drop_last() =~= cs.drop_last());
    } else {
        assert(cs.update(j, c2).last() == cs.last());
        assert(cs.update(j, c2).drop_last() =~= cs.drop_last().update(j, c2));
        lemma_count_clauses_update(cs.drop_last(), buf, j, c2, lits);
    }
}

/// Removing one record takes its contribution out of every count.
pub proof fn lemma_count_clauses_remove(cs: Seq<Clause>, buf: Seq<Lit>, j: int, lits: Seq<Lit>)
    requires
        0 <= j < cs.len(),
    ensures
        count_in_clauses(cs.remove(j), buf, lits) + clause_contrib(cs[j], buf, lits)
            == count_in_clauses(cs, buf, lits),
    decreases cs.len(),
{
    if j == cs.len() - 1 {
        assert(cs.remove(j) =~= cs.drop_last());
    } else {
        assert(cs.remove(j).last() == cs.last());
        assert(cs.remove(j).drop_last() =~= cs.drop_last().remove(j));
        lemma_count_clauses_remove(cs.drop_last(), buf, j, lits);
    }
}

/// Appending a bucket adds its records' counts to the store's counts.
pub proof fn lemma_count_buckets_push(
    bs: Seq<HashBucket>,
    buf: Seq<Lit>,
    b: HashBucket,
    lits: Seq<Lit>,
)
    ensures
        count_in_buckets(bs.push(b), buf, lits) == count_in_buckets(bs, buf, lits)
            + count_in_clauses(b.clauses@, buf, lits),
{
    assert(bs.push(b).last() == b);
    assert(bs.push(b).drop_last() =~= bs);
}

/// Changing one bucket moves the store's counts by the difference of the
/// bucket counts.
pub proof fn lemma_count_buckets_update(
    bs: Seq<HashBucket>,
    buf: Seq<Lit>,
    i: int,
    b2: HashBucket,
    lits: Seq<Lit>,
)
    requires
        0 <= i < bs.len(),
    ensures
        count_in_buckets(bs.update(i, b2), buf, lits) + count_in_clauses(bs[i].clauses@, buf, lits)
            == count_in_buckets(bs, buf, lits) + count_in_clauses(b2.clauses@, buf, lits),
    decreases bs.len(),
{
    if i == bs.len() - 1 {
        assert(bs.update(i, b2).last() == b2);
        assert(bs.update(i, b2).drop_last() =~= bs.drop_last());
    } else {
        assert(bs.update(i, b2).last() == bs.last());
        assert(bs.update(i, b2).drop_last() =~= bs.drop_last().update(i, b2));
        lemma_count_buckets_update(bs.drop_last(), buf, i, b2, lits);
    }
}

/// Removing one bucket takes its records' counts out of the store's counts.
pub proof fn lemma_count_buckets_remove(bs: Seq<HashBucket>, buf: Seq<Lit>, i: int, lits: Seq<Lit>)
    requires
        0 <= i < bs.len(),
    ensures
        count_in_buckets(bs.remove(i), buf, lits) + count_in_clauses(bs[i].clauses@, buf, lits)
            == count_in_buckets(bs, buf, lits),
    decreases bs.len(),
{
    if i == bs.len() - 1 {
        assert(bs.remove(i) =~= bs.drop_last());
    } else {
        assert(bs.remove(i).last() == bs.last());
        assert(bs.remove(i).drop_last() =~= bs.drop_last().remove(i));
        lemma_count_buckets_remove(bs.drop_last(), buf, i, lits);
    }
}

/// The count of a record's own literals is at least its reference count.
pub proof fn lemma_count_clauses_at_least(cs: Seq<Clause>, buf: Seq<Lit>, j: int)
    requires
        0 <= j < cs.len(),
    ensures
        count_in_clauses(cs, buf, lits_of(cs[j].lits, buf)) >= cs[j].ref_count,
    decreases cs.len(),
{
    if j == cs.len() - 1 {
    } else {
        lemma_count_clauses_at_least(cs.drop_last(), buf, j);
    }
}

/// The store's count of a record's own literals is at least its reference
/// count.
pub proof fn lemma_count_buckets_at_least(bs: Seq<HashBucket>, buf: Seq<Lit>, i: int, j: int)
    requires
        0 <= i < bs.len(),
        0 <= j < bs[i].clauses@.len(),
    ensures
        count_in_buckets(bs, buf, lits_of(bs[i].clauses@[j].lits, buf)) >= bs[i].clauses@[j].ref_count,
    decreases bs.len(),
{
    if i == bs.len() - 1 {
        lemma_count_clauses_at_least(bs.last().clauses@, buf, j);
    } else {
        lemma_count_buckets_at_least(bs.drop_last(), buf, i, j);
    }
}

/// A record list holds a positive count of `lits` exactly when one of its
/// records has those literals.
pub proof fn lemma_count_clauses_pos(cs: Seq<Clause>, buf: Seq<Lit>, lits: Seq<Lit>)
    requires
        forall|j: int| 0 <= j < cs.len() ==> (#[trigger] cs[j].ref_count) >= 1,
    ensures
        count_in_clauses(cs, buf, lits) > 0 <==> exists|j: int|
            0 <= j < cs.len() && lits_of(#[trigger] cs[j].lits, buf) == lits,
    decreases cs.len(),
{
    if cs.len() > 0 {
        assert(forall|j: int|
            0 <= j < cs.drop_last().len() ==> (#[trigger] cs.drop_last()[j].ref_count) >= 1);
        lemma_count_clauses_pos(cs.drop_last(), buf, lits);
        if count_in_clauses(cs, buf, lits) > 0 {
            if clause_contrib(cs.last(), buf, lits) > 0 {
                assert(lits_of(cs[cs.len() - 1].lits, buf) == lits);
            } else {
                let j = choose|j: int|
                    0 <= j < cs.drop_last().len() && lits_of(
                        #[trigger] cs.drop_last()[j].lits,
                        buf,
                    ) == lits;
                assert(lits_of(cs[j].lits, buf) == lits);
            }
        }
        if exists|j: int| 0 <= j < cs.len() && lits_of(#[trigger] cs[j].lits, buf) == lits {
            let j = choose|j: int| 0 <= j < cs.len() && lits_of(#[trigger] cs[j].lits, buf) == lits;
            lemma_count_clauses_at_least(cs, buf, j);
        }
    }
}

/// The store holds a positive count of `lits` exactly when one of its
/// records has those literals.
pub proof fn lemma_count_buckets_pos(bs: Seq<HashBucket>, buf: Seq<Lit>, lits: Seq<Lit>)
    requires
        buckets_wf(bs, buf),
    ensures
        count_in_buckets(bs, buf, lits) > 0 <==> has_rec(bs, buf, lits),
    decreases bs.len(),
{
    if bs.len() > 0 {
        assert(buckets_wf(bs.drop_last(), buf));
        lemma_count_buckets_pos(bs.drop_last(), buf, lits);
        assert(bucket_wf(bs[bs.len() - 1], buf));
        assert(forall|j: int|
            0 <= j < bs.last().clauses@.len() ==> (#[trigger] bs.last().clauses@[j].ref_count)
                >= 1) by {
            assert(forall|j: int|
                0 <= j < bs.last().clauses@.len() ==> clause_wf(
                    #[trigger] bs.last().clauses@[j],
                    buf,
                ));
        }
        lemma_count_clauses_pos(bs.last().clauses@, buf, lits);
        if count_in_buckets(bs, buf, lits) > 0 {
            if count_in_clauses(bs.last().clauses@, buf, lits) > 0 {
                let j = choose|j: int|
                    0 <= j < bs.last().clauses@.len() && lits_of(
                        #[trigger] bs.last().clauses@[j].lits,
                        buf,
                    ) == lits;
                assert(0 <= bs.len() - 1 < bs.len() && 0 <= j < bs[bs.len() - 1].clauses@.len()
                    && lits_of(bs[bs.len() - 1].clauses@[j].lits, buf) == lits);
            } else {
                let (i, j) = choose|i: int, j: int|
                    0 <= i < bs.drop_last().len() && 0 <= j < bs.drop_last()[i].clauses@.len()
                        && lits_of(bs.drop_last()[i].clauses@[j].lits, buf) == lits;
                assert(0 <= i < bs.len() && 0 <= j < bs[i].clauses@.len() && lits_of(
                    bs[i].clauses@[j].lits,
                    buf,
                ) == lits);
            }
        }
        if has_rec(bs, buf, lits) {
            let (i, j) = choose|i: int, j: int|
                0 <= i < bs.len() && 0 <= j < bs[i].clauses@.len() && lits_of(
                    bs[i].clauses@[j].lits,
                    buf,
                ) == lits;
            lemma_count_buckets_at_least(bs, buf, i, j);
        }
    }
}

/// In a well-formed store, no record has literals whose fingerprint belongs
/// to no bucket.
pub proof fn lemma_no_bucket_no_rec(bs: Seq<HashBucket>, buf: Seq<Lit>, lits: Seq<Lit>)
    requires
        buckets_wf(bs, buf),
        forall|i: int| 0 <= i < bs.len() ==> (#[trigger] bs[i].hash) != hash_lits(lits),
    ensures
        !has_rec(bs, buf, lits),
        count_in_buckets(bs, buf, lits) == 0,
{
    assert forall|i: int, j: int|
        0 <= i < bs.len() && 0 <= j < bs[i].clauses@.len() implies lits_of(
        bs[i].clauses@[j].lits,
        buf,
    ) != lits by {
        assert(bucket_wf(bs[i], buf));
        assert(hash_lits(lits_of(bs[i].clauses@[j].lits, buf)) == bs[i].hash);
    }
    lemma_count_buckets_pos(bs, buf, lits);
}

/// Record lists that agree record by record on literals and reference
/// counts hold the same counts, whatever their buffers.
pub proof fn lemma_count_clauses_congruent(
    cs1: Seq<Clause>,
    buf1: Seq<Lit>,
    cs2: Seq<Clause>,
    buf2: Seq<Lit>,
    lits: Seq<Lit>,
)
    requires
        cs1.len() == cs2.len(),
        forall|j: int|
            0 <= j < cs1.len() ==> lits_of((#[trigger] cs1[j]).lits, buf1) == lits_of(
                cs2[j].lits,
                buf2,
            ) && cs1[j].ref_count == cs2[j].ref_count,
    ensures
        count_in_clauses(cs1, buf1, lits) == count_in_clauses(cs2, buf2, lits),
    decreases cs1.len(),
{
    if cs1.len() > 0 {
        assert(cs1[cs1.len() - 1] == cs1.last());
        lemma_count_clauses_congruent(cs1.drop_last(), buf1, cs2.drop_last(), buf2, lits);
    }
}

/// Stores that agree bucket by bucket and record by record on literals and
/// reference counts hold the same counts, whatever their buffers.
pub proof fn lemma_count_buckets_congruent(
    bs1: Seq<HashBucket>,
    buf1: Seq<Lit>,
    bs2: Seq<HashBucket>,
    buf2: Seq<Lit>,
    lits: Seq<Lit>,
)
    requires
        bs1.len() == bs2.len(),
        forall|i: int|
            0 <= i < bs1.len() ==> (#[trigger] bs1[i]).clauses@.len() == bs2[i].clauses@.len(),
        forall|i: int, j: int|
            0 <= i < bs1.len() && 0 <= j < bs1[i].clauses@.len() ==> lits_of(
                (#[trigger] bs1[i].clauses@[j]).lits,
                buf1,
            ) == lits_of(bs2[i].clauses@[j].lits, buf2) && bs1[i].clauses@[j].ref_count
                == bs2[i].clauses@[j].ref_count,
    ensures
        count_in_buckets(bs1, buf1, lits) == count_in_buckets(bs2, buf2, lits),
    decreases bs1.len(),
{
    if bs1.len() > 0 {
        assert(bs1[bs1.len() - 1] == bs1.last());
        assert forall|j: int| 0 <= j < bs1.last().clauses@.len() implies lits_of(
            (#[trigger] bs1.last().clauses@[j]).lits,
            buf1,
        ) == lits_of(bs2.last().clauses@[j].lits, buf2) && bs1.last().clauses@[j].ref_count
            == bs2.last().clauses@[j].ref_count by {
            assert(bs1[bs1.len() - 1].clauses@[j] == bs1.last().clauses@[j]);
            assert(bs2[bs1.len() - 1].clauses@[j] == bs2.last().clauses@[j]);
        }
        lemma_count_clauses_congruent(
            bs1.last().clauses@,
            buf1,
            bs2.last().clauses@,
            buf2,
            lits,
        );
        lemma_count_buckets_congruent(bs1.drop_last(), buf1, bs2.drop_last(), buf2, lits);
    }
}

/// A well-formed store with no copies of any clause has no buckets and no
/// occupied buffer entries.
pub proof fn lemma_empty_store(bs: Seq<HashBucket>, buf: Seq<Lit>)
    requires
        buckets_wf(bs, buf),
        forall|lits: Seq<Lit>| count_in_buckets(bs, buf, lits) == 0,
    ensures
        bs.len() == 0,
        live_in_buckets(bs) == 0,
{
    if bs.len() > 0 {
        assert(bucket_wf(bs[0], buf));
        assert(clause_wf(bs[0].clauses@[0], buf));
        lemma_count_buckets_at_least(bs, buf, 0, 0);
        assert(count_in_buckets(bs, buf, lits_of(bs[0].clauses@[0].lits, buf)) == 0);
        assert(false);
    }
}

} // verus!
