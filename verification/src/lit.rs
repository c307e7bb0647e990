//! Literals and clause fingerprints.
//!
//! A literal is a propositional variable together with a polarity, packed
//! into a single non-negative code: the low bit is the polarity (1 means
//! negative) and the remaining bits are the variable index. Clauses are kept
//! as strictly sorted, duplicate-free literal sequences; their fingerprint is
//! a deterministic hash of that canonical form.

use vstd::prelude::*;

verus! {

/// An encoded literal. Equality and ordering are on the code.
#[derive(Clone, Copy, PartialEq, Eq, Structural, Debug, Hash)]
pub struct Lit {
    pub code: u32,
}

impl Lit {
    /// Variable index of the literal.
    pub open spec fn spec_var(self) -> int {
        self.code as int / 2
    }

    /// Whether the literal is the negation of its variable.
    pub open spec fn spec_is_negative(self) -> bool {
        self.code % 2 == 1
    }

    /// Builds the literal with the given code.
    pub fn from_code(code: u32) -> (r: Lit)
        ensures
            r.code == code,
    {
        Lit { code }
    }

    /// The literal's code.
    pub fn code(self) -> (r: u32)
        ensures
            r == self.code,
    {
        self.code
    }

    /// The literal's variable index.
    pub fn index(self) -> (r: usize)
        ensures
            r as int == self.spec_var(),
    {
        (self.code / 2) as usize
    }

    /// Whether the literal is negative.
    pub fn is_negative(self) -> (r: bool)
        ensures
            r == self.spec_is_negative(),
    {
        self.code % 2 == 1
    }

    /// Whether the literal is positive.
    pub fn is_positive(self) -> (r: bool)
        ensures
            r == !self.spec_is_negative(),
    {
        self.code % 2 == 0
    }

    /// Builds a literal from its DIMACS form: a non-zero integer whose
    /// absolute value is the 1-based variable number and whose sign is the
    /// polarity.
    pub fn from_dimacs(number: i32) -> (r: Lit)
        requires
            number != 0,
            number != i32::MIN,
        ensures
            r.spec_var() == (if number < 0 { -number } else { number as int }) - 1,
            r.spec_is_negative() == (number < 0),
    {
        let magnitude: u32 = if number < 0 {
            (-number) as u32
        } else {
            number as u32
        };
        let code: u32 = (magnitude - 1) * 2 + (if number < 0 { 1 } else { 0 });
        Lit { code }
    }
}

/// Whether the literal codes of `s` are strictly increasing, so that `s` is
/// sorted and free of duplicates.
pub open spec fn strictly_sorted(s: Seq<Lit>) -> bool {
    forall|i: int, j: int| 0 <= i < j < s.len() ==> s[i].code < s[j].code
}

/// Inserts `l` into the strictly sorted vector `v`, keeping it strictly
/// sorted; a literal already present is not inserted again.
fn insert_lit(v: &mut Vec<Lit>, l: Lit)
    requires
        strictly_sorted(old(v)@),
    ensures
        strictly_sorted(final(v)@),
        forall|x: Lit| final(v)@.contains(x) <==> (old(v)@.contains(x) || x == l),
{
    let mut j: usize = 0;
    while j < v.len() && v[j].code < l.code
        invariant
            strictly_sorted(v@),
            v@ == old(v)@,
            j <= v@.len(),
            forall|k: int| 0 <= k < j ==> v@[k].code < l.code,
        decreases v@.len() - j,
    {
        j += 1;
    }
    if j < v.len() && v[j].code == l.code {
        proof {
            assert(v@.contains(l)) by {
                assert(v@[j as int] == l);
            }
        }
        return ;
    }
    v.insert(j, l);
    proof {
        let s0 = old(v)@;
        let s1 = v@;
        assert(s1 == s0.insert(j as int, l));
        assert forall|i: int, k: int| 0 <= i < k < s1.len() implies s1[i].code < s1[k].code by {
            if i < j && k == j {
            } else if i == j && k > j {
                assert(s1[k] == s0[k - 1]);
                assert(s0[j as int].code != l.code || j >= s0.len());
            } else if i < j && k > j {
                assert(s1[i] == s0[i] && s1[k] == s0[k - 1]);
            } else if i > j && k > j {
                assert(s1[i] == s0[i - 1] && s1[k] == s0[k - 1]);
            }
        }
        assert forall|x: Lit| s1.contains(x) <==> (s0.contains(x) || x == l) by {
            if s1.contains(x) {
                let i = choose|i: int| 0 <= i < s1.len() && s1[i] == x;
                if i < j {
                    assert(s0[i] == x);
                } else if i == j {
                } else {
                    assert(s0[i - 1] == x);
                }
            }
            if s0.contains(x) {
                let i = choose|i: int| 0 <= i < s0.len() && s0[i] == x;
                if i < j {
                    assert(s1[i] == x);
                } else {
                    assert(s1[i + 1] == x);
                }
            }
            if x == l {
                assert(s1[j as int] == x);
            }
        }
    }
}

/// Returns the canonical form of a clause: the same set of literals, sorted
/// by code and with duplicates removed. By `lemma_sorted_set_unique` that
/// form is the same whatever the order and repetition of the input, so
/// clauses match in the store by literal set.
pub fn sort_dedup_lits(lits: &Vec<Lit>) -> (r: Vec<Lit>)
    ensures
        strictly_sorted(r@),
        forall|x: Lit| r@.contains(x) <==> lits@.contains(x),
{
    let mut out: Vec<Lit> = Vec::new();
    let mut i: usize = 0;
    while i < lits.len()
        invariant
            i <= lits@.len(),
            strictly_sorted(out@),
            forall|x: Lit| out@.contains(x) <==> lits@.take(i as int).contains(x),
        decreases lits@.len() - i,
    {
        let l = lits[i];
        let ghost before = out@;
        insert_lit(&mut out, l);
        proof {
            assert forall|x: Lit| out@.contains(x) <==> lits@.take(i + 1).contains(x) by {
                let t1 = lits@.take(i + 1);
                let t0 = lits@.take(i as int);
                assert(out@.contains(x) <==> (before.contains(x) || x == l));
                assert(before.contains(x) <==> t0.contains(x));
                if t1.contains(x) {
                    let k = choose|k: int| 0 <= k < t1.len() && t1[k] == x;
                    if k < i {
                        assert(t0[k] == x);
                        assert(t0.contains(x));
                    } else {
                        assert(x == l);
                    }
                }
                if t0.contains(x) {
                    let k = choose|k: int| 0 <= k < t0.len() && t0[k] == x;
                    assert(t1[k] == x);
                    assert(t1.contains(x));
                }
                if x == l {
                    assert(t1[i as int] == x);
                    assert(t1.contains(x));
                }
            }
        }
        i += 1;
    }
    proof {
        assert(lits@.take(lits@.len() as int) == lits@);
    }
    out
}

/// The canonical form is unique: two strictly sorted sequences holding the
/// same literals are equal. Two clauses written in any order and with any
/// repetitions therefore meet in one stored form.
pub proof fn lemma_sorted_set_unique(a: Seq<Lit>, b: Seq<Lit>)
    requires
        strictly_sorted(a),
        strictly_sorted(b),
        forall|x: Lit| a.contains(x) <==> b.contains(x),
    ensures
        a == b,
    decreases a.len(),
{
    if a.len() == 0 {
        if b.len() > 0 {
            assert(b.contains(b[0]));
            assert(false);
        }
        assert(a =~= b);
    } else {
        assert(a.contains(a[0]));
        assert(b.contains(b[0]));
        let i = choose|i: int| 0 <= i < b.len() && b[i] == a[0];
        let j = choose|j: int| 0 <= j < a.len() && a[j] == b[0];
        assert(b[0].code <= a[0].code) by {
            if i > 0 {
                assert(b[0].code < b[i].code);
            }
        }
        assert(a[0].code <= b[0].code) by {
            if j > 0 {
                assert(a[0].code < a[j].code);
            }
        }
        assert(a[0] == b[0]);
        let ar = a.drop_first();
        let br = b.drop_first();
        assert forall|x: Lit| ar.contains(x) <==> br.contains(x) by {
            if ar.contains(x) {
                let k = choose|k: int| 0 <= k < ar.len() && ar[k] == x;
                assert(a[k + 1] == x);
                assert(a.contains(x));
                assert(x.code > a[0].code);
                let m = choose|m: int| 0 <= m < b.len() && b[m] == x;
                assert(m != 0);
                assert(br[m - 1] == x);
                assert(br.contains(x));
            }
            if br.contains(x) {
                let k = choose|k: int| 0 <= k < br.len() && br[k] == x;
                assert(b[k + 1] == x);
                assert(b.contains(x));
                assert(x.code > b[0].code);
                let m = choose|m: int| 0 <= m < a.len() && a[m] == x;
                assert(m != 0);
                assert(ar[m - 1] == x);
                assert(ar.contains(x));
            }
        }
        lemma_sorted_set_unique(ar, br);
        assert(a.len() == b.len());
        assert forall|i: int| 0 <= i < a.len() implies a[i] == b[i] by {
            if i > 0 {
                assert(a[i] == ar[i - 1]);
                assert(b[i] == br[i - 1]);
            }
        }
        assert(a =~= b);
    }
}

/// Multiplier of the fingerprint mixing step.
pub const HASH_MULT: u64 = 0x9E3779B97F4A7C15;

/// One mixing step of the clause fingerprint.
pub open spec fn hash_step(h: u64, c: u64) -> u64 {
    (((h as int) * (HASH_MULT as int) + c as int) % 0x1_0000_0000_0000_0000) as u64
}

/// Fingerprint of a literal sequence: the mixing step folded over the codes.
/// It is deterministic and depends on nothing but the sequence, so that a
/// proof's producer and this checker agree on every clause's fingerprint.
pub open spec fn hash_lits(s: Seq<Lit>) -> u64
    decreases s.len(),
{
    if s.len() == 0 {
        0u64
    } else {
        hash_step(hash_lits(s.drop_last()), s.last().code as u64)
    }
}

/// Computes the fingerprint of a clause in canonical form.
pub fn clause_hash(lits: &Vec<Lit>) -> (h: u64)
    ensures
        h == hash_lits(lits@),
{
    let mut h: u64 = 0;
    let mut i: usize = 0;
    while i < lits.len()
        invariant
            i <= lits@.len(),
            h == hash_lits(lits@.take(i as int)),
        decreases lits@.len() - i,
    {
        let c: u64 = lits[i].code as u64;
        let wide: u128 = (h as u128) * (HASH_MULT as u128) + (c as u128);
        let mixed: u64 = (wide % 0x1_0000_0000_0000_0000u128) as u64;
        proof {
            assert(mixed == hash_step(h, c));
            assert(lits@.take(i + 1).drop_last() == lits@.take(i as int));
            assert(lits@.take(i + 1).last() == lits@[i as int]);
        }
        h = mixed;
        i += 1;
    }
    proof {
        assert(lits@.take(lits@.len() as int) == lits@);
    }
    h
}

} // verus!
