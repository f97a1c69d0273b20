//! Choosing the artifact to offer.
//!
//! Among the candidates whose version is strictly greater than the caller's
//! current version, the resolver picks the one with the maximal version;
//! when several share that maximal version it picks the lexicographically
//! smallest file name.  Directory iteration order is not guaranteed stable, so
//! the tie must not be left to scan order; the name order makes the choice
//! deterministic.

use vstd::prelude::*;

use crate::scanner::{Candidate, CandidateView};
use crate::version::{
    compare, lemma_compare_equal_congr, lemma_compare_reflexive, lemma_compare_trans_greater,
    spec_compare, valid_version, Order,
};

verus! {

// ---------------------------------------------------------------------------
// Lexicographic order on file names
// ---------------------------------------------------------------------------

/// Strict lexicographic order by code point, viewed from index `i`.
pub open spec fn lex_lt_from(a: Seq<char>, b: Seq<char>, i: int) -> bool
    decreases b.len() - i,
{
    if i >= b.len() {
        false
    } else if i >= a.len() {
        true
    } else if a[i] == b[i] {
        lex_lt_from(a, b, i + 1)
    } else {
        (a[i] as int) < (b[i] as int)
    }
}

pub open spec fn lex_lt(a: Seq<char>, b: Seq<char>) -> bool {
    lex_lt_from(a, b, 0)
}

pub open spec fn lex_le(a: Seq<char>, b: Seq<char>) -> bool {
    lex_lt(a, b) || a == b
}

proof fn lemma_lex_connex_from(a: Seq<char>, b: Seq<char>, i: int)
    requires
        0 <= i <= a.len(),
        i <= b.len(),
    ensures
        lex_lt_from(a, b, i) || lex_lt_from(b, a, i) || (a.len() == b.len() && forall|j: int|
            i <= j < a.len() ==> a[j] == b[j]),
    decreases a.len() - i,
{
    if i == b.len() {
    } else if i == a.len() {
    } else if a[i] == b[i] {
        lemma_lex_connex_from(a, b, i + 1);
    }
}

/// Any two names are ordered: one is lexicographically no later than the
/// other.
pub proof fn lemma_lex_connex(a: Seq<char>, b: Seq<char>)
    ensures
        lex_le(a, b) || lex_le(b, a),
{
    lemma_lex_connex_from(a, b, 0);
    if !lex_lt_from(a, b, 0) && !lex_lt_from(b, a, 0) {
        assert(a =~= b);
    }
}

proof fn lemma_lex_lt_trans_from(a: Seq<char>, b: Seq<char>, c: Seq<char>, i: int)
    requires
        lex_lt_from(a, b, i),
        lex_lt_from(b, c, i),
    ensures
        lex_lt_from(a, c, i),
    decreases c.len() - i,
{
    if i >= b.len() {
    } else if i >= a.len() {
    } else if i < a.len() && i < b.len() && i < c.len() && a[i] == b[i] && b[i] == c[i] {
        lemma_lex_lt_trans_from(a, b, c, i + 1);
    }
}

/// Strictly-before composes with no-later-than.
pub proof fn lemma_lex_lt_le_trans(a: Seq<char>, b: Seq<char>, c: Seq<char>)
    requires
        lex_lt(a, b),
        lex_le(b, c),
    ensures
        lex_lt(a, c),
{
    if b != c {
        lemma_lex_lt_trans_from(a, b, c, 0);
    }
}

/// Strict lexicographic comparison of two strings.
fn lex_less(a: &str, b: &str) -> (r: bool)
    ensures
        r == lex_lt(a@, b@),
{
    let na = a.unicode_len();
    let nb = b.unicode_len();
    let mut i: usize = 0;
    while i < na && i < nb
        invariant
            i <= na,
            i <= nb,
            na == a@.len(),
            nb == b@.len(),
            lex_lt_from(a@, b@, 0) == lex_lt_from(a@, b@, i as int),
        decreases na - i,
    {
        let ca = a.get_char(i);
        let cb = b.get_char(i);
        if ca == cb {
            i = i + 1;
        } else {
            return (ca as u32) < (cb as u32);
        }
    }
    i < nb
}

// ---------------------------------------------------------------------------
// Selection
// ---------------------------------------------------------------------------

/// The candidate offers a strictly newer version than the caller's.
pub open spec fn is_newer(c: CandidateView, cur: Seq<char>) -> bool {
    spec_compare(c.version, cur) == Order::Greater
}

/// `c` is the one to offer rather than `other`: `other` has no strictly
/// greater version, and on a version tie `c`'s file name is no later.
pub open spec fn selected_over(c: CandidateView, other: CandidateView) -> bool {
    &&& spec_compare(other.version, c.version) != Order::Greater
    &&& (spec_compare(other.version, c.version) == Order::Equal ==> lex_le(
        c.file_name,
        other.file_name,
    ))
}

/// Pick the candidate to offer, if any: strictly newer than `current`,
/// maximal in version, smallest file name among version ties.  `None` exactly
/// when no candidate is strictly newer.
pub fn resolve(candidates: &Vec<Candidate>, current: &str) -> (r: Option<usize>)
    ensures
        r matches Some(i) ==> {
            &&& i < candidates.len()
            &&& is_newer(candidates@[i as int]@, current@)
            &&& forall|j: int|
                0 <= j < candidates@.len() && #[trigger] is_newer(candidates@[j]@, current@)
                    ==> selected_over(candidates@[i as int]@, candidates@[j]@)
        },
        r is None <==> (forall|j: int|
            0 <= j < candidates@.len() ==> !#[trigger] is_newer(candidates@[j]@, current@)),
{
    let mut best: Option<usize> = None;
    let mut i: usize = 0;
    while i < candidates.len()
        invariant
            i <= candidates.len(),
            match best {
                None => forall|j: int|
                    0 <= j < i ==> !#[trigger] is_newer(candidates@[j]@, current@),
                Some(b) => {
                    &&& b < i
                    &&& is_newer(candidates@[b as int]@, current@)
                    &&& forall|j: int|
                        0 <= j < i && #[trigger] is_newer(candidates@[j]@, current@)
                            ==> selected_over(candidates@[b as int]@, candidates@[j]@)
                },
            },
        decreases candidates.len() - i,
    {
        let ord = compare(candidates[i].version.as_str(), current);
        let ghost vc = candidates@[i as int]@;
        if ord == Order::Greater {
            proof {
                assert(valid_version(vc.version));
                lemma_compare_reflexive(vc.version);
            }
            match best {
                None => {
                    best = Some(i);
                },
                Some(b) => {
                    let ghost vb = candidates@[b as int]@;
                    let vs = compare(
                        candidates[i].version.as_str(),
                        candidates[b].version.as_str(),
                    );
                    if vs == Order::Greater {
                        proof {
                            assert forall|j: int|
                                0 <= j < i + 1 && #[trigger] is_newer(
                                    candidates@[j]@,
                                    current@,
                                ) implies selected_over(vc, candidates@[j]@) by {
                                let vj = candidates@[j]@;
                                if j < i {
                                    if spec_compare(vj.version, vc.version) == Order::Greater {
                                        lemma_compare_trans_greater(
                                            vj.version,
                                            vc.version,
                                            vb.version,
                                        );
                                    }
                                    if spec_compare(vj.version, vc.version) == Order::Equal {
                                        lemma_compare_equal_congr(
                                            vj.version,
                                            vc.version,
                                            vb.version,
                                        );
                                    }
                                }
                            }
                        }
                        best = Some(i);
                    } else if vs == Order::Equal {
                        if lex_less(candidates[i].file_name.as_str(), candidates[b].file_name.as_str()) {
                            proof {
                                assert forall|j: int|
                                    0 <= j < i + 1 && #[trigger] is_newer(
                                        candidates@[j]@,
                                        current@,
                                    ) implies selected_over(vc, candidates@[j]@) by {
                                    let vj = candidates@[j]@;
                                    if j < i {
                                        lemma_compare_equal_congr(
                                            vc.version,
                                            vb.version,
                                            vj.version,
                                        );
                                        if spec_compare(vj.version, vc.version) == Order::Equal {
                                            lemma_lex_lt_le_trans(
                                                vc.file_name,
                                                vb.file_name,
                                                vj.file_name,
                                            );
                                        }
                                    }
                                }
                            }
                            best = Some(i);
                        } else {
                            proof {
                                lemma_lex_connex(vc.file_name, vb.file_name);
                                assert(selected_over(vb, vc));
                            }
                        }
                    } else {
                        proof {
                            assert(selected_over(vb, vc));
                        }
                    }
                },
            }
        }
        i = i + 1;
    }
    best
}

} // verus!
