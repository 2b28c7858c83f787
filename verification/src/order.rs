//! The ranking comparator on executable sort keys.
use std::cmp::Ordering;

use vstd::prelude::*;

use crate::clock::Timestamp;
use crate::rank::{self, KeyTuple, Scored};
use crate::text;

verus! {

/// The four sort keys of a ranked entry: score, recency, name length, path.
#[derive(Debug, Clone, Copy, PartialEq, Eq)]
pub struct RankKey<'a> {
    pub score: u32,
    pub last_visit: Timestamp,
    pub name_len: usize,
    pub path: &'a str,
}

/// The keys as plain values.
pub open spec fn key_view(k: RankKey) -> KeyTuple {
    (k.score as int, k.last_visit.seconds() as int, k.name_len as int, k.path@)
}

/// The sort keys of a ranked entry; the name length counts characters.
pub fn key<'a>(scored: &Scored<'a>) -> (r: RankKey<'a>)
    ensures
        key_view(r) == rank::key_of(rank::entry_of(*scored)),
        r.path@ == scored.candidate.path@,
{
    RankKey {
        score: scored.score,
        last_visit: scored.candidate.last_visit,
        name_len: text::chars_of(scored.candidate.name.as_str()).len(),
        path: scored.candidate.path.as_str(),
    }
}

/// Orders two keys: `Less` when `left` ranks first, `Greater` when `right`
/// does, `Equal` only for equal keys.
pub fn compare(left: &RankKey, right: &RankKey) -> (r: Ordering)
    ensures
        (r == Ordering::Less) == rank::key_before(key_view(*left), key_view(*right)),
        (r == Ordering::Greater) == rank::key_before(key_view(*right), key_view(*left)),
        (r == Ordering::Equal) == (key_view(*left) == key_view(*right)),
{
    proof {
        rank::lemma_lex_irreflexive(left.path@);
        rank::lemma_lex_trichotomy(left.path@, right.path@);
        if rank::lex_lt(left.path@, right.path@) {
            rank::lemma_lex_asymmetric(left.path@, right.path@);
        }
    }
    if left.score != right.score {
        return if left.score > right.score { Ordering::Less } else { Ordering::Greater };
    }
    let l = left.last_visit.unix_seconds();
    let r = right.last_visit.unix_seconds();
    if l != r {
        return if l > r { Ordering::Less } else { Ordering::Greater };
    }
    if left.name_len != right.name_len {
        return if left.name_len < right.name_len { Ordering::Less } else { Ordering::Greater };
    }
    let lp = text::chars_of(left.path);
    let rp = text::chars_of(right.path);
    if rank::lex_less(&lp, &rp) {
        Ordering::Less
    } else if rank::lex_less(&rp, &lp) {
        Ordering::Greater
    } else {
        Ordering::Equal
    }
}

} // verus!
