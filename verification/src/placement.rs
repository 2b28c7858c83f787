//! Why stage 1's dynamic program is right: a placement of a token is any
//! choice of increasing positions in the normalized name that spell it, the
//! table scores it character by character, and the program's answer is the
//! score of the best such placement, with its start.
use vstd::prelude::*;

use crate::normalize;
use crate::stage1::{best_at, best_end, best_placement_of, best_pred, first_bonus, keep_first, step, word_bonus};

verus! {

/// `p` places `t[0..p.len()]` on strictly increasing positions of `c` that
/// hold the same characters.
pub open spec fn placement(t: Seq<char>, c: Seq<char>, p: Seq<int>) -> bool {
    &&& 0 < p.len() <= t.len()
    &&& forall|a: int| 0 <= a < p.len() ==> 0 <= #[trigger] p[a] < c.len() && c[p[a]] == t[a]
    &&& forall|a: int, b: int| 0 <= a < b < p.len() ==> #[trigger] p[a] < #[trigger] p[b]
}

/// `p` places the whole of `t` in the normalized `s`.
pub open spec fn full_placement(t: Seq<char>, s: Seq<char>, p: Seq<int>) -> bool {
    placement(t, normalize::normalize_seq(s), p) && p.len() == t.len()
}

/// What the stage-1 table gives placement `p` in name `s`: the first
/// character's word-start and name-start bonuses, then for every later
/// character the consecutive bonus or gap penalty and its word-start bonus.
pub open spec fn placement_score(s: Seq<char>, p: Seq<int>) -> int
    decreases p.len(),
{
    if p.len() <= 1 {
        first_bonus(s, p[0])
    } else {
        placement_score(s, p.drop_last()) + step(p[p.len() - 2], p.last()) + word_bonus(s, p.last())
    }
}

proof fn lemma_keep_first(first: Option<(int, int)>, second: Option<(int, int)>)
    ensures
        first is Some ==> keep_first(first, second) is Some && first.unwrap().0 <= keep_first(first, second).unwrap().0,
        second is Some ==> keep_first(first, second) is Some && second.unwrap().0 <= keep_first(first, second).unwrap().0,
        keep_first(first, second) is Some ==> keep_first(first, second) == first || keep_first(first, second) == second,
        keep_first(first, second) is Some && keep_first(first, second) != first ==> keep_first(first, second) == second,
{
}

/// A prefix of a placement is a placement.
proof fn lemma_prefix(t: Seq<char>, c: Seq<char>, p: Seq<int>)
    requires
        placement(t, c, p),
        p.len() > 1,
    ensures
        placement(t, c, p.drop_last()),
        p.drop_last().last() < p.last(),
{
    let q = p.drop_last();
    assert forall|a: int| 0 <= a < q.len() implies 0 <= #[trigger] q[a] < c.len() && c[q[a]] == t[a] by {
        assert(q[a] == p[a]);
    }
    assert forall|a: int, b: int| 0 <= a < b < q.len() implies #[trigger] q[a] < #[trigger] q[b] by {
        assert(q[a] == p[a] && q[b] == p[b]);
    }
    assert(p[p.len() - 2] < p[p.len() - 1]);
}

/// Some predecessor `j < m` of `t[k]` at `i` is at least as good as any one
/// the table could pick.
proof fn lemma_pred_bound(t: Seq<char>, s: Seq<char>, k: nat, i: nat, m: nat, j: nat)
    requires
        k > 0,
        j < m,
        best_at(t, s, (k - 1) as nat, j) is Some,
    ensures
        best_pred(t, s, k, i, m) is Some,
        best_at(t, s, (k - 1) as nat, j).unwrap().0 + step(j as int, i as int) <= best_pred(t, s, k, i, m).unwrap().0,
    decreases m,
{
    let last = (m - 1) as nat;
    let here = match best_at(t, s, (k - 1) as nat, last) {
        Some(p) => Some((p.0 + step(last as int, i as int), p.1)),
        None => None,
    };
    lemma_keep_first(best_pred(t, s, k, i, last), here);
    if j < last {
        lemma_pred_bound(t, s, k, i, last, j);
    }
}

/// Every placement ending at `i` scores at most what the table keeps for `i`.
proof fn lemma_at_bound(t: Seq<char>, s: Seq<char>, p: Seq<int>)
    requires
        placement(t, normalize::normalize_seq(s), p),
    ensures
        best_at(t, s, (p.len() - 1) as nat, p.last() as nat) is Some,
        placement_score(s, p) <= best_at(t, s, (p.len() - 1) as nat, p.last() as nat).unwrap().0,
    decreases p.len(),
{
    let c = normalize::normalize_seq(s);
    let k = (p.len() - 1) as nat;
    let i = p.last() as nat;
    assert(0 <= p[p.len() - 1] < c.len() && c[p[p.len() - 1]] == t[p.len() - 1]);
    if p.len() > 1 {
        let q = p.drop_last();
        lemma_prefix(t, c, p);
        lemma_at_bound(t, s, q);
        let j = q.last() as nat;
        assert(q.len() - 1 == k - 1);
        lemma_pred_bound(t, s, k, i, i, j);
        assert(p[p.len() - 2] == j);
    }
}

/// The predecessor the table kept for `t[k]` at `i`, among positions below `m`.
proof fn lemma_pred_witness(t: Seq<char>, s: Seq<char>, k: nat, i: nat, m: nat) -> (j: nat)
    requires
        best_pred(t, s, k, i, m) is Some,
    ensures
        k > 0,
        j < m,
        best_at(t, s, (k - 1) as nat, j) is Some,
        best_pred(t, s, k, i, m).unwrap().0 == best_at(t, s, (k - 1) as nat, j).unwrap().0 + step(j as int, i as int),
        best_pred(t, s, k, i, m).unwrap().1 == best_at(t, s, (k - 1) as nat, j).unwrap().1,
    decreases m,
{
    let last = (m - 1) as nat;
    let here = match best_at(t, s, (k - 1) as nat, last) {
        Some(p) => Some((p.0 + step(last as int, i as int), p.1)),
        None => None,
    };
    lemma_keep_first(best_pred(t, s, k, i, last), here);
    if best_pred(t, s, k, i, m) == here {
        last
    } else {
        lemma_pred_witness(t, s, k, i, last)
    }
}

/// The placement behind what the table keeps for `t[0..=k]` ending at `i`.
proof fn lemma_at_witness(t: Seq<char>, s: Seq<char>, k: nat, i: nat) -> (p: Seq<int>)
    requires
        best_at(t, s, k, i) is Some,
    ensures
        placement(t, normalize::normalize_seq(s), p),
        p.len() == k + 1,
        p.last() == i,
        p[0] == best_at(t, s, k, i).unwrap().1,
        placement_score(s, p) == best_at(t, s, k, i).unwrap().0,
    decreases k,
{
    let c = normalize::normalize_seq(s);
    assert(k < t.len() && i < c.len() && c[i as int] == t[k as int]);
    if k == 0 {
        let p = seq![i as int];
        assert(p[0] == i);
        p
    } else {
        let j = lemma_pred_witness(t, s, k, i, i);
        let q = lemma_at_witness(t, s, (k - 1) as nat, j);
        let p = q.push(i as int);
        assert(p.drop_last() =~= q);
        assert forall|a: int| 0 <= a < p.len() implies 0 <= #[trigger] p[a] < c.len() && c[p[a]] == t[a] by {
            if a < q.len() {
                assert(p[a] == q[a]);
            }
        }
        assert forall|a: int, b: int| 0 <= a < b < p.len() implies #[trigger] p[a] < #[trigger] p[b] by {
            assert(p[a] == q[a]);
            if b < q.len() {
                assert(p[b] == q[b]);
            } else if a < q.len() - 1 {
                assert(q[a] < q[q.len() - 1]);
            }
        }
        assert(p[0] == q[0]);
        assert(p[p.len() - 2] == j);
        p
    }
}

/// Every whole placement ending below `m` scores at most the table's answer.
proof fn lemma_end_bound(t: Seq<char>, s: Seq<char>, m: nat, p: Seq<int>)
    requires
        full_placement(t, s, p),
        p.last() < m,
    ensures
        best_end(t, s, m) is Some,
        placement_score(s, p) <= best_end(t, s, m).unwrap().0,
    decreases m,
{
    let last = (m - 1) as nat;
    lemma_keep_first(best_end(t, s, last), best_at(t, s, (t.len() - 1) as nat, last));
    if p.last() == last {
        lemma_at_bound(t, s, p);
    } else {
        lemma_end_bound(t, s, last, p);
    }
}

/// The end position behind the table's answer below `m`.
proof fn lemma_end_witness(t: Seq<char>, s: Seq<char>, m: nat) -> (i: nat)
    requires
        best_end(t, s, m) is Some,
    ensures
        t.len() > 0,
        i < m,
        best_end(t, s, m) == best_at(t, s, (t.len() - 1) as nat, i),
    decreases m,
{
    let last = (m - 1) as nat;
    lemma_keep_first(best_end(t, s, last), best_at(t, s, (t.len() - 1) as nat, last));
    if best_end(t, s, m) == best_at(t, s, (t.len() - 1) as nat, last) {
        last
    } else {
        lemma_end_witness(t, s, last)
    }
}

/// Stage 1 scores a token by its best placement, not by the first one found:
/// every placement of the whole token in the normalized name scores at most
/// the program's answer, there is one exactly when the answer exists, and
/// the answer is the score of an actual placement that starts where it says.
pub proof fn lemma_best_placement_is_optimal(t: Seq<char>, s: Seq<char>)
    ensures
        forall|p: Seq<int>| #[trigger] full_placement(t, s, p) ==> {
            &&& best_placement_of(t, s) is Some
            &&& placement_score(s, p) <= best_placement_of(t, s).unwrap().0
        },
        best_placement_of(t, s) is Some ==> exists|p: Seq<int>| {
            &&& #[trigger] full_placement(t, s, p)
            &&& p[0] == best_placement_of(t, s).unwrap().1
            &&& placement_score(s, p) == best_placement_of(t, s).unwrap().0
        },
{
    let m = normalize::normalize_seq(s).len();
    assert forall|p: Seq<int>| #[trigger] full_placement(t, s, p) implies {
        &&& best_placement_of(t, s) is Some
        &&& placement_score(s, p) <= best_placement_of(t, s).unwrap().0
    } by {
        assert(0 <= p[p.len() - 1] < m);
        lemma_end_bound(t, s, m, p);
    }
    if best_placement_of(t, s) is Some {
        let i = lemma_end_witness(t, s, m);
        let p = lemma_at_witness(t, s, (t.len() - 1) as nat, i);
        assert(full_placement(t, s, p));
    }
}

} // verus!
