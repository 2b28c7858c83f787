//! Probable-failure calibration: correlate journaled queries
//! with the visits that followed them, and flag jumps that were likely
//! mistakes.
use vstd::prelude::*;

use crate::clock::Timestamp;
use crate::text;

verus! {

/// Seconds within which a next visit after a jump signals a probable failure.
pub const FAILURE_THRESHOLD_SECS: i64 = 10;

/// One journaled `queries` row.
pub struct QueryRecord {
    pub id: i64,
    pub ts: Timestamp,
    pub cwd: String,
    pub query: String,
    pub result_dir_id: Option<i64>,
    pub stage: String,
    pub outcome: String,
}

/// One `visits` row, as needed to correlate it with a query.
pub struct VisitRecord {
    pub dir_id: i64,
    pub ts: Timestamp,
    pub source: String,
    pub session: String,
}

/// Why a jump was flagged as a probable failure.
#[derive(Debug, Clone, Copy, PartialEq, Eq, Structural)]
pub enum FailureReason {
    Backtrack,
    MovedElsewhere,
}

/// A query whose jump was likely a mistake, and why.
pub struct ProbableFailure<'a> {
    pub query: &'a QueryRecord,
    pub reason: FailureReason,
}

/// Which visits a search looks for.
pub enum Wanted<'s> {
    /// A visit of this directory at or after this instant: the landing.
    Landing { dir_id: i64, since: Timestamp },
    /// A visit in this session strictly after this instant: the next move.
    After { session: &'s String, after: Timestamp },
}

/// The visit `v` is one the search looks for.
pub open spec fn wants(w: Wanted, v: VisitRecord) -> bool {
    match w {
        Wanted::Landing { dir_id, since } => v.dir_id == dir_id && v.ts.seconds() >= since.seconds(),
        Wanted::After { session, after } => v.session@ == session@ && v.ts.seconds() > after.seconds(),
    }
}

/// Among the first `n` visits, the index of the earliest wanted one; the
/// lowest index wins a tie.
pub open spec fn earliest_of(visits: Seq<VisitRecord>, w: Wanted, n: nat) -> Option<int>
    decreases n,
{
    if n == 0 {
        None
    } else {
        let rest = earliest_of(visits, w, (n - 1) as nat);
        let i = n - 1;
        if wants(w, visits[i]) && (rest is None || visits[i].ts.seconds() < visits[rest->0].ts.seconds()) {
            Some(i)
        } else {
            rest
        }
    }
}

proof fn lemma_earliest_of(visits: Seq<VisitRecord>, w: Wanted, n: nat)
    requires
        n <= visits.len(),
    ensures
        earliest_of(visits, w, n) matches Some(i) ==> 0 <= i < n && wants(w, visits[i]),
        earliest_of(visits, w, n) is None ==> forall|j: int| 0 <= j < n ==> !wants(w, #[trigger] visits[j]),
    decreases n,
{
    if n > 0 {
        lemma_earliest_of(visits, w, (n - 1) as nat);
    }
}

/// The earliest visit the search wants, the first one on a tie, or `None`
/// when no visit qualifies.
fn earliest(visits: &[VisitRecord], wanted: &Wanted) -> (r: Option<usize>)
    ensures
        match r {
            Some(i) => earliest_of(visits@, *wanted, visits@.len()) == Some(i as int),
            None => earliest_of(visits@, *wanted, visits@.len()) is None,
        },
{
    let mut best: Option<usize> = None;
    let mut i: usize = 0;
    while i < visits.len()
        invariant
            i <= visits@.len(),
            match best {
                Some(b) => earliest_of(visits@, *wanted, i as nat) == Some(b as int),
                None => earliest_of(visits@, *wanted, i as nat) is None,
            },
        decreases visits@.len() - i,
    {
        proof {
            lemma_earliest_of(visits@, *wanted, i as nat);
        }
        let visit = &visits[i];
        let wanted_here = match wanted {
            Wanted::Landing { dir_id, since } => visit.dir_id == *dir_id && visit.ts.unix_seconds() >= since.unix_seconds(),
            Wanted::After { session, after } => visit.session == **session
                && visit.ts.unix_seconds() > after.unix_seconds(),
        };
        let better = match best {
            None => true,
            Some(b) => visit.ts.unix_seconds() < visits[b].ts.unix_seconds(),
        };
        if wanted_here && better {
            best = Some(i);
        }
        i += 1;
    }
    best
}

/// Why the jump of query `q` looks like a mistake, if it does: its landing
/// is the earliest visit of the result directory at or after the query; the
/// next move is the earliest later visit in the landing's session; a move
/// within the threshold that is a `back`, or that reaches another
/// directory, flags the jump.
pub open spec fn failure_of(q: QueryRecord, visits: Seq<VisitRecord>) -> Option<FailureReason> {
    if q.outcome@ != "jump"@ {
        None
    } else {
        match q.result_dir_id {
            None => None,
            Some(dir_id) => match earliest_of(visits, Wanted::Landing { dir_id, since: q.ts }, visits.len()) {
                None => None,
                Some(l) => {
                    let landing = visits[l];
                    match earliest_of(
                        visits,
                        Wanted::After { session: &landing.session, after: landing.ts },
                        visits.len(),
                    ) {
                        None => None,
                        Some(x) => {
                            let next = visits[x];
                            if next.ts.seconds() - landing.ts.seconds() > FAILURE_THRESHOLD_SECS {
                                None
                            } else if next.source@ == "back"@ {
                                Some(FailureReason::Backtrack)
                            } else if next.dir_id != dir_id {
                                Some(FailureReason::MovedElsewhere)
                            } else {
                                None
                            }
                        },
                    }
                },
            },
        }
    }
}

/// The flagged queries, in input order, each with its reason.
pub open spec fn failures(queries: Seq<QueryRecord>, visits: Seq<VisitRecord>) -> Seq<(QueryRecord, FailureReason)>
    decreases queries.len(),
{
    if queries.len() == 0 {
        seq![]
    } else {
        let rest = failures(queries.drop_last(), visits);
        match failure_of(queries.last(), visits) {
            Some(reason) => rest.push((queries.last(), reason)),
            None => rest,
        }
    }
}

/// The failure reason of one query, if its jump looks like a mistake.
fn failure(query: &QueryRecord, visits: &[VisitRecord]) -> (r: Option<FailureReason>)
    ensures
        r == failure_of(*query, visits@),
{
    if !text::same_str(query.outcome.as_str(), "jump") {
        return None;
    }
    let dir_id = match query.result_dir_id {
        Some(dir_id) => dir_id,
        None => return None,
    };
    let landing_index = match earliest(visits, &Wanted::Landing { dir_id, since: query.ts }) {
        Some(index) => index,
        None => return None,
    };
    proof {
        lemma_earliest_of(visits@, Wanted::Landing { dir_id, since: query.ts }, visits@.len());
    }
    let landing = &visits[landing_index];
    let next_index = match earliest(visits, &Wanted::After { session: &landing.session, after: landing.ts }) {
        Some(index) => index,
        None => return None,
    };
    proof {
        lemma_earliest_of(visits@, Wanted::After { session: &landing.session, after: landing.ts }, visits@.len());
    }
    let next = &visits[next_index];
    let elapsed: i128 = next.ts.unix_seconds() as i128 - landing.ts.unix_seconds() as i128;
    if elapsed > FAILURE_THRESHOLD_SECS as i128 {
        return None;
    }
    if text::same_str(next.source.as_str(), "back") {
        return Some(FailureReason::Backtrack);
    }
    if next.dir_id != dir_id {
        return Some(FailureReason::MovedElsewhere);
    }
    None
}

/// Flags every journaled jump whose landing was likely a mistake, in query
/// order.
pub fn probable_failures<'a>(queries: &'a [QueryRecord], visits: &[VisitRecord]) -> (r: Vec<ProbableFailure<'a>>)
    ensures
        r@.map_values(|f: ProbableFailure<'a>| (*f.query, f.reason)) == failures(queries@, visits@),
{
    let mut flagged: Vec<ProbableFailure<'a>> = Vec::new();
    let mut i: usize = 0;
    while i < queries.len()
        invariant
            i <= queries@.len(),
            flagged@.map_values(|f: ProbableFailure<'a>| (*f.query, f.reason)) == failures(queries@.take(i as int), visits@),
        decreases queries@.len() - i,
    {
        let query: &'a QueryRecord = &queries[i];
        let ghost before = flagged@;
        proof {
            assert(queries@.take(i + 1).drop_last() =~= queries@.take(i as int));
            assert(queries@.take(i + 1).last() == *query);
        }
        match failure(query, visits) {
            Some(reason) => {
                flagged.push(ProbableFailure { query, reason });
                assert(flagged@.map_values(|f: ProbableFailure<'a>| (*f.query, f.reason)) =~= before.map_values(
                    |f: ProbableFailure<'a>| (*f.query, f.reason),
                ).push((*query, reason)));
            },
            None => {},
        }
        i += 1;
    }
    assert(queries@.take(i as int) =~= queries@);
    flagged
}

/// Only a `jump` with a result directory is ever flagged, and only when
/// the next move came within the threshold.
pub proof fn lemma_only_quick_jumps_flagged(q: QueryRecord, visits: Seq<VisitRecord>)
    requires
        failure_of(q, visits) is Some,
    ensures
        q.outcome@ == "jump"@,
        q.result_dir_id is Some,
{
}

/// Among the first `n` visits, what `earliest_of` picks is wanted and comes
/// first by time, then by position, among the wanted ones.
proof fn lemma_earliest_of_is_first(visits: Seq<VisitRecord>, w: Wanted, n: nat)
    requires
        n <= visits.len(),
    ensures
        earliest_of(visits, w, n) matches Some(i) ==> forall|j: int|
            0 <= j < n && wants(w, #[trigger] visits[j]) ==> visits[i].ts.seconds() < visits[j].ts.seconds() || (
            visits[i].ts.seconds() == visits[j].ts.seconds() && i <= j),
    decreases n,
{
    lemma_earliest_of(visits, w, n);
    if n > 0 {
        lemma_earliest_of_is_first(visits, w, (n - 1) as nat);
        lemma_earliest_of(visits, w, (n - 1) as nat);
    }
}

/// What `earliest_of` picks among the first `n` visits depends on those
/// visits alone.
proof fn lemma_earliest_of_prefix(visits: Seq<VisitRecord>, more: Seq<VisitRecord>, w: Wanted, n: nat)
    requires
        n <= visits.len(),
        n <= more.len(),
        forall|j: int| 0 <= j < n ==> #[trigger] more[j] == visits[j],
    ensures
        earliest_of(more, w, n) == earliest_of(visits, w, n),
    decreases n,
{
    if n > 0 {
        lemma_earliest_of_prefix(visits, more, w, (n - 1) as nat);
        lemma_earliest_of(visits, w, (n - 1) as nat);
        let rest = earliest_of(visits, w, (n - 1) as nat);
        assert(more[n - 1] == visits[n - 1]);
        if rest is Some {
            let k = rest->0;
            assert(more[k] == visits[k]);
        }
    }
}

/// Visit `l` is the landing of a jump to `dir` made at `since`: a visit of
/// `dir` at or after `since`, the earliest such, the first of them on a tie.
pub open spec fn landing_at(visits: Seq<VisitRecord>, dir: i64, since: Timestamp, l: int) -> bool {
    &&& 0 <= l < visits.len()
    &&& visits[l].dir_id == dir
    &&& visits[l].ts.seconds() >= since.seconds()
    &&& forall|j: int|
        0 <= j < visits.len() && (#[trigger] visits[j]).dir_id == dir && visits[j].ts.seconds() >= since.seconds() ==> visits[l].ts.seconds()
            < visits[j].ts.seconds() || (visits[l].ts.seconds() == visits[j].ts.seconds() && l <= j)
}

/// Visit `x` is the next move after visit `l`: a visit in `l`'s session
/// strictly after it, the earliest such, the first of them on a tie.
pub open spec fn next_move_at(visits: Seq<VisitRecord>, l: int, x: int) -> bool {
    &&& 0 <= x < visits.len()
    &&& visits[x].session@ == visits[l].session@
    &&& visits[x].ts.seconds() > visits[l].ts.seconds()
    &&& forall|j: int|
        0 <= j < visits.len() && (#[trigger] visits[j]).session@ == visits[l].session@ && visits[j].ts.seconds()
            > visits[l].ts.seconds() ==> visits[x].ts.seconds() < visits[j].ts.seconds() || (visits[x].ts.seconds()
            == visits[j].ts.seconds() && x <= j)
}

/// The verdict on a jump to `dir` whose landing is visit `l` and whose next
/// move is visit `x`: no failure when the move came after the threshold, a
/// backtrack when it is a `back`, a move elsewhere when it reaches another
/// directory, nothing otherwise.
pub open spec fn verdict(visits: Seq<VisitRecord>, dir: i64, l: int, x: int) -> Option<FailureReason> {
    if visits[x].ts.seconds() - visits[l].ts.seconds() > FAILURE_THRESHOLD_SECS {
        None
    } else if visits[x].source@ == "back"@ {
        Some(FailureReason::Backtrack)
    } else if visits[x].dir_id != dir {
        Some(FailureReason::MovedElsewhere)
    } else {
        None
    }
}

/// Two indices that both come first by time then position among the same
/// wanted visits are the same index.
proof fn lemma_first_unique(visits: Seq<VisitRecord>, w: Wanted, i: int, l: int)
    requires
        0 <= i < visits.len(),
        0 <= l < visits.len(),
        wants(w, visits[i]),
        wants(w, visits[l]),
        visits[i].ts.seconds() < visits[l].ts.seconds() || (visits[i].ts.seconds() == visits[l].ts.seconds() && i <= l),
        visits[l].ts.seconds() < visits[i].ts.seconds() || (visits[l].ts.seconds() == visits[i].ts.seconds() && l <= i),
    ensures
        i == l,
{
}

/// A journaled jump is judged on its landing and the next move after it:
/// the landing is the earliest visit of the result directory at or after
/// the query (visits before the query never count), the next move is the
/// earliest later visit in the landing's session, and the verdict follows
/// from how soon that move came, whether it is a `back`, and where it went.
pub proof fn lemma_failure_judged_on_landing_and_next_move(q: QueryRecord, visits: Seq<VisitRecord>, dir: i64, l: int, x: int)
    requires
        q.outcome@ == "jump"@,
        q.result_dir_id == Some(dir),
        landing_at(visits, dir, q.ts, l),
        next_move_at(visits, l, x),
    ensures
        failure_of(q, visits) == verdict(visits, dir, l, x),
{
    let wl = Wanted::Landing { dir_id: dir, since: q.ts };
    lemma_earliest_of(visits, wl, visits.len());
    lemma_earliest_of_is_first(visits, wl, visits.len());
    let i = earliest_of(visits, wl, visits.len())->0;
    assert(wants(wl, visits[l]));
    assert(visits[i].dir_id == dir && visits[i].ts.seconds() >= q.ts.seconds());
    lemma_first_unique(visits, wl, i, l);
    let wx = Wanted::After { session: &visits[l].session, after: visits[l].ts };
    lemma_earliest_of(visits, wx, visits.len());
    lemma_earliest_of_is_first(visits, wx, visits.len());
    assert(wants(wx, visits[x]));
    let k = earliest_of(visits, wx, visits.len())->0;
    assert(visits[k].session@ == visits[l].session@ && visits[k].ts.seconds() > visits[l].ts.seconds());
    lemma_first_unique(visits, wx, k, x);
}

/// A jump is never flagged without a visit of its result directory at or
/// after the query.
pub proof fn lemma_no_landing_no_failure(q: QueryRecord, visits: Seq<VisitRecord>)
    requires
        q.result_dir_id matches Some(dir) && forall|j: int|
            0 <= j < visits.len() ==> !((#[trigger] visits[j]).dir_id == dir && visits[j].ts.seconds() >= q.ts.seconds()),
    ensures
        failure_of(q, visits) is None,
{
    let dir = q.result_dir_id->0;
    let wl = Wanted::Landing { dir_id: dir, since: q.ts };
    lemma_earliest_of(visits, wl, visits.len());
}

/// A jump is never flagged when nothing follows its landing in the
/// landing's session.
pub proof fn lemma_no_next_move_no_failure(q: QueryRecord, visits: Seq<VisitRecord>, dir: i64, l: int)
    requires
        q.result_dir_id == Some(dir),
        landing_at(visits, dir, q.ts, l),
        forall|j: int|
            0 <= j < visits.len() ==> !((#[trigger] visits[j]).session@ == visits[l].session@ && visits[j].ts.seconds()
                > visits[l].ts.seconds()),
    ensures
        failure_of(q, visits) is None,
{
    let wl = Wanted::Landing { dir_id: dir, since: q.ts };
    lemma_earliest_of(visits, wl, visits.len());
    lemma_earliest_of_is_first(visits, wl, visits.len());
    assert(wants(wl, visits[l]));
    let i = earliest_of(visits, wl, visits.len())->0;
    lemma_first_unique(visits, wl, i, l);
    let wx = Wanted::After { session: &visits[l].session, after: visits[l].ts };
    lemma_earliest_of(visits, wx, visits.len());
}

/// A visit from before the query never changes the verdict on it: the
/// landing is at or after the query and the next move after the landing.
pub proof fn lemma_earlier_visits_do_not_matter(q: QueryRecord, visits: Seq<VisitRecord>, v: VisitRecord)
    requires
        v.ts.seconds() < q.ts.seconds(),
    ensures
        failure_of(q, visits.push(v)) == failure_of(q, visits),
{
    let more = visits.push(v);
    let n = visits.len();
    assert forall|j: int| 0 <= j < n implies #[trigger] more[j] == visits[j] by {}
    if q.outcome@ == "jump"@ && q.result_dir_id is Some {
        let dir = q.result_dir_id->0;
        let wl = Wanted::Landing { dir_id: dir, since: q.ts };
        lemma_earliest_of_prefix(visits, more, wl, n);
        assert(!wants(wl, more[n as int]));
        assert(earliest_of(more, wl, n + 1) == earliest_of(visits, wl, n));
        lemma_earliest_of(visits, wl, n);
        if earliest_of(visits, wl, n) is Some {
            let l = earliest_of(visits, wl, n)->0;
            assert(more[l] == visits[l]);
            let wx = Wanted::After { session: &visits[l].session, after: visits[l].ts };
            lemma_earliest_of_prefix(visits, more, wx, n);
            assert(!wants(wx, more[n as int]));
            assert(earliest_of(more, wx, n + 1) == earliest_of(visits, wx, n));
            lemma_earliest_of(visits, wx, n);
            if earliest_of(visits, wx, n) is Some {
                let x = earliest_of(visits, wx, n)->0;
                assert(more[x] == visits[x]);
            }
        }
    }
}

} // verus!
