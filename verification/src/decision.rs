//! The decision rule: from an already-ranked list, jump to the
//! best candidate, or show a short menu when stage-2 candidates tie.
use vstd::prelude::*;

use crate::rank::{entry_of, lemma_dispatch_ranges, lemma_ranked_member, pool, Candidate, Engine, Scored, Stage};
use crate::text::{self, chars_of, decimal_of, parse_usize_of, push_decimal, push_str, trim_of};

verus! {

/// Most entries the menu ever shows.
pub const MENU_MAX_ENTRIES: usize = 9;

/// What the decision rule concludes from a ranked candidate list.
#[derive(Debug, Clone, PartialEq, Eq)]
pub enum Decision<'a> {
    Jump(&'a Candidate),
    Menu(Vec<&'a Candidate>),
    NoMatch,
}

/// The index, at or after `i`, of the first entry whose score differs from
/// the best one (or the length, when none does).
pub open spec fn tie_end(ranked: Seq<Scored>, i: nat) -> nat
    decreases ranked.len() - i,
{
    if i < ranked.len() && ranked[i as int].score == ranked[0].score {
        tie_end(ranked, i + 1)
    } else {
        i
    }
}

/// How many candidates a menu over `ranked` holds: the leading run of
/// scores equal to the best one, at most `MENU_MAX_ENTRIES`.
pub open spec fn menu_size(ranked: Seq<Scored>) -> nat {
    let run = tie_end(ranked, 0);
    if run < MENU_MAX_ENTRIES { run } else { MENU_MAX_ENTRIES as nat }
}

/// The candidates of the first `n` entries, in rank order.
pub open spec fn leading_candidates<'a>(ranked: Seq<Scored<'a>>, n: nat) -> Seq<&'a Candidate> {
    ranked.take(n as int).map_values(|s: Scored<'a>| s.candidate)
}

/// The decision rule: nothing on an empty list; a stage-1 best always
/// jumps; a stage-2 best jumps when alone at its score and otherwise opens a
/// menu of the tied candidates.
pub open spec fn decides<'a>(ranked: Seq<Scored<'a>>, d: Decision<'a>) -> bool {
    match d {
        Decision::NoMatch => ranked.len() == 0,
        Decision::Jump(c) => ranked.len() > 0 && c == ranked[0].candidate
            && (ranked[0].stage == Stage::One || menu_size(ranked) < 2),
        Decision::Menu(v) => ranked.len() > 0 && ranked[0].stage == Stage::Two
            && menu_size(ranked) >= 2 && v@ == leading_candidates(ranked, menu_size(ranked)),
    }
}

proof fn lemma_tie_end_bounds(ranked: Seq<Scored>, i: nat)
    requires
        i <= ranked.len(),
    ensures
        i <= tie_end(ranked, i) <= ranked.len(),
        forall|j: int| i <= j < tie_end(ranked, i) ==> #[trigger] ranked[j].score == ranked[0].score,
        tie_end(ranked, i) < ranked.len() ==> ranked[tie_end(ranked, i) as int].score != ranked[0].score,
    decreases ranked.len() - i,
{
    if i < ranked.len() && ranked[i as int].score == ranked[0].score {
        lemma_tie_end_bounds(ranked, i + 1);
    }
}

/// Applies the decision rule to `rank`'s output.
pub fn decide<'a>(ranked: &[Scored<'a>]) -> (r: Decision<'a>)
    ensures
        decides(ranked@, r),
{
    if ranked.len() == 0 {
        return Decision::NoMatch;
    }
    let top = ranked[0];
    if top.stage == Stage::One {
        return Decision::Jump(top.candidate);
    }
    let mut tied: Vec<&'a Candidate> = Vec::new();
    let mut i: usize = 0;
    while i < ranked.len() && i < MENU_MAX_ENTRIES && ranked[i].score == top.score
        invariant
            i <= ranked@.len(),
            i <= MENU_MAX_ENTRIES,
            top == ranked@[0],
            forall|j: int| 0 <= j < i ==> ranked@[j].score == top.score,
            tied@ == leading_candidates(ranked@, i as nat),
        decreases ranked@.len() - i,
    {
        tied.push(ranked[i].candidate);
        assert(leading_candidates(ranked@, (i + 1) as nat) =~= leading_candidates(ranked@, i as nat).push(ranked@[i as int].candidate));
        i += 1;
    }
    proof {
        lemma_tie_end_bounds(ranked@, 0);
        let run = tie_end(ranked@, 0);
        if i < MENU_MAX_ENTRIES {
            // the loop stopped at the first differing score, or at the end
            assert(i == run) by {
                if run < i {
                    assert(ranked@[run as int].score == top.score);
                }
                if i < run {
                    assert(ranked@[i as int].score == ranked@[0].score);
                }
            }
        } else {
            assert(run >= i) by {
                if run < i {
                    assert(ranked@[run as int].score == top.score);
                }
            }
        }
        assert(i == menu_size(ranked@));
    }
    if tied.len() < 2 {
        return Decision::Jump(top.candidate);
    }
    Decision::Menu(tied)
}

/// The menu's first line.
pub open spec fn menu_title() -> Seq<char> {
    "Choose a directory:\n"@
}

/// The menu's last line.
pub open spec fn menu_footer() -> Seq<char> {
    "Enter to confirm, Esc to cancel\n"@
}

/// One numbered menu line: two spaces, the 1-based number, `) `, the path.
pub open spec fn menu_line(index: nat, path: Seq<char>) -> Seq<char> {
    seq![' ', ' '] + decimal_of(index + 1) + seq![')', ' '] + path + seq!['\n']
}

/// The numbered lines for `paths`, in order.
pub open spec fn menu_lines(paths: Seq<Seq<char>>) -> Seq<char>
    decreases paths.len(),
{
    if paths.len() == 0 {
        seq![]
    } else {
        menu_lines(paths.drop_last()) + menu_line((paths.len() - 1) as nat, paths.last())
    }
}

/// The whole menu text for candidates with these paths.
pub open spec fn menu_text(paths: Seq<Seq<char>>) -> Seq<char> {
    menu_title() + menu_lines(paths) + menu_footer()
}

/// The paths of `candidates`, in order.
pub open spec fn paths_of(candidates: Seq<&Candidate>) -> Seq<Seq<char>> {
    candidates.map_values(|c: &Candidate| c.path@)
}

/// Appends the numbered lines of a menu over `candidates`.
pub fn push_menu_lines(out: &mut Vec<char>, candidates: &[&Candidate])
    ensures
        final(out)@ == old(out)@ + menu_lines(paths_of(candidates@)),
{
    let ghost start = out@;
    let mut i: usize = 0;
    assert(paths_of(candidates@).take(0) =~= Seq::<Seq<char>>::empty());
    while i < candidates.len()
        invariant
            i <= candidates@.len(),
            out@ == start + menu_lines(paths_of(candidates@).take(i as int)),
        decreases candidates@.len() - i,
    {
        let candidate: &Candidate = candidates[i];
        let ghost before = out@;
        text::push_str(out, "  ");
        push_decimal(out, (i + 1) as u64);
        text::push_str(out, ") ");
        text::push_str(out, candidate.path.as_str());
        out.push('\n');
        proof {
            reveal_strlit("  ");
            reveal_strlit(") ");
            let paths = paths_of(candidates@);
            assert(paths.take(i + 1).drop_last() =~= paths.take(i as int));
            assert(paths.take(i + 1).last() == candidate.path@);
            assert(out@ =~= before + menu_line(i as nat, candidate.path@));
        }
        i += 1;
    }
    assert(paths_of(candidates@).take(i as int) =~= paths_of(candidates@));
}

/// Renders the console menu; the caller writes it to stderr, never to
/// stdout.
pub fn render_menu(candidates: &[&Candidate]) -> (r: String)
    ensures
        r@ == menu_text(paths_of(candidates@)),
{
    let mut out: Vec<char> = Vec::new();
    push_str(&mut out, "Choose a directory:\n");
    push_menu_lines(&mut out, candidates);
    push_str(&mut out, "Enter to confirm, Esc to cancel\n");
    text::string_of(&out)
}

/// The answer a menu line reads as: a 1-based index within `1..=count`, or
/// `None` for every other input.
pub open spec fn selection_of(input: Seq<char>, count: nat) -> Option<usize> {
    match parse_usize_of(trim_of(input)) {
        Some(v) => if 1 <= v && v <= count { Some(v as usize) } else { None },
        None => None,
    }
}

/// Reads a menu answer: a 1-based index within `1..=count`, or `None` for
/// every other input, which cancels.
pub fn selection(input: &str, count: usize) -> (r: Option<usize>)
    ensures
        r == selection_of(input@, count as nat),
{
    let chars = chars_of(input);
    let trimmed = text::trim(&chars);
    match text::parse_usize(&trimmed) {
        Some(index) => {
            if 1 <= index && index <= count {
                Some(index)
            } else {
                None
            }
        },
        None => None,
    }
}

/// A menu holds two to nine candidates: the leading ones of the ranking, in
/// rank order, all scored like the best one, and only when the best one is
/// a stage-2 match.
pub proof fn lemma_menu_shape<'a>(ranked: Seq<Scored<'a>>, shown: Vec<&'a Candidate>)
    requires
        decides(ranked, Decision::Menu(shown)),
    ensures
        2 <= shown@.len() <= MENU_MAX_ENTRIES,
        ranked[0].stage == Stage::Two,
        forall|i: int| 0 <= i < shown@.len() ==> #[trigger] shown@[i] == ranked[i].candidate && ranked[i].score == ranked[0].score,
{
    lemma_tie_end_bounds(ranked, 0);
    assert forall|i: int| 0 <= i < shown@.len() implies #[trigger] shown@[i] == ranked[i].candidate && ranked[i].score == ranked[0].score by {
        assert(leading_candidates(ranked, menu_size(ranked))[i] == ranked.take(menu_size(ranked) as int)[i].candidate);
    }
}

/// A menu opened on a ranking holds stage-2 matches only: every entry ties
/// the stage-2 best, and no stage-1 score is that low.
pub proof fn lemma_menu_is_stage_two<'a>(
    query: Seq<char>,
    current_dir: Seq<char>,
    cs: Seq<Candidate>,
    typo_min_length: nat,
    engine: Engine,
    ranked: Seq<Scored<'a>>,
    shown: Vec<&'a Candidate>,
)
    requires
        ranked.map_values(|s: Scored<'a>| entry_of(s)).to_multiset() == pool(query, current_dir, cs, typo_min_length, engine).to_multiset(),
        decides(ranked, Decision::Menu(shown)),
    ensures
        forall|i: int| 0 <= i < shown@.len() ==> (#[trigger] ranked[i]).stage == Stage::Two,
{
    lemma_menu_shape(ranked, shown);
    lemma_tie_end_bounds(ranked, 0);
    assert forall|i: int| 0 <= i < shown@.len() implies (#[trigger] ranked[i]).stage == Stage::Two by {
        assert(shown@[i] == ranked[i].candidate && ranked[i].score == ranked[0].score);
        lemma_ranked_member(query, current_dir, cs, typo_min_length, engine, ranked, i);
        lemma_ranked_member(query, current_dir, cs, typo_min_length, engine, ranked, 0);
        lemma_dispatch_ranges(query, *ranked[i].candidate, typo_min_length, engine);
        lemma_dispatch_ranges(query, *ranked[0].candidate, typo_min_length, engine);
    }
}

/// A stage-1 best candidate always jumps, however many candidates tie it.
pub proof fn lemma_stage_one_jumps<'a>(ranked: Seq<Scored<'a>>, d: Decision<'a>)
    requires
        decides(ranked, d),
        ranked.len() > 0,
        ranked[0].stage == Stage::One,
    ensures
        d == Decision::Jump(ranked[0].candidate),
{
}

/// A selection is always a valid 1-based menu index.
pub proof fn lemma_selection_in_range(input: Seq<char>, count: nat)
    ensures
        selection_of(input, count) matches Some(i) ==> 1 <= i <= count,
{
}

} // verus!
