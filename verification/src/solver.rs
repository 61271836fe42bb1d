use vstd::prelude::*;

use rayon::iter::IntoParallelRefIterator;
use rayon::iter::ParallelIterator;

use crate::board::Board;
use crate::board::all_played;
use crate::board::board_ok;
use crate::board::count_played;
use crate::board::lemma_count_played_le;
use crate::board::lemma_count_played_mono;
use crate::board::lemma_count_played_update;
use crate::board::assignment_ok;
use crate::board::assignment_within;
use crate::board::lemma_full_ok;
use crate::board::lemma_play_keeps_solution;
use crate::board::lemma_solution_needs_ok;
use crate::board::lemma_some_solvable;
use crate::board::lemma_play_refines;
use crate::board::lemma_refines_trans;
use crate::board::play_spec;
use crate::board::refines;
use crate::board::solvable;
use crate::cell::lemma_count_facts;
use crate::cell::lemma_count_le_nine;
use crate::cell::lemma_sole_count;
use crate::index::BoardIdx;

verus! {

/// What a forced-propagation pass over the board found.
#[derive(Clone, Copy, Debug)]
pub enum ScanOutcome {
    /// Some unplayed cell has no candidate left.
    Contradiction,
    /// Every cell is committed.
    Complete,
    /// The unplayed cell with the fewest candidates, to branch on.
    Branch(BoardIdx),
}

/// One forced-propagation pass in row-major order: every unplayed cell with a
/// single candidate is committed as it is encountered (later cells see the
/// effect, earlier ones are not revisited), an unplayed cell with no
/// candidate stops the pass at once, and otherwise the first unplayed cell
/// with the fewest candidates at its visit is reported for branching.
fn scan_forced(board: &mut Board) -> (r: ScanOutcome)
    requires
        old(board).wf(),
        board_ok(old(board).cells@),
    ensures
        final(board).wf(),
        refines(old(board).cells@, old(board).played@, final(board).cells@, final(board).played@),
        forall|i: int|
            0 <= i < 81 && #[trigger] final(board).played@[i]
                ==> final(board).cells@[i].count_spec() >= 1,
        r is Complete ==> all_played(final(board).played@) && board_ok(final(board).cells@),
        r matches ScanOutcome::Branch(idx) ==> idx.wf() && !final(board).played@[idx.idx as int],
        forall|sol: Seq<u8>|
            assignment_ok(sol) && #[trigger] assignment_within(sol, old(board).cells@)
                ==> assignment_within(sol, final(board).cells@),
        r is Contradiction ==> !solvable(old(board).cells@),
        all_played(old(board).played@) ==> final(board).cells@ == old(board).cells@
            && final(board).played@ == old(board).played@ && r is Complete,
{
    let mut least_cell: Option<BoardIdx> = None;
    let mut least_count: usize = usize::MAX;
    let mut p: usize = 0;
    while p < 81
        invariant
            board.wf(),
            p <= 81,
            refines(old(board).cells@, old(board).played@, board.cells@, board.played@),
            forall|i: int|
                0 <= i < 81 && #[trigger] board.played@[i] ==> board.cells@[i].count_spec() >= 1,
            least_cell is None ==> least_count == usize::MAX && forall|i: int|
                0 <= i < p ==> #[trigger] board.played@[i],
            least_cell matches Some(t) ==> t.wf() && t.idx < p && !board.played@[t.idx as int],
            forall|sol: Seq<u8>|
                assignment_ok(sol) && #[trigger] assignment_within(sol, old(board).cells@)
                    ==> assignment_within(sol, board.cells@),
            all_played(old(board).played@) ==> board.cells@ == old(board).cells@ && board.played@
                == old(board).played@ && least_cell is None,
        decreases 81 - p,
    {
        let idx = BoardIdx::new(p % 9, p / 9);
        proof {
            assert(p % 9 + (p / 9) * 9 == p) by (nonlinear_arith)
                requires
                    0 <= p < 81,
            ;
        }
        if !board.is_played(idx) {
            proof {
                if all_played(old(board).played@) {
                    assert(old(board).played@[p as int]);
                    assert(false);
                }
            }
            let cell = board.get(idx);
            let cnt = cell.num_possibilities();
            proof {
                lemma_count_le_nine(cell);
            }
            if cnt == 0 {
                proof {
                    assert forall|sol: Seq<u8>|
                        assignment_ok(sol) && #[trigger] assignment_within(
                            sol,
                            old(board).cells@,
                        ) implies false by {
                        assert(assignment_within(sol, board.cells@));
                        assert(board.cells@[p as int].possible_spec(sol[p as int]));
                        crate::cell::lemma_count_upto_pos(board.cells@[p as int], sol[p as int], 10);
                    }
                }
                return ScanOutcome::Contradiction;
            }
            if cnt == 1 {
                let poss = cell.possibilities();
                let d = poss[0];
                let ghost cur_cells = board.cells@;
                let ghost cur_played = board.played@;
                proof {
                    assert(cell.possible_spec(d));
                    lemma_play_refines(cur_cells, cur_played, p as int, d);
                }
                board.play_cell(idx, d);
                proof {
                    lemma_refines_trans(
                        old(board).cells@,
                        old(board).played@,
                        cur_cells,
                        cur_played,
                        board.cells@,
                        board.played@,
                    );
                    crate::cell::lemma_fixed_cell_possible(d);
                    assert forall|sol: Seq<u8>|
                        assignment_ok(sol) && #[trigger] assignment_within(
                            sol,
                            old(board).cells@,
                        ) implies assignment_within(sol, board.cells@) by {
                        assert(assignment_within(sol, cur_cells));
                        assert(cur_cells[p as int].possible_spec(sol[p as int]));
                        assert(sol[p as int] == d);
                        lemma_play_keeps_solution(sol, cur_cells, p as int, d);
                    }
                    assert forall|i: int| 0 <= i < 81 && #[trigger] board.played@[i] implies board
                        .cells@[i].count_spec() >= 1 by {
                        if i == p {
                            assert(board.cells@[i].sole_spec(d));
                            lemma_sole_count(board.cells@[i], d);
                        } else {
                            assert(cur_played[i]);
                            assert(cur_cells[i].count_spec() >= 1);
                            lemma_count_facts(cur_cells[i]);
                            let e = choose|e: u8| cur_cells[i].possible_spec(e);
                            assert(cur_cells[i].sole_spec(e));
                            if crate::index::same_group(p as int, i) {
                                if e == d {
                                    assert(!cur_cells[p as int].possible_spec(d));
                                    assert(false);
                                }
                                crate::cell::lemma_clear_cell_possible(cur_cells[i], d);
                                assert(board.cells@[i].possible_spec(e));
                                crate::cell::lemma_count_upto_pos(board.cells@[i], e, 10);
                            } else {
                                assert(board.cells@[i] == cur_cells[i]);
                            }
                        }
                    }
                }
            } else {
                if least_count > cnt {
                    least_count = cnt;
                    least_cell = Some(idx);
                }
            }
        }
        p = p + 1;
    }
    match least_cell {
        None => {
            proof {
                assert(all_played(board.played@));
                assert forall|i: int| 0 <= i < 81 implies (#[trigger] board.cells@[i]).count_spec()
                    >= 1 by {
                    assert(board.played@[i]);
                }
                lemma_full_ok(board.cells@, board.played@);
            }
            ScanOutcome::Complete
        },
        Some(t) => ScanOutcome::Branch(t),
    }
}

/// One branch of the search: explore the board that results from committing
/// the candidate digit `d` at the branching cell `next`.
pub fn solve_branch(board: &Board, next: BoardIdx, d: u8) -> (r: Option<Board>)
    requires
        board.wf(),
        next.wf(),
        1 <= d <= 9,
    ensures
        r matches Some(out) ==> out.wf() && all_played(out.played@) && board_ok(out.cells@)
            && refines(
            play_spec(board.cells@, next.idx as int, d),
            board.played@.update(next.idx as int, true),
            out.cells@,
            out.played@,
        ),
        r is None ==> !solvable(play_spec(board.cells@, next.idx as int, d)),
{
    let mut child = board.clone();
    child.play_cell(next, d);
    solve(child)
}

/// Relies on rayon's `ParallelIterator::find_map_any` (via `par_iter` on the
/// candidate vector): it returns `Some(out)` only when `out` is the result
/// of the mapped closure on one of the items, and it returns `None` only
/// when the closure was applied to every item and every application returned
/// `None`. The closure is a single call of the verified `solve_branch`, so
/// each clause below is rayon's guarantee combined with `solve_branch`'s
/// verified postcondition for the corresponding result: a returned board
/// satisfies it for some candidate digit, and a `None` result means every
/// candidate's branch was exhausted without a solution.
#[verifier::external_body]
fn solve_branches(board: &Board, next: BoardIdx, cands: &Vec<u8>) -> (r: Option<Board>)
    requires
        board.wf(),
        next.wf(),
        forall|k: int| 0 <= k < cands@.len() ==> 1 <= #[trigger] cands@[k] <= 9,
    ensures
        r matches Some(out) ==> out.wf() && all_played(out.played@) && board_ok(out.cells@)
            && exists|k: int|
            0 <= k < cands@.len() && refines(
                play_spec(board.cells@, next.idx as int, #[trigger] cands@[k]),
                board.played@.update(next.idx as int, true),
                out.cells@,
                out.played@,
            ),
        r is None ==> forall|k: int|
            0 <= k < cands@.len() ==> !solvable(
                play_spec(board.cells@, next.idx as int, #[trigger] cands@[k]),
            ),
{
    cands.par_iter().find_map_any(|&d| solve_branch(board, next, d))
}

/// The solver: check validity, run one forced-propagation pass, and then
/// explore the branching cell's candidates across parallel workers, keeping
/// whichever branch first yields a solution. It returns `Some` exactly when
/// some valid complete assignment is still open on the input; any returned
/// board is a fully committed, structurally valid narrowing of the input,
/// and an input that is already completely and validly committed comes back
/// unchanged.
pub fn solve(board: Board) -> (r: Option<Board>)
    requires
        board.wf(),
    ensures
        r matches Some(out) ==> out.wf() && all_played(out.played@) && board_ok(out.cells@)
            && refines(board.cells@, board.played@, out.cells@, out.played@),
        board_ok(board.cells@) && all_played(board.played@) ==> (r matches Some(out2)
            && out2.cells@ == board.cells@ && out2.played@ == board.played@),
        r is Some ==> solvable(board.cells@),
        r is None ==> !solvable(board.cells@),
{
    let mut b = board;
    match b.verify() {
        Err(_) => {
            proof {
                if solvable(b.cells@) {
                    let sol = choose|sol: Seq<u8>|
                        assignment_ok(sol) && #[trigger] assignment_within(sol, b.cells@);
                    lemma_solution_needs_ok(sol, b.cells@);
                }
            }
            return None;
        },
        Ok(_) => {},
    }
    match scan_forced(&mut b) {
        ScanOutcome::Contradiction => None,
        ScanOutcome::Complete => {
            proof {
                lemma_some_solvable(board.cells@, board.played@, b);
            }
            Some(b)
        },
        ScanOutcome::Branch(next) => {
            let cell = b.get(next);
            let cands = cell.possibilities();
            let sol = solve_branches(&b, next, &cands);
            proof {
                if let Option::Some(out) = &sol {
                    let k = choose|k: int|
                        0 <= k < cands@.len() && refines(
                            play_spec(b.cells@, next.idx as int, #[trigger] cands@[k]),
                            b.played@.update(next.idx as int, true),
                            out.cells@,
                            out.played@,
                        );
                    let d = cands@[k];
                    assert(cell.possible_spec(d));
                    lemma_play_refines(b.cells@, b.played@, next.idx as int, d);
                    lemma_refines_trans(
                        b.cells@,
                        b.played@,
                        play_spec(b.cells@, next.idx as int, d),
                        b.played@.update(next.idx as int, true),
                        out.cells@,
                        out.played@,
                    );
                    lemma_refines_trans(
                        board.cells@,
                        board.played@,
                        b.cells@,
                        b.played@,
                        out.cells@,
                        out.played@,
                    );
                    lemma_some_solvable(board.cells@, board.played@, *out);
                } else {
                    assert forall|s: Seq<u8>|
                        assignment_ok(s) && #[trigger] assignment_within(
                            s,
                            board.cells@,
                        ) implies false by {
                        assert(assignment_within(s, b.cells@));
                        let v = s[next.idx as int];
                        assert(cell.possible_spec(v));
                        assert(cands@.contains(v));
                        let k = choose|k: int| 0 <= k < cands@.len() && cands@[k] == v;
                        assert(!solvable(play_spec(b.cells@, next.idx as int, cands@[k])));
                        assert(!solvable(play_spec(b.cells@, next.idx as int, v)));
                        lemma_play_keeps_solution(s, b.cells@, next.idx as int, v);
                        assert(assignment_within(s, play_spec(b.cells@, next.idx as int, v)));
                        assert(false);
                    }
                }
            }
            sol
        },
    }
}

/// The sequential search: the same algorithm as `solve`, with the branching
/// cell's candidates explored one after another in ascending digit order.
/// Its `decreases` measure shows the search terminates on every board.
pub fn solve_seq(board: Board) -> (r: Option<Board>)
    requires
        board.wf(),
    ensures
        r matches Some(out) ==> out.wf() && all_played(out.played@) && board_ok(out.cells@)
            && refines(board.cells@, board.played@, out.cells@, out.played@),
        board_ok(board.cells@) && all_played(board.played@) ==> (r matches Some(out2)
            && out2.cells@ == board.cells@ && out2.played@ == board.played@),
        r is None ==> !solvable(board.cells@),
        r is Some ==> solvable(board.cells@),
    decreases 81 - count_played(board.played@, 81),
{
    let mut b = board;
    match b.verify() {
        Err(_) => {
            proof {
                if solvable(b.cells@) {
                    let sol = choose|sol: Seq<u8>|
                        assignment_ok(sol) && #[trigger] assignment_within(sol, b.cells@);
                    lemma_solution_needs_ok(sol, b.cells@);
                }
            }
            return None;
        },
        Ok(_) => {},
    }
    match scan_forced(&mut b) {
        ScanOutcome::Contradiction => None,
        ScanOutcome::Complete => {
            proof {
                lemma_some_solvable(board.cells@, board.played@, b);
            }
            Some(b)
        },
        ScanOutcome::Branch(next) => {
            let cell = b.get(next);
            let cands = cell.possibilities();
            let ghost scanned_cells = b.cells@;
            let ghost scanned_played = b.played@;
            let num_cands = cands.len();
            let mut ci: usize = 0;
            while ci < num_cands
                invariant
                    num_cands == cands@.len(),
                    ci <= num_cands,
                    b.wf(),
                    board.wf(),
                    b.cells@ == scanned_cells,
                    b.played@ == scanned_played,
                    next.wf(),
                    !scanned_played[next.idx as int],
                    cell == scanned_cells[next.idx as int],
                    forall|k: int|
                        0 <= k < cands@.len() ==> cell.possible_spec(#[trigger] cands@[k]),
                    refines(board.cells@, board.played@, scanned_cells, scanned_played),
                    !all_played(board.played@),
                    forall|sol: Seq<u8>|
                        assignment_ok(sol) && #[trigger] assignment_within(sol, scanned_cells)
                            ==> !(exists|k: int|
                            0 <= k < ci && #[trigger] cands@[k] == sol[next.idx as int]),
                decreases num_cands - ci,
            {
                let d = cands[ci];
                proof {
                    assert(1 <= d <= 9);
                }
                let mut child = b.clone();
                child.play_cell(next, d);
                let ghost child_cells = child.cells@;
                let ghost child_played = child.played@;
                proof {
                    lemma_play_refines(scanned_cells, scanned_played, next.idx as int, d);
                    lemma_count_played_update(scanned_played, next.idx as int, 81);
                    lemma_count_played_mono(board.played@, scanned_played, 81);
                    lemma_count_played_le(child.played@, 81);
                }
                let sol = solve_seq(child);
                if let Some(out) = sol {
                    proof {
                        lemma_refines_trans(
                            board.cells@,
                            board.played@,
                            scanned_cells,
                            scanned_played,
                            child_cells,
                            child_played,
                        );
                        lemma_refines_trans(
                            board.cells@,
                            board.played@,
                            child_cells,
                            child_played,
                            out.cells@,
                            out.played@,
                        );
                        lemma_some_solvable(board.cells@, board.played@, out);
                    }
                    return Some(out);
                }
                proof {
                    assert forall|sol2: Seq<u8>|
                        assignment_ok(sol2) && #[trigger] assignment_within(
                            sol2,
                            scanned_cells,
                        ) implies !(exists|k: int|
                        0 <= k < ci + 1 && #[trigger] cands@[k] == sol2[next.idx as int]) by {
                        if exists|k: int|
                            0 <= k < ci + 1 && #[trigger] cands@[k] == sol2[next.idx as int] {
                            let k = choose|k: int|
                                0 <= k < ci + 1 && #[trigger] cands@[k] == sol2[next.idx as int];
                            if k == ci {
                                lemma_play_keeps_solution(
                                    sol2,
                                    scanned_cells,
                                    next.idx as int,
                                    d,
                                );
                                assert(assignment_within(sol2, child_cells));
                                assert(!solvable(child_cells));
                                assert(false);
                            }
                        }
                    }
                }
                ci = ci + 1;
            }
            proof {
                assert forall|sol: Seq<u8>|
                    assignment_ok(sol) && #[trigger] assignment_within(
                        sol,
                        board.cells@,
                    ) implies false by {
                    assert(assignment_within(sol, scanned_cells));
                    let v = sol[next.idx as int];
                    assert(cell.possible_spec(v));
                    assert(cands@.contains(v));
                    let k = choose|k: int| 0 <= k < cands@.len() && cands@[k] == v;
                    assert(0 <= k < ci && cands@[k] == sol[next.idx as int]);
                    assert(false);
                }
            }
            None
        },
    }
}

} // verus!
