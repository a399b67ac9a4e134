use vstd::prelude::*;

use crate::board::Board;
use crate::board::Candidates;
use crate::board::Cell;
use crate::board::peers;
use crate::board::seq_unsolved;
use crate::board::shares_unit;

verus! {

/// The recursion depth of one solver activation, kept for diagnostics only;
/// it has no effect on solving.
#[derive(Clone, Copy, Debug, PartialEq, Eq, Structural)]
pub struct Level {
    pub depth: usize,
}

impl Level {
    /// The outermost activation.
    pub fn new() -> (r: Level)
        ensures
            r.depth == 0,
    {
        Level { depth: 0 }
    }

    /// One activation deeper; the count saturates rather than wraps.
    pub fn deeper(&self) -> (r: Level)
        ensures
            self.depth < usize::MAX ==> r.depth == self.depth + 1,
            self.depth == usize::MAX ==> r.depth == usize::MAX,
    {
        if self.depth < usize::MAX {
            Level { depth: self.depth + 1 }
        } else {
            Level { depth: usize::MAX }
        }
    }
}

/// Why a board could not be solved, or why its input was rejected.
#[derive(Clone, Copy, Debug, PartialEq, Eq, Structural)]
pub enum SolveError {
    /// The candidate set of the cell at this index became empty.
    UnsolvableCell(usize),
    /// Promoting a forced value would collide with the already-solved cell at
    /// this index, which shares a row, column, or block with it.
    DuplicateCell(usize),
    /// Every candidate of the cell chosen for search led to a contradiction.
    AllAssumptionsContradicted,
    /// The input did not hold exactly 81 digit characters.
    InvalidData,
}

/// The failing cell index an error carries refers to a cell of the grid.
pub open spec fn err_cell_in_range(e: SolveError) -> bool {
    match e {
        SolveError::UnsolvableCell(i) => i < 81,
        SolveError::DuplicateCell(j) => j < 81,
        SolveError::AllAssumptionsContradicted => true,
        SolveError::InvalidData => true,
    }
}

/// Some narrowing of `b` — a board elimination could reach from it — has run
/// the cell at `i` out of candidates.
pub open spec fn emptied_cell_witness(b: Board, i: int) -> bool {
    exists|mid: Board| #![trigger mid.refines(b)]
        mid.wf() && mid.refines(b) && 0 <= i < 81 && !mid.is_solved_at(i) && mid.cand_count_at(
            i,
        ) == 0
}

/// Some narrowing of `b` holds, beside the solved cell at `j`, a row, column
/// or block mate that either is solved with the same value or is forced to
/// it as its single candidate.
pub open spec fn duplicate_witness(b: Board, j: int) -> bool {
    exists|mid: Board, i: int| #![trigger mid.refines(b), mid.is_solved_at(i)]
        mid.wf() && mid.refines(b) && 0 <= i < 81 && 0 <= j < 81 && peers(i, j)
            && mid.is_solved_at(j) && ((mid.is_solved_at(i) && mid.value(i) == mid.value(j)) || (
        !mid.is_solved_at(i) && mid.cand_count_at(i) == 1 && mid.has_cand(i, mid.value(j))))
}

/// Each failure index names a cell that a reachable elimination state shows
/// to be contradicted: an emptied candidate set, or a collision with a
/// solved row, column, or block mate.
pub open spec fn err_witnessed(b: Board, e: SolveError) -> bool {
    match e {
        SolveError::UnsolvableCell(i) => emptied_cell_witness(b, i as int),
        SolveError::DuplicateCell(j) => duplicate_witness(b, j as int),
        SolveError::AllAssumptionsContradicted => true,
        SolveError::InvalidData => true,
    }
}

/// Replacing an undetermined cell by a solved one lowers the number of
/// undetermined cells by exactly one.
proof fn lemma_seq_unsolved_update(s: Seq<Cell>, i: int, c: Cell)
    requires
        0 <= i < s.len(),
        !(s[i] is Solved),
        c is Solved,
    ensures
        seq_unsolved(s.update(i, c)) + 1 == seq_unsolved(s),
    decreases s.len(),
{
    let t = s.update(i, c);
    if i == s.len() - 1 {
        assert(t.drop_last() =~= s.drop_last());
    } else {
        assert(t.drop_last() =~= s.drop_last().update(i, c));
        lemma_seq_unsolved_update(s.drop_last(), i, c);
        assert(t.last() == s.last());
    }
}

/// Two boards whose cells are solved at the same positions have the same
/// number of undetermined cells.
proof fn lemma_seq_unsolved_congruent(s1: Seq<Cell>, s2: Seq<Cell>)
    requires
        s1.len() == s2.len(),
        forall|i: int| 0 <= i < s1.len() ==> (s1[i] is Solved <==> s2[i] is Solved),
    ensures
        seq_unsolved(s1) == seq_unsolved(s2),
    decreases s1.len(),
{
    if s1.len() > 0 {
        lemma_seq_unsolved_congruent(s1.drop_last(), s2.drop_last());
        assert(s1.last() is Solved <==> s2.last() is Solved);
    }
}

/// Refinement is reflexive.
pub proof fn lemma_refines_refl(b: Board)
    ensures
        b.refines(b),
{
}

/// Refinement is transitive: what narrows a narrowed board narrows the
/// board it came from.
pub proof fn lemma_refines_trans(c: Board, b: Board, a: Board)
    requires
        c.refines(b),
        b.refines(a),
    ensures
        c.refines(a),
{
    assert forall|i: int| 0 <= i < 81 implies {
        &&& (a.is_solved_at(i) ==> #[trigger] c@[i] == a@[i])
        &&& (!a.is_solved_at(i) && c.is_solved_at(i) ==> a.has_cand(i, c.value(i)))
        &&& (!a.is_solved_at(i) && !c.is_solved_at(i) ==> forall|v: int|
            c.has_cand(i, v) ==> a.has_cand(i, v))
    } by {
        assert(a.is_solved_at(i) ==> b@[i] == a@[i]);
        assert(b.is_solved_at(i) ==> c@[i] == b@[i]);
        if !a.is_solved_at(i) && !b.is_solved_at(i) && !c.is_solved_at(i) {
            assert forall|v: int| c.has_cand(i, v) implies a.has_cand(i, v) by {
                assert(b.has_cand(i, v));
            }
        }
    }
}

/// Whether flat indices `i` and `j` lie in a common row, column, or block.
fn same_unit(i: usize, j: usize) -> (r: bool)
    requires
        i < 81,
        j < 81,
    ensures
        r == shares_unit(i as int, j as int),
{
    let r = i / 9 == j / 9 || i % 9 == j % 9 || (i / 27 == j / 27 && (i % 9) / 3 == (j % 9) / 3);
    proof {
        vstd::arithmetic::div_mod::lemma_div_denominator(i as int, 9, 3);
        vstd::arithmetic::div_mod::lemma_div_denominator(j as int, 9, 3);
    }
    r
}

/// Striking one solved value from the candidates of its whole row, column,
/// and block keeps exactly the solutions the board already admitted: any
/// admitted solution repeats the value nowhere in that unit.
proof fn lemma_strike_preserves_admits(pre: Board, post: Board, i: int, v: int)
    requires
        pre.wf(),
        0 <= i < 81,
        pre.is_solved_at(i),
        pre.value(i) == v,
        post@.len() == 81,
        forall|j: int| 0 <= j < 81 && pre.is_solved_at(j) ==> post@[j] == pre@[j],
        forall|j: int| 0 <= j < 81 ==> (post.is_solved_at(j) <==> pre.is_solved_at(j)),
        forall|j: int, x: int| #![trigger post.has_cand(j, x)] #![trigger pre.has_cand(j, x)]
            0 <= j < 81 ==> (post.has_cand(j, x) <==> (pre.has_cand(j, x) && !(shares_unit(
            i,
            j,
        ) && x == v))),
    ensures
        forall|f: Board| #![trigger pre.admits(f)] #![trigger post.admits(f)]
            pre.admits(f) <==> post.admits(f),
{
    assert forall|f: Board| pre.admits(f) <==> post.admits(f) by {
        if pre.admits(f) {
            assert forall|j: int| 0 <= j < 81 implies {
                &&& (post.is_solved_at(j) ==> #[trigger] f@[j] == post@[j])
                &&& (!post.is_solved_at(j) && f.is_solved_at(j) ==> post.has_cand(
                    j,
                    f.value(j),
                ))
            } by {
                if post.is_solved_at(j) {
                    assert(f@[j] == pre@[j]);
                } else {
                    let w = f.value(j);
                    assert(pre.has_cand(j, w));
                    if shares_unit(i, j) && w == v {
                        assert(j != i);
                        assert(peers(i, j));
                        assert(f@[i] == pre@[i]);
                        assert(f.value(i) == v);
                        assert(f.value(i) != f.value(j));
                        assert(false);
                    }
                }
            }
            assert(f.refines(post));
        }
        if post.admits(f) {
            assert forall|j: int| 0 <= j < 81 implies {
                &&& (pre.is_solved_at(j) ==> #[trigger] f@[j] == pre@[j])
                &&& (!pre.is_solved_at(j) && f.is_solved_at(j) ==> pre.has_cand(j, f.value(j)))
            } by {
                if pre.is_solved_at(j) {
                    assert(f@[j] == post@[j]);
                } else {
                    assert(post.has_cand(j, f.value(j)));
                }
            }
            assert(f.refines(pre));
        }
    }
}

/// Remove the solved value `v` of cell `i` from the candidates of every cell
/// sharing a row, column, or block with `i`; solved cells are untouched.
fn strike_peers(board: &mut Board, i: usize, v: u8)
    requires
        old(board).wf(),
        i < 81,
        1 <= v <= 9,
        old(board).is_solved_at(i as int),
        old(board).value(i as int) == v as int,
    ensures
        final(board).wf(),
        forall|j: int| 0 <= j < 81 && old(board).is_solved_at(j) ==> final(board)@[j] == old(
            board,
        )@[j],
        forall|j: int| 0 <= j < 81 ==> (final(board).is_solved_at(j) <==> old(
            board,
        ).is_solved_at(j)),
        forall|j: int, x: int| #![trigger final(board).has_cand(j, x)] #![trigger old(board).has_cand(j, x)]
            0 <= j < 81 ==> (final(board).has_cand(j, x) <==> (old(board).has_cand(j, x) && !(
            shares_unit(i as int, j) && x == v as int))),
        forall|j: int| #![trigger final(board)@[j]]
            0 <= j < 81 && !(shares_unit(i as int, j) && old(board).has_cand(j, v as int))
                ==> final(board)@[j] == old(board)@[j],
        forall|f: Board| #![trigger old(board).admits(f)] #![trigger final(board).admits(f)]
            old(board).admits(f) <==> final(board).admits(f),
{
    let mut j: usize = 0;
    while j < 81
        invariant
            board.wf(),
            old(board).wf(),
            i < 81,
            1 <= v <= 9,
            j <= 81,
            forall|k: int| 0 <= k < 81 && old(board).is_solved_at(k) ==> board@[k] == old(
                board,
            )@[k],
            forall|k: int| 0 <= k < 81 ==> (board.is_solved_at(k) <==> old(board).is_solved_at(k)),
            forall|k: int, x: int| #![trigger board.has_cand(k, x)] #![trigger old(board).has_cand(k, x)]
                0 <= k < 81 ==> (board.has_cand(k, x) <==> (old(board).has_cand(k, x) && !(k
                < j && shares_unit(i as int, k) && x == v as int))),
            forall|k: int| #![trigger board@[k]]
                0 <= k < 81 && !(k < j && shares_unit(i as int, k) && old(board).has_cand(
                    k,
                    v as int,
                )) ==> board@[k] == old(board)@[k],
        decreases 81 - j,
    {
        let hit = same_unit(i, j);
        let ghost prev = *board;
        if !hit {
            proof {
                assert(board@ == prev@);
            }
        }
        if hit {
            match board.get(j) {
                Cell::NotSolved(c) => {
                    let mut c2 = c;
                    c2.remove(v);
                    board.set(j, Cell::NotSolved(c2));
                    proof {
                        assert forall|k: int, x: int| 0 <= k < 81 implies (board.has_cand(k, x)
                            <==> (prev.has_cand(k, x) && !(k == j && x == v as int))) by {
                            if k != j as int {
                                assert(board@[k] == prev@[k]);
                            }
                        }
                        if !prev.has_cand(j as int, v as int) {
                            crate::board::lemma_remove_absent(c.mask, v as u16);
                            assert(c2.mask == c.mask);
                            assert(c2 == c);
                            assert(board@[j as int] == prev@[j as int]);
                        }
                    }
                },
                Cell::Solved(_) => {
                    proof {
                        assert(board@ == prev@);
                    }
                },
            }
        }
        proof {
            assert forall|k: int, x: int| 0 <= k < 81 implies (board.has_cand(k, x) <==> (old(
                board,
            ).has_cand(k, x) && !(k < j + 1 && shares_unit(i as int, k) && x == v as int))) by {
                assert(prev.has_cand(k, x) <==> (old(board).has_cand(k, x) && !(k < j
                    && shares_unit(i as int, k) && x == v as int)));
                if !(hit && prev@[j as int] is NotSolved) {
                    assert(board@[k] == prev@[k]);
                    if k == j as int && hit {
                        assert(prev.is_solved_at(k));
                        assert(old(board).is_solved_at(k));
                        assert(!board.has_cand(k, x));
                    }
                }
            }
            assert forall|k: int|
                0 <= k < 81 && !(k < j + 1 && shares_unit(i as int, k) && old(board).has_cand(
                    k,
                    v as int,
                )) implies board@[k] == old(board)@[k] by {
                assert(prev@[k] == old(board)@[k]);
                if k != j as int {
                    assert(board@[k] == prev@[k]);
                } else if hit && prev@[k] is NotSolved {
                    assert(old(board).has_cand(k, v as int) == prev.has_cand(k, v as int));
                    assert(!prev.has_cand(k, v as int));
                }
            }
        }
        j = j + 1;
    }
    proof {
        lemma_strike_preserves_admits(*old(board), *board, i as int, v as int);
    }
}

/// One full pass of part (a) of elimination: subtract every solved value from
/// the candidate sets of the cells around it, and report whether the whole
/// board is already solved.
fn solved_scan(board: &mut Board) -> (all: bool)
    requires
        old(board).wf(),
    ensures
        final(board).wf(),
        forall|j: int| 0 <= j < 81 && old(board).is_solved_at(j) ==> final(board)@[j] == old(
            board,
        )@[j],
        forall|j: int| 0 <= j < 81 ==> (final(board).is_solved_at(j) <==> old(
            board,
        ).is_solved_at(j)),
        forall|j: int, x: int| #![trigger final(board).has_cand(j, x)]
            0 <= j < 81 && final(board).has_cand(j, x) ==> old(board).has_cand(j, x),
        final(board).propagated(),
        forall|f: Board| #![trigger old(board).admits(f)] #![trigger final(board).admits(f)]
            old(board).admits(f) <==> final(board).admits(f),
        all <==> final(board).all_solved(),
        final(board).unsolved() == old(board).unsolved(),
        final(board).refines(*old(board)),
        old(board).no_dup() ==> final(board).no_dup(),
        old(board).all_solved() ==> final(board)@ == old(board)@,
        old(board).propagated() ==> final(board)@ == old(board)@,
    {
    let mut all = true;
    let mut i: usize = 0;
    while i < 81
        invariant
            board.wf(),
            old(board).wf(),
            i <= 81,
            forall|j: int| 0 <= j < 81 && old(board).is_solved_at(j) ==> board@[j] == old(
                board,
            )@[j],
            forall|j: int| 0 <= j < 81 ==> (board.is_solved_at(j) <==> old(board).is_solved_at(j)),
            forall|j: int, x: int| #![trigger board.has_cand(j, x)]
                0 <= j < 81 && board.has_cand(j, x) ==> old(board).has_cand(j, x),
            forall|f: Board| #![trigger old(board).admits(f)] #![trigger board.admits(f)]
                old(board).admits(f) <==> board.admits(f),
            forall|k: int, j: int|
                0 <= k < i && 0 <= j < 81 && #[trigger] shares_unit(k, j) && board.is_solved_at(k)
                    ==> !board.has_cand(j, board.value(k)),
            all <==> (forall|k: int| 0 <= k < i ==> board.is_solved_at(k)),
            old(board).propagated() ==> board@ == old(board)@,
        decreases 81 - i,
    {
        match board.get(i) {
            Cell::Solved(answer) => {
                let ghost mid = *board;
                strike_peers(board, i, answer);
                proof {
                    assert forall|k: int, j: int|
                        0 <= k < i + 1 && 0 <= j < 81 && #[trigger] shares_unit(k, j)
                            && board.is_solved_at(k) implies !board.has_cand(j, board.value(k)) by {
                        if k < i {
                            assert(!mid.has_cand(j, mid.value(k)));
                            assert(board@[k] == mid@[k]);
                        }
                    }
                    assert(board.is_solved_at(i as int));
                    if old(board).propagated() {
                        assert forall|k: int| 0 <= k < 81 implies board@[k] == mid@[k] by {
                            if shares_unit(i as int, k) && mid.has_cand(k, answer as int) {
                                assert(mid@[k] == old(board)@[k]);
                                assert(k != i as int);
                                assert(peers(k, i as int));
                                assert(mid@[i as int] == old(board)@[i as int]);
                                assert(old(board).is_solved_at(i as int));
                                assert(old(board).value(i as int) == answer as int);
                                assert(old(board).has_cand(k, answer as int));
                                assert(false);
                            }
                        }
                        assert(board@ =~= mid@);
                    }
                }
            },
            Cell::NotSolved(_) => {
                all = false;
                proof {
                    assert(!board.is_solved_at(i as int));
                }
            },
        }
        i = i + 1;
    }
    proof {
        assert forall|p: int, j: int|
            0 <= p < 81 && 0 <= j < 81 && #[trigger] peers(p, j) && board.is_solved_at(j) implies
            !board.has_cand(p, board.value(j)) by {
            assert(shares_unit(j, p));
        }
        assert(board.propagated());
        assert forall|j: int| 0 <= j < board@.len() implies (board@[j] is Solved <==> old(
            board,
        )@[j] is Solved) by {
            assert(board.is_solved_at(j) <==> old(board).is_solved_at(j));
        }
        lemma_seq_unsolved_congruent(board@, old(board)@);
        if old(board).no_dup() {
            assert forall|p: int, j: int|
                0 <= p < 81 && 0 <= j < 81 && #[trigger] peers(p, j) && board.is_solved_at(p)
                    && board.is_solved_at(j) implies board.value(p) != board.value(j) by {
                assert(board@[p] == old(board)@[p]);
                assert(board@[j] == old(board)@[j]);
            }
        }
        if old(board).all_solved() {
            assert forall|j: int| 0 <= j < 81 implies board@[j] == old(board)@[j] by {
                assert(old(board).is_solved_at(j));
            }
            assert(board@ =~= old(board)@);
        }
    }
    all
}

/// Solving an undetermined cell with one of its candidates keeps exactly the
/// admitted solutions that make the same choice at that cell.
proof fn lemma_assign_admits(pre: Board, post: Board, i: int, v: int)
    requires
        pre.wf(),
        0 <= i < 81,
        1 <= v <= 9,
        !pre.is_solved_at(i),
        pre.has_cand(i, v),
        post@ == pre@.update(i, Cell::Solved(v as u8)),
    ensures
        forall|f: Board| #![trigger pre.admits(f)] #![trigger post.admits(f)]
            post.admits(f) <==> (pre.admits(f) && f.value(i) == v),
{
    assert forall|f: Board| post.admits(f) <==> (pre.admits(f) && f.value(i) == v) by {
        if post.admits(f) {
            assert(f@[i] == post@[i]);
            assert(f.value(i) == v);
            assert forall|j: int| 0 <= j < 81 implies {
                &&& (pre.is_solved_at(j) ==> #[trigger] f@[j] == pre@[j])
                &&& (!pre.is_solved_at(j) && f.is_solved_at(j) ==> pre.has_cand(j, f.value(j)))
            } by {
                if j != i {
                    assert(post@[j] == pre@[j]);
                    if pre.is_solved_at(j) {
                        assert(f@[j] == post@[j]);
                    } else {
                        assert(post.has_cand(j, f.value(j)));
                    }
                }
            }
            assert(f.refines(pre));
        }
        if pre.admits(f) && f.value(i) == v {
            match f@[i] {
                Cell::Solved(x) => {
                    assert(x as int == v);
                    assert(f@[i] == post@[i]);
                },
                Cell::NotSolved(_) => {
                    assert(f.is_solved_at(i));
                    assert(false);
                },
            }
            assert forall|j: int| 0 <= j < 81 implies {
                &&& (post.is_solved_at(j) ==> #[trigger] f@[j] == post@[j])
                &&& (!post.is_solved_at(j) && f.is_solved_at(j) ==> post.has_cand(j, f.value(j)))
            } by {
                if j != i {
                    assert(post@[j] == pre@[j]);
                    if pre.is_solved_at(j) {
                        assert(f@[j] == pre@[j]);
                    } else {
                        assert(pre.has_cand(j, f.value(j)));
                    }
                }
            }
            assert(f.refines(post));
        }
    }
}

/// The already-solved peer of `i` carrying the value `v`, if there is one.
fn find_dup(board: &Board, i: usize, v: u8) -> (r: Option<usize>)
    requires
        board.wf(),
        i < 81,
        1 <= v <= 9,
    ensures
        match r {
            None => forall|j: int|
                0 <= j < 81 && #[trigger] shares_unit(i as int, j) && board.is_solved_at(j)
                    ==> board.value(j) != v as int,
            Some(j) => j < 81 && shares_unit(i as int, j as int) && board.is_solved_at(j as int)
                && board.value(j as int) == v as int,
        },
{
    let mut j: usize = 0;
    while j < 81
        invariant
            board.wf(),
            i < 81,
            1 <= v <= 9,
            j <= 81,
            forall|k: int|
                0 <= k < j && #[trigger] shares_unit(i as int, k) && board.is_solved_at(k)
                    ==> board.value(k) != v as int,
        decreases 81 - j,
    {
        if same_unit(i, j) {
            match board.get(j) {
                Cell::Solved(n) => {
                    if n == v {
                        return Some(j);
                    }
                },
                Cell::NotSolved(_) => {},
            }
        }
        j = j + 1;
    }
    None
}

/// One full pass of part (b) of elimination: promote every undetermined cell
/// whose candidates shrank to a single value, failing on an empty candidate
/// set or on a collision with a solved cell of the same row, column, or
/// block.
fn promote_scan(board: &mut Board) -> (r: Result<bool, SolveError>)
    requires
        old(board).wf(),
    ensures
        (r matches Ok(changed) ==> {
            &&& final(board).wf()
            &&& final(board).refines(*old(board))
            &&& (forall|f: Board| #![trigger old(board).admits(f)] #![trigger final(board).admits(f)]
                old(board).admits(f) <==> final(board).admits(f))
            &&& (old(board).no_dup() ==> final(board).no_dup())
            &&& (!changed ==> final(board)@ == old(board)@)
            &&& (!changed ==> final(board).no_forced_cell())
            &&& (changed ==> final(board).unsolved() < old(board).unsolved())
        }),
        (old(board).no_forced_cell() ==> (r matches Ok(c2) && c2 == false)),
        (r matches Err(e) ==> (forall|f: Board| !old(board).admits(f)) && (e is UnsolvableCell
            || e is DuplicateCell) && err_cell_in_range(e) && err_witnessed(*old(board), e)),
{
    let mut changed = false;
    let mut i: usize = 0;
    while i < 81
        invariant
            board.wf(),
            old(board).wf(),
            i <= 81,
            board.refines(*old(board)),
            forall|f: Board| #![trigger old(board).admits(f)] #![trigger board.admits(f)]
                old(board).admits(f) <==> board.admits(f),
            old(board).no_dup() ==> board.no_dup(),
            !changed ==> board@ == old(board)@,
            !changed ==> forall|k: int|
                0 <= k < i && !board.is_solved_at(k) ==> #[trigger] board.cand_count_at(k) >= 2,
            old(board).no_forced_cell() ==> !changed,
            changed ==> board.unsolved() < old(board).unsolved(),
        decreases 81 - i,
    {
        match board.get(i) {
            Cell::NotSolved(hints) => {
                if hints.is_empty() {
                    proof {
                        assert forall|f: Board| !old(board).admits(f) by {
                            if board.admits(f) {
                                match f@[i as int] {
                                    Cell::Solved(x) => {
                                        assert(board.has_cand(i as int, x as int));
                                        crate::board::lemma_empty_has_none(hints, x as int);
                                        assert(false);
                                    },
                                    Cell::NotSolved(_) => {
                                        assert(f.is_solved_at(i as int));
                                        assert(false);
                                    },
                                }
                            }
                            assert(old(board).admits(f) <==> board.admits(f));
                        }
                        if old(board).no_forced_cell() {
                            assert(board@ == old(board)@);
                            assert(old(board)@[i as int] == board@[i as int]);
                            assert(!old(board).is_solved_at(i as int));
                            assert(old(board).cand_count_at(i as int) == 0);
                            assert(false);
                        }
                        assert(board.refines(*old(board)) && !board.is_solved_at(i as int)
                            && board.cand_count_at(i as int) == 0);
                        assert(emptied_cell_witness(*old(board), i as int));
                    }
                    return Err(SolveError::UnsolvableCell(i));
                }
                if hints.len() == 1 {
                    let hint = hints.smallest();
                    match find_dup(board, i, hint) {
                        Some(j) => {
                            proof {
                                assert forall|f: Board| !old(board).admits(f) by {
                                    if board.admits(f) {
                                        match f@[i as int] {
                                            Cell::Solved(x) => {
                                                assert(board.has_cand(i as int, x as int));
                                                crate::board::lemma_single_candidate(
                                                    hints,
                                                    x as int,
                                                    hint as int,
                                                );
                                                assert(f.value(i as int) == hint as int);
                                            },
                                            Cell::NotSolved(_) => {
                                                assert(f.is_solved_at(i as int));
                                            },
                                        }
                                        assert(f@[j as int] == board@[j as int]);
                                        assert(f.value(j as int) == hint as int);
                                        assert(j != i);
                                        assert(peers(i as int, j as int));
                                        assert(f.value(i as int) != f.value(j as int));
                                        assert(false);
                                    }
                                    assert(old(board).admits(f) <==> board.admits(f));
                                }
                                if old(board).no_forced_cell() {
                                    assert(board@ == old(board)@);
                                    assert(old(board)@[i as int] == board@[i as int]);
                                    assert(!old(board).is_solved_at(i as int));
                                    assert(old(board).cand_count_at(i as int) == 1);
                                    assert(false);
                                }
                                assert(board.refines(*old(board)) && peers(i as int, j as int)
                                    && board.is_solved_at(j as int) && !board.is_solved_at(
                                    i as int,
                                ) && board.cand_count_at(i as int) == 1 && board.has_cand(
                                    i as int,
                                    board.value(j as int),
                                ));
                                assert(duplicate_witness(*old(board), j as int));
                            }
                            return Err(SolveError::DuplicateCell(j));
                        },
                        None => {
                            let ghost pre = *board;
                            board.set(i, Cell::Solved(hint));
                            proof {
                                lemma_assign_admits(pre, *board, i as int, hint as int);
                                assert forall|f: Board|
                                    old(board).admits(f) <==> board.admits(f) by {
                                    assert(old(board).admits(f) <==> pre.admits(f));
                                    if pre.admits(f) {
                                        match f@[i as int] {
                                            Cell::Solved(x) => {
                                                assert(pre.has_cand(i as int, x as int));
                                                crate::board::lemma_single_candidate(
                                                    hints,
                                                    x as int,
                                                    hint as int,
                                                );
                                                assert(f.value(i as int) == hint as int);
                                            },
                                            Cell::NotSolved(_) => {
                                                assert(f.is_solved_at(i as int));
                                                assert(false);
                                            },
                                        }
                                        assert(board.admits(f));
                                    }
                                    if board.admits(f) {
                                        assert(pre.admits(f));
                                    }
                                }
                                assert forall|k: int| 0 <= k < 81 implies {
                                    &&& (pre.is_solved_at(k) ==> #[trigger] board@[k] == pre@[k])
                                    &&& (!pre.is_solved_at(k) && board.is_solved_at(k)
                                        ==> pre.has_cand(k, board.value(k)))
                                    &&& (!pre.is_solved_at(k) && !board.is_solved_at(k)
                                        ==> forall|v: int|
                                        board.has_cand(k, v) ==> pre.has_cand(k, v))
                                } by {
                                    if k != i as int {
                                        assert(board@[k] == pre@[k]);
                                    }
                                }
                                assert(board.refines(pre));
                                lemma_refines_trans(*board, pre, *old(board));
                                if old(board).no_dup() {
                                    assert forall|p: int, q: int|
                                        0 <= p < 81 && 0 <= q < 81 && #[trigger] peers(p, q)
                                            && board.is_solved_at(p) && board.is_solved_at(q)
                                        implies board.value(p) != board.value(q) by {
                                        if p == i as int {
                                            assert(board@[q] == pre@[q]);
                                            assert(shares_unit(i as int, q));
                                            assert(pre.value(q) != hint as int);
                                        } else if q == i as int {
                                            assert(board@[p] == pre@[p]);
                                            assert(shares_unit(i as int, p));
                                            assert(pre.value(p) != hint as int);
                                        } else {
                                            assert(board@[p] == pre@[p]);
                                            assert(board@[q] == pre@[q]);
                                        }
                                    }
                                }
                                lemma_seq_unsolved_update(pre@, i as int, Cell::Solved(hint));
                                if old(board).no_forced_cell() {
                                    assert(pre@ == old(board)@);
                                    assert(old(board)@[i as int] == pre@[i as int]);
                                    assert(!old(board).is_solved_at(i as int));
                                    assert(old(board).cand_count_at(i as int) == 1);
                                    assert(false);
                                }
                            }
                            changed = true;
                        },
                    }
                }
            },
            Cell::Solved(_) => {},
        }
        i = i + 1;
    }
    Ok(changed)
}

/// Apply constraint propagation until the board is fully solved, no further
/// promotion can be derived (a stall), or a contradiction surfaces. The
/// returned flag reports a full solution; a stalled board comes back fully
/// propagated. Whatever happens, the set of admitted full solutions is
/// exactly that of the input.
pub fn eliminate(board: Board, level: Level) -> (r: Result<(Board, bool), SolveError>)
    requires
        board.wf(),
    ensures
        (r matches Ok(p) ==> {
            &&& p.0.wf()
            &&& p.0.refines(board)
            &&& (board.no_dup() ==> p.0.no_dup())
            &&& (forall|f: Board| #![trigger board.admits(f)] #![trigger p.0.admits(f)]
                board.admits(f) <==> p.0.admits(f))
            &&& (p.1 <==> p.0.all_solved())
            &&& (!p.1 ==> p.0.stalled())
            &&& p.0.unsolved() <= board.unsolved()
        }),
        (r matches Err(e) ==> (forall|f: Board| !board.admits(f)) && (e is UnsolvableCell
            || e is DuplicateCell) && err_cell_in_range(e) && err_witnessed(board, e)),
        (board.all_solved() ==> (r matches Ok(p) && p.0@ == board@ && p.1 == true)),
        (board.stalled() ==> (r matches Ok(p) && p.0@ == board@ && p.1 == false)),
{
    // The depth is advisory only; propagation itself never recurses.
    let _ = level;
    let mut cur = board;
    loop
        invariant
            cur.wf(),
            board.wf(),
            cur.refines(board),
            forall|f: Board| #![trigger board.admits(f)] #![trigger cur.admits(f)]
                board.admits(f) <==> cur.admits(f),
            board.no_dup() ==> cur.no_dup(),
            cur.unsolved() <= board.unsolved(),
            board.all_solved() ==> cur@ == board@,
            board.stalled() ==> cur@ == board@,
        decreases cur.unsolved(),
    {
        let ghost head = cur;
        let all = solved_scan(&mut cur);
        proof {
            assert forall|j: int| 0 <= j < 81 implies {
                &&& (head.is_solved_at(j) ==> #[trigger] cur@[j] == head@[j])
                &&& (!head.is_solved_at(j) && cur.is_solved_at(j) ==> head.has_cand(
                    j,
                    cur.value(j),
                ))
                &&& (!head.is_solved_at(j) && !cur.is_solved_at(j) ==> forall|v: int|
                    cur.has_cand(j, v) ==> head.has_cand(j, v))
            } by {
            }
            assert(cur.refines(head));
            lemma_refines_trans(cur, head, board);
            assert forall|f: Board| board.admits(f) <==> cur.admits(f) by {
                assert(board.admits(f) <==> head.admits(f));
                assert(head.admits(f) <==> cur.admits(f));
            }
            if board.stalled() {
                assert(head@ == board@);
                assert forall|p2: int, j2: int|
                    0 <= p2 < 81 && 0 <= j2 < 81 && #[trigger] peers(p2, j2)
                        && head.is_solved_at(j2) implies !head.has_cand(p2, head.value(j2)) by {
                    assert(head@[p2] == board@[p2]);
                    assert(head@[j2] == board@[j2]);
                    assert(!board.has_cand(p2, board.value(j2)));
                }
                assert(head.propagated());
                assert(cur@ == head@);
                assert(cur@ == board@);
            }
        }
        if all {
            proof {
                if board.stalled() {
                    assert(cur.all_solved());
                    assert forall|k2: int| 0 <= k2 < 81 implies board.is_solved_at(k2) by {
                        assert(cur@[k2] == board@[k2]);
                        assert(cur.is_solved_at(k2));
                    }
                    assert(false);
                }
            }
            return Ok((cur, true));
        }
        let ghost scanned = cur;
        match promote_scan(&mut cur) {
            Err(e) => {
                proof {
                    assert forall|f: Board| !board.admits(f) by {
                        assert(board.admits(f) <==> scanned.admits(f));
                        assert(!scanned.admits(f));
                    }
                    match e {
                        SolveError::UnsolvableCell(i) => {
                            let mid = choose|mid: Board|
                                mid.wf() && #[trigger] mid.refines(scanned) && 0 <= (i as int)
                                    && (i as int) < 81 && !mid.is_solved_at(i as int)
                                    && mid.cand_count_at(i as int) == 0;
                            lemma_refines_trans(mid, scanned, board);
                            assert(emptied_cell_witness(board, i as int));
                        },
                        SolveError::DuplicateCell(j) => {
                            let (mid, i) = choose|mid: Board, i: int|
                                #![trigger mid.refines(scanned), mid.is_solved_at(i)]
                                mid.wf() && mid.refines(scanned) && 0 <= i < 81 && 0 <= (
                                j as int) && (j as int) < 81 && peers(i, j as int)
                                    && mid.is_solved_at(j as int) && ((
                                mid.is_solved_at(i) && mid.value(i) == mid.value(j as int)) || (
                                !mid.is_solved_at(i) && mid.cand_count_at(i) == 1 && mid.has_cand(
                                    i,
                                    mid.value(j as int),
                                )));
                            lemma_refines_trans(mid, scanned, board);
                            assert(duplicate_witness(board, j as int));
                        },
                        _ => {},
                    }
                    if board.stalled() {
                        assert(scanned@ == board@);
                        assert forall|i2: int| 0 <= i2 < 81 && !scanned.is_solved_at(i2)
                            implies #[trigger] scanned.cand_count_at(i2) >= 2 by {
                            assert(scanned@[i2] == board@[i2]);
                            assert(!board.is_solved_at(i2));
                            assert(board.cand_count_at(i2) >= 2);
                        }
                        assert(scanned.no_forced_cell());
                        assert(false);
                    }
                }
                return Err(e);
            },
            Ok(changed) => {
                proof {
                    lemma_refines_trans(cur, scanned, board);
                    assert forall|f: Board| board.admits(f) <==> cur.admits(f) by {
                        assert(board.admits(f) <==> scanned.admits(f));
                        assert(scanned.admits(f) <==> cur.admits(f));
                    }
                }
                proof {
                    if board.stalled() {
                        assert(scanned@ == board@);
                        assert forall|i2: int| 0 <= i2 < 81 && !scanned.is_solved_at(i2)
                            implies #[trigger] scanned.cand_count_at(i2) >= 2 by {
                            assert(scanned@[i2] == board@[i2]);
                            assert(!board.is_solved_at(i2));
                            assert(board.cand_count_at(i2) >= 2);
                        }
                        assert(scanned.no_forced_cell());
                        assert(changed == false);
                    }
                }
                if !changed {
                    proof {
                        assert(!scanned.all_solved());
                        assert(!cur.all_solved());
                        assert(cur.propagated());
                        assert(cur.stalled());
                    }
                    return Ok((cur, false));
                }
            },
        }
    }
}

/// `k` is the cell the searcher branches on: undetermined, with no
/// undetermined cell anywhere holding fewer candidates and none before `k`
/// holding as few.
pub open spec fn mrv_cell(b: Board, k: int) -> bool {
    &&& 0 <= k < 81
    &&& !b.is_solved_at(k)
    &&& (forall|j: int|
        0 <= j < 81 && !b.is_solved_at(j) ==> b.cand_count_at(k) <= #[trigger] b.cand_count_at(
            j,
        ))
    &&& (forall|j: int|
        0 <= j < k && !b.is_solved_at(j) ==> b.cand_count_at(k) < #[trigger] b.cand_count_at(j))
}

/// Some solved cell shares a row, column, or block with the solved cell at
/// `j` and carries the same value.
pub open spec fn conflicted_at(b: Board, j: int) -> bool {
    exists|i: int|
        0 <= i < 81 && #[trigger] peers(i, j) && b.is_solved_at(i) && b.value(i) == b.value(j)
}

/// The first solved cell, in index order, that repeats the value of a solved
/// cell sharing its row, column, or block.
fn find_given_conflict(board: &Board) -> (r: Option<usize>)
    requires
        board.wf(),
    ensures
        match r {
            None => board.no_dup(),
            Some(j) => j < 81 && board.is_solved_at(j as int) && conflicted_at(*board, j as int),
        },
{
    let mut i: usize = 0;
    while i < 81
        invariant
            board.wf(),
            i <= 81,
            forall|p: int, q: int|
                0 <= p < i && 0 <= q < 81 && #[trigger] peers(p, q) && board.is_solved_at(p)
                    && board.is_solved_at(q) ==> board.value(p) != board.value(q),
        decreases 81 - i,
    {
        match board.get(i) {
            Cell::Solved(v) => {
                let mut j: usize = 0;
                while j < 81
                    invariant
                        board.wf(),
                        i < 81,
                        j <= 81,
                        board.is_solved_at(i as int),
                        board.value(i as int) == v as int,
                        forall|q: int|
                            0 <= q < j && #[trigger] peers(i as int, q) && board.is_solved_at(q)
                                ==> board.value(q) != v as int,
                    decreases 81 - j,
                {
                    if j != i && same_unit(i, j) {
                        match board.get(j) {
                            Cell::Solved(n) => {
                                if n == v {
                                    proof {
                                        assert(board.is_solved_at(j as int));
                                        assert(board.value(j as int) == v as int);
                                        assert(peers(i as int, j as int)
                                            && board.is_solved_at(i as int) && board.value(
                                            i as int,
                                        ) == board.value(j as int));
                                        assert(conflicted_at(*board, j as int));
                                    }
                                    return Some(j);
                                }
                            },
                            Cell::NotSolved(_) => {},
                        }
                    }
                    j = j + 1;
                }
                proof {
                    assert forall|p: int, q: int|
                        0 <= p < i + 1 && 0 <= q < 81 && #[trigger] peers(p, q)
                            && board.is_solved_at(p) && board.is_solved_at(q) implies board.value(
                        p,
                    ) != board.value(q) by {
                        if p == i as int {
                            assert(board.value(q) != v as int);
                        }
                    }
                }
            },
            Cell::NotSolved(_) => {
                proof {
                    assert(!board.is_solved_at(i as int));
                }
            },
        }
        i = i + 1;
    }
    proof {
        assert forall|p: int, q: int|
            0 <= p < 81 && 0 <= q < 81 && #[trigger] peers(p, q) && board.is_solved_at(p)
                && board.is_solved_at(q) implies board.value(p) != board.value(q) by {}
        assert(board.no_dup());
    }
    None
}

/// Choose the undetermined cell to branch on: one with the fewest remaining
/// candidates, the lowest index winning ties. `None` means the board is
/// already fully solved.
pub fn select_cell(board: &Board) -> (r: Option<usize>)
    requires
        board.wf(),
    ensures
        match r {
            None => board.all_solved(),
            Some(i) => i < 81 && mrv_cell(*board, i as int),
        },
{
    let mut have = false;
    let mut best_i: usize = 0;
    let mut best_l: u8 = 0;
    let mut j: usize = 0;
    while j < 81
        invariant
            board.wf(),
            j <= 81,
            !have ==> forall|k: int| 0 <= k < j ==> board.is_solved_at(k),
            have ==> {
                &&& best_i < j <= 81
                &&& !board.is_solved_at(best_i as int)
                &&& best_l as nat == board.cand_count_at(best_i as int)
                &&& (forall|k: int|
                    0 <= k < j && !board.is_solved_at(k) ==> best_l as nat
                        <= board.cand_count_at(k))
                &&& (forall|k: int|
                    0 <= k < best_i as int && !board.is_solved_at(k) ==> (best_l as nat)
                        < board.cand_count_at(k))
            },
        decreases 81 - j,
    {
        match board.get(j) {
            Cell::NotSolved(c) => {
                let l = c.len();
                if !have || l < best_l {
                    have = true;
                    best_i = j;
                    best_l = l;
                }
            },
            Cell::Solved(_) => {},
        }
        j = j + 1;
    }
    if have {
        proof {
            assert(mrv_cell(*board, best_i as int));
        }
        Some(best_i)
    } else {
        None
    }
}

/// Depth-first backtracking: branch on the selected cell, trying its
/// candidates in ascending order on a copy of the board each time; the first
/// success is returned, and exhausting every candidate proves the board
/// admits no full solution.
pub fn depth_first_search(init: Board, level: Level) -> (r: Result<Board, SolveError>)
    requires
        init.wf(),
    ensures
        (r matches Ok(b) ==> b.wf() && b.all_solved() && b.refines(init) && (init.no_dup()
            && init.propagated() ==> b.no_dup())),
        (r is Err ==> forall|f: Board| !init.admits(f)),
        (r matches Err(e) ==> e is AllAssumptionsContradicted),
        (init.all_solved() ==> (r matches Ok(b) && b@ == init@)),
        (r matches Ok(b) ==> (!init.all_solved() ==> init.admits(b) && (exists|k: int|
            #[trigger] mrv_cell(init, k) && (forall|f: Board|
                init.admits(f) ==> f.value(k) >= b.value(k))))),
        ((!init.all_solved() && (forall|f: Board| !init.admits(f))) ==> r is Err),
    decreases init.unsolved(), 0int,
{
    let sel = select_cell(&init);
    let index = match sel {
        None => {
            proof {
                lemma_refines_refl(init);
            }
            return Ok(init);
        },
        Some(i) => i,
    };
    let hints = match init.get(index) {
        Cell::NotSolved(c) => c,
        Cell::Solved(_) => {
            // select_cell only ever returns an undetermined cell.
            proof {
                assert(false);
            }
            Candidates::full()
        },
    };
    proof {
        assert forall|f: Board| #[trigger] init.admits(f) implies f.value(index as int) >= 1 by {
            assert(f@[index as int].wf());
            assert(f.is_solved_at(index as int));
        }
    }
    let mut v: u8 = 1;
    while v <= 9
        invariant
            init.wf(),
            index < 81,
            !init.is_solved_at(index as int),
            mrv_cell(init, index as int),
            init@[index as int] == Cell::NotSolved(hints),
            1 <= v <= 10,
            forall|f: Board| #[trigger] init.admits(f) ==> f.value(index as int) >= v as int,
        decreases 10 - v,
    {
        if hints.contains(v) {
            let mut branch = init.duplicate();
            branch.set(index, Cell::Solved(v));
            proof {
                lemma_assign_admits(init, branch, index as int, v as int);
                lemma_seq_unsolved_update(init@, index as int, Cell::Solved(v));
                assert forall|k: int| 0 <= k < 81 implies branch@[k].wf() by {
                    if k != index as int {
                        assert(branch@[k] == init@[k]);
                    }
                }
                assert(branch.wf());
                assert forall|k: int| 0 <= k < 81 implies {
                    &&& (init.is_solved_at(k) ==> #[trigger] branch@[k] == init@[k])
                    &&& (!init.is_solved_at(k) && branch.is_solved_at(k) ==> init.has_cand(
                        k,
                        branch.value(k),
                    ))
                    &&& (!init.is_solved_at(k) && !branch.is_solved_at(k) ==> forall|x: int|
                        branch.has_cand(k, x) ==> init.has_cand(k, x))
                } by {
                    if k != index as int {
                        assert(branch@[k] == init@[k]);
                    }
                }
                assert(branch.refines(init));
                if init.no_dup() && init.propagated() {
                    assert forall|p: int, q: int|
                        0 <= p < 81 && 0 <= q < 81 && #[trigger] peers(p, q)
                            && branch.is_solved_at(p) && branch.is_solved_at(q) implies
                        branch.value(p) != branch.value(q) by {
                        if p == index as int {
                            assert(branch@[q] == init@[q]);
                            assert(!init.has_cand(index as int, init.value(q)));
                            assert(init.has_cand(index as int, v as int));
                        } else if q == index as int {
                            assert(branch@[p] == init@[p]);
                            assert(peers(q, p));
                            assert(!init.has_cand(index as int, init.value(p)));
                            assert(init.has_cand(index as int, v as int));
                        } else {
                            assert(branch@[p] == init@[p]);
                            assert(branch@[q] == init@[q]);
                        }
                    }
                    assert(branch.no_dup());
                }
            }
            match solve(branch, level.deeper()) {
                Ok(b) => {
                    proof {
                        lemma_refines_trans(b, branch, init);
                        assert(b.refines(branch));
                        assert(branch.admits(b));
                        assert(init.admits(b));
                        assert(b@[index as int] == branch@[index as int]);
                        assert(b.value(index as int) == v as int);
                        assert(mrv_cell(init, index as int));
                        assert forall|f: Board| init.admits(f) implies f.value(index as int)
                            >= b.value(index as int) by {}
                        assert(exists|k: int|
                            #[trigger] mrv_cell(init, k) && (forall|f: Board|
                                init.admits(f) ==> f.value(k) >= b.value(k)));
                        assert(!init.all_solved());
                    }
                    return Ok(b);
                },
                Err(_) => {
                    proof {
                        assert forall|f: Board| #[trigger] init.admits(f) implies f.value(
                            index as int,
                        ) >= v as int + 1 by {
                            if f.value(index as int) == v as int {
                                assert(branch.admits(f));
                                assert(false);
                            }
                        }
                    }
                },
            }
        } else {
            proof {
                assert forall|f: Board| #[trigger] init.admits(f) implies f.value(index as int)
                    >= v as int + 1 by {
                    if f.value(index as int) == v as int {
                        assert(init.has_cand(index as int, v as int));
                        assert(false);
                    }
                }
            }
        }
        v = v + 1;
    }
    proof {
        assert forall|f: Board| !init.admits(f) by {
            if init.admits(f) {
                assert(f.value(index as int) >= 10);
                assert(f@[index as int].wf());
                assert(false);
            }
        }
        assert(!init.all_solved());
    }
    Err(SolveError::AllAssumptionsContradicted)
}

/// Solve the board. A board whose given values already collide in a row,
/// column, or block is rejected outright with the colliding cell. Otherwise
/// constraints are propagated first; a fully determined board is returned as
/// it is, a stall falls back to depth-first search, and a contradiction
/// fails without any search. Success yields a full valid grid admitted by
/// the input; failure proves the input admits no full solution at all, so a
/// solution is found whenever one exists.
pub fn solve(init: Board, level: Level) -> (r: Result<Board, SolveError>)
    requires
        init.wf(),
    ensures
        (r matches Ok(b) ==> b.wf() && b.all_solved() && b.refines(init) && b.no_dup()
            && init.admits(b)),
        (r is Err ==> forall|f: Board| !init.admits(f)),
        (!init.no_dup() ==> (r matches Err(e) && e is DuplicateCell)),
        (r matches Err(e) ==> !(e is InvalidData) && err_cell_in_range(e) && err_witnessed(
            init,
            e,
        )),
        ((init.all_solved() && init.no_dup()) ==> (r matches Ok(b) && b@ == init@)),
    decreases init.unsolved(), 1int,
{
    match find_given_conflict(&init) {
        Some(conflict) => {
            proof {
                let i = choose|i: int|
                    0 <= i < 81 && #[trigger] peers(i, conflict as int) && init.is_solved_at(i)
                        && init.value(i) == init.value(conflict as int);
                crate::laws::lemma_duplicate_admits_none(init, i, conflict as int);
                assert(!init.no_dup());
                lemma_refines_refl(init);
                assert(init.refines(init) && peers(i, conflict as int) && init.is_solved_at(
                    conflict as int,
                ) && init.is_solved_at(i) && init.value(i) == init.value(conflict as int));
                assert(duplicate_witness(init, conflict as int));
            }
            return Err(SolveError::DuplicateCell(conflict));
        },
        None => {},
    }
    match eliminate(init, level.deeper()) {
        Ok(p) => {
            let (board, full) = p;
            if full {
                Ok(board)
            } else {
                let ghost mid = board;
                match depth_first_search(board, level.deeper()) {
                    Ok(b) => {
                        proof {
                            lemma_refines_trans(b, mid, init);
                        }
                        Ok(b)
                    },
                    Err(e) => {
                        proof {
                            assert forall|f: Board| !init.admits(f) by {
                                assert(init.admits(f) <==> mid.admits(f));
                                assert(!mid.admits(f));
                            }
                        }
                        Err(e)
                    },
                }
            }
        },
        Err(e) => Err(e),
    }
}

} // verus!
