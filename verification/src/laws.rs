use vstd::prelude::*;

use crate::board::Board;
use crate::board::block_cell;
use crate::board::peers;

verus! {

/// The distinct values found among the first `k` entries of `s`.
spec fn values_of(s: Seq<int>, k: int) -> Set<int>
    decreases k,
{
    if k <= 0 {
        Set::empty()
    } else {
        values_of(s, k - 1).insert(s[k - 1])
    }
}

proof fn lemma_values_of(s: Seq<int>, k: int)
    requires
        0 <= k <= s.len(),
        forall|i: int, j: int| 0 <= i < j < s.len() ==> s[i] != s[j],
    ensures
        values_of(s, k).finite(),
        values_of(s, k).len() == k,
        forall|x: int| #[trigger] values_of(s, k).contains(x) ==> exists|i: int| 0 <= i < k && s[i] == x,
        forall|i: int| 0 <= i < k ==> values_of(s, k).contains(s[i]),
    decreases k,
{
    broadcast use vstd::set::group_set_axioms;

    if k > 0 {
        lemma_values_of(s, k - 1);
        if values_of(s, k - 1).contains(s[k - 1]) {
            let i = choose|i: int| 0 <= i < k - 1 && #[trigger] s[i] == s[k - 1];
            assert(s[i] != s[k - 1]);
            assert(false);
        }
    }
}

/// `w` occurs among the nine entries of `s`.
spec fn seq_has(s: Seq<int>, w: int) -> bool {
    exists|i: int| 0 <= i < 9 && #[trigger] s[i] == w
}

/// Row `r` of board `b` holds value `w` in some solved cell.
pub open spec fn row_has(b: Board, r: int, w: int) -> bool {
    exists|c: int| 0 <= c < 9 && #[trigger] b.value(r * 9 + c) == w
}

/// Column `c` of board `b` holds value `w` in some solved cell.
pub open spec fn col_has(b: Board, c: int, w: int) -> bool {
    exists|r: int| 0 <= r < 9 && #[trigger] b.value(r * 9 + c) == w
}

/// Block `g` of board `b` holds value `w` in some solved cell.
pub open spec fn block_has(b: Board, g: int, w: int) -> bool {
    exists|k: int| 0 <= k < 9 && #[trigger] b.value(block_cell(g, k)) == w
}

/// Pigeonhole for one unit: nine pairwise distinct values drawn from 1..=9
/// must hit every value of 1..=9.
proof fn lemma_nine_distinct_cover(s: Seq<int>)
    requires
        s.len() == 9,
        forall|i: int| 0 <= i < 9 ==> 1 <= #[trigger] s[i] <= 9,
        forall|i: int, j: int| 0 <= i < j < 9 ==> s[i] != s[j],
    ensures
        forall|w: int| 1 <= w <= 9 ==> #[trigger] seq_has(s, w),
{
    broadcast use vstd::set::group_set_axioms;

    lemma_values_of(s, 9);
    let vs = values_of(s, 9);
    let range = vstd::set_lib::set_int_range(1, 10);
    vstd::set_lib::lemma_int_range(1, 10);
    assert forall|w: int| 1 <= w <= 9 implies #[trigger] seq_has(s, w) by {
        if !vs.contains(w) {
            assert forall|x: int| vs.contains(x) implies range.remove(w).contains(x) by {
                let i = choose|i: int| 0 <= i < 9 && #[trigger] s[i] == x;
                assert(1 <= s[i] <= 9);
            }
            assert(vs.subset_of(range.remove(w)));
            vstd::set_lib::lemma_len_subset(vs, range.remove(w));
            assert(range.remove(w).len() == 8);
            assert(false);
        }
    }
}

/// Law: a fully solved board in which no two cells of a common row, column,
/// or block repeat a value — in particular, any board the solver returns
/// for a duplicate-free input — carries each value 1..=9 exactly once in
/// every row, every column, and every block: at least once by the clauses
/// below, and at most once because repeating cells would be peers.
#[verifier::rlimit(60)]
pub proof fn lemma_solved_units_complete(b: Board)
    requires
        b.wf(),
        b.all_solved(),
        b.no_dup(),
    ensures
        forall|r: int, w: int| 0 <= r < 9 && 1 <= w <= 9 ==> #[trigger] row_has(b, r, w),
        forall|c: int, w: int| 0 <= c < 9 && 1 <= w <= 9 ==> #[trigger] col_has(b, c, w),
        forall|g: int, w: int| 0 <= g < 9 && 1 <= w <= 9 ==> #[trigger] block_has(b, g, w),
{
    assert forall|r: int, w: int| 0 <= r < 9 && 1 <= w <= 9 implies #[trigger] row_has(
        b,
        r,
        w,
    ) by {
        let s = Seq::new(9, |c: int| b.value(r * 9 + c));
        assert forall|i: int| 0 <= i < 9 implies 1 <= #[trigger] s[i] <= 9 by {
            assert(b@[r * 9 + i].wf());
            assert(b.is_solved_at(r * 9 + i));
        }
        assert forall|i: int, j: int| 0 <= i < j < 9 implies s[i] != s[j] by {
            assert(peers(r * 9 + i, r * 9 + j));
        }
        lemma_nine_distinct_cover(s);
        assert(seq_has(s, w));
        let c = choose|i: int| 0 <= i < 9 && #[trigger] s[i] == w;
        assert(b.value(r * 9 + c) == w);
    }
    assert forall|c: int, w: int| 0 <= c < 9 && 1 <= w <= 9 implies #[trigger] col_has(
        b,
        c,
        w,
    ) by {
        let s = Seq::new(9, |r: int| b.value(r * 9 + c));
        assert forall|i: int| 0 <= i < 9 implies 1 <= #[trigger] s[i] <= 9 by {
            assert(b@[i * 9 + c].wf());
            assert(b.is_solved_at(i * 9 + c));
        }
        assert forall|i: int, j: int| 0 <= i < j < 9 implies s[i] != s[j] by {
            assert(peers(i * 9 + c, j * 9 + c));
        }
        lemma_nine_distinct_cover(s);
        assert(seq_has(s, w));
        let r = choose|i: int| 0 <= i < 9 && #[trigger] s[i] == w;
        assert(b.value(r * 9 + c) == w);
    }
    assert forall|g: int, w: int| 0 <= g < 9 && 1 <= w <= 9 implies #[trigger] block_has(
        b,
        g,
        w,
    ) by {
        let s = Seq::new(9, |k: int| b.value(block_cell(g, k)));
        assert forall|i: int| 0 <= i < 9 implies 1 <= #[trigger] s[i] <= 9 by {
            assert(0 <= block_cell(g, i) < 81);
            assert(b@[block_cell(g, i)].wf());
            assert(b.is_solved_at(block_cell(g, i)));
        }
        assert forall|i: int, j: int| 0 <= i < j < 9 implies s[i] != s[j] by {
            let a = block_cell(g, i);
            let d = block_cell(g, j);
            assert(a != d);
            assert(crate::board::block_of(a) == g);
            assert(crate::board::block_of(d) == g);
            assert(peers(a, d));
        }
        lemma_nine_distinct_cover(s);
        assert(seq_has(s, w));
        let k = choose|i: int| 0 <= i < 9 && #[trigger] s[i] == w;
        assert(b.value(block_cell(g, k)) == w);
    }
}

/// A board that admits some full solution is itself free of duplicates:
/// every solved cell reappears unchanged in the solution, where no unit
/// repeats a value. With the contract of `solve`, any input that admits a
/// solution is solved successfully into a grid that is complete in every
/// unit in the sense of `lemma_solved_units_complete`.
pub proof fn lemma_admitting_board_no_dup(b: Board, f: Board)
    requires
        b.admits(f),
    ensures
        b.no_dup(),
{
    assert forall|i: int, j: int|
        0 <= i < 81 && 0 <= j < 81 && #[trigger] peers(i, j) && b.is_solved_at(i)
            && b.is_solved_at(j) implies b.value(i) != b.value(j) by {
        assert(f@[i] == b@[i]);
        assert(f@[j] == b@[j]);
        assert(f.value(i) != f.value(j));
    }
}

/// Law: a board carrying the same fixed value twice in one row, column, or
/// block admits no full solution at all; together with the contract of
/// `solve`, whenever the solver fails on such a board, its failure is
/// truthful.
pub proof fn lemma_duplicate_admits_none(b: Board, i: int, j: int)
    requires
        0 <= i < 81,
        0 <= j < 81,
        peers(i, j),
        b.is_solved_at(i),
        b.is_solved_at(j),
        b.value(i) == b.value(j),
    ensures
        forall|f: Board| !b.admits(f),
{
    assert forall|f: Board| !b.admits(f) by {
        if b.admits(f) {
            assert(f@[i] == b@[i]);
            assert(f@[j] == b@[j]);
            assert(f.value(i) == b.value(i) && f.value(j) == b.value(j));
            assert(f.value(i) != f.value(j));
            assert(false);
        }
    }
}

} // verus!
