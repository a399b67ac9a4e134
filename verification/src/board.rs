use vstd::prelude::*;

verus! {

/// Whether value `v` is present in the candidate mask `m` (bit `v` is set).
/// Only values in 1..=9 can ever be present.
pub open spec fn cand_has(m: u16, v: int) -> bool {
    1 <= v <= 9 && (m >> (v as u16)) & 1 == 1
}

/// How many values in 1..=(v-1) are present in the candidate mask `m`.
pub open spec fn cand_count_below(m: u16, v: int) -> nat
    decreases v,
{
    if v <= 1 {
        0
    } else {
        cand_count_below(m, v - 1) + if cand_has(m, v - 1) {
            1nat
        } else {
            0nat
        }
    }
}

/// The set of values in 1..=9 still possible for an undetermined cell,
/// stored as a bitmask: bit `v` records that value `v` is still possible.
#[derive(Clone, Copy, Debug, PartialEq, Eq, Structural)]
pub struct Candidates {
    pub mask: u16,
}

impl Candidates {
    /// `v` has not yet been excluded.
    pub open spec fn has(self, v: int) -> bool {
        cand_has(self.mask, v)
    }

    /// The number of values not yet excluded.
    pub open spec fn count(self) -> nat {
        cand_count_below(self.mask, 10)
    }

    /// The mask holding all nine values.
    pub open spec fn spec_full() -> Candidates {
        Candidates { mask: 0x3fe }
    }

    /// The set of all nine values: nothing excluded yet.
    pub fn full() -> (r: Candidates)
        ensures
            r == Candidates::spec_full(),
            forall|v: int| #[trigger] r.has(v) <==> 1 <= v <= 9,
    {
        let r = Candidates { mask: 0x3fe };
        proof {
            assert forall|v: int| #[trigger] r.has(v) <==> 1 <= v <= 9 by {
                if 1 <= v <= 9 {
                    let vv = v as u16;
                    assert((0x3feu16 >> vv) & 1 == 1) by (bit_vector)
                        requires 1 <= vv <= 9;
                }
            }
        }
        r
    }

    pub fn contains(&self, v: u8) -> (r: bool)
        requires
            1 <= v <= 9,
        ensures
            r == self.has(v as int),
    {
        (self.mask >> (v as u16)) & 1 == 1
    }

    /// Exclude `v`; every other value is untouched.
    pub fn remove(&mut self, v: u8)
        requires
            1 <= v <= 9,
        ensures
            final(self).mask == (old(self).mask & !(1u16 << (v as u16))),
            forall|x: int| #[trigger] final(self).has(x) <==> (old(self).has(x) && x != v as int),
    {
        let ghost m: u16 = self.mask;
        let ghost vv: u16 = v as u16;
        self.mask = self.mask & !(1u16 << (v as u16));
        proof {
            assert forall|x: int| #[trigger] self.has(x) <==> (old(self).has(x) && x != v as int) by {
                if 1 <= x <= 9 {
                    let xx = x as u16;
                    assert((((m & !(1u16 << vv)) >> xx) & 1 == 1) <==> (((m >> xx) & 1 == 1)
                        && xx != vv)) by (bit_vector)
                        requires
                            1 <= vv <= 9,
                            1 <= xx <= 9,
                    ;
                }
            }
        }
    }

    /// The number of values not yet excluded, as a machine integer.
    pub fn len(&self) -> (n: u8)
        ensures
            n as nat == self.count(),
            n <= 9,
    {
        let mut n: u8 = 0;
        let mut v: u8 = 1;
        while v <= 9
            invariant
                1 <= v <= 10,
                n as nat == cand_count_below(self.mask, v as int),
                n < v,
            decreases 10 - v,
        {
            if self.contains(v) {
                n = n + 1;
            }
            v = v + 1;
        }
        n
    }

    pub fn is_empty(&self) -> (r: bool)
        ensures
            r <==> self.count() == 0,
    {
        self.len() == 0
    }

    /// The smallest value not yet excluded; callable only when one exists.
    pub fn smallest(&self) -> (r: u8)
        requires
            self.count() > 0,
        ensures
            1 <= r <= 9,
            self.has(r as int),
            forall|x: int| 1 <= x < r ==> !self.has(x),
    {
        let mut v: u8 = 1;
        while v <= 9
            invariant
                1 <= v <= 10,
                forall|x: int| 1 <= x < v ==> !self.has(x),
            decreases 10 - v,
        {
            if self.contains(v) {
                return v;
            }
            v = v + 1;
        }
        proof {
            assert forall|x: int| 1 <= x < 10 implies !cand_has(self.mask, x) by {
                assert(!self.has(x));
            }
            lemma_cand_count_none(self.mask, 10);
        }
        1
    }
}

/// If no value below `v` is present, the count below `v` is zero.
proof fn lemma_cand_count_none(m: u16, v: int)
    requires
        forall|x: int| 1 <= x < v ==> !cand_has(m, x),
    ensures
        cand_count_below(m, v) == 0,
    decreases v,
{
    if v > 1 {
        lemma_cand_count_none(m, v - 1);
    }
}

/// A present value below `v` contributes to the count below `v`.
proof fn lemma_cand_count_ge1(m: u16, a: int, v: int)
    requires
        cand_has(m, a),
        a < v,
    ensures
        cand_count_below(m, v) >= 1,
    decreases v,
{
    if a < v - 1 {
        lemma_cand_count_ge1(m, a, v - 1);
    }
}

/// Two distinct present values below `v` make the count below `v` at least two.
proof fn lemma_cand_count_ge2(m: u16, a: int, b: int, v: int)
    requires
        cand_has(m, a),
        cand_has(m, b),
        a < b < v,
    ensures
        cand_count_below(m, v) >= 2,
    decreases v,
{
    if b < v - 1 {
        lemma_cand_count_ge2(m, a, b, v - 1);
    } else {
        lemma_cand_count_ge1(m, a, v - 1);
    }
}

/// Removing a value that is already absent leaves the mask as it was.
pub proof fn lemma_remove_absent(m: u16, v: u16)
    requires
        1 <= v <= 9,
        (m >> v) & 1 != 1,
    ensures
        m & !(1u16 << v) == m,
{
    assert((m >> v) & 1 != 1 ==> m & !(1u16 << v) == m) by (bit_vector)
        requires
            1 <= v <= 9,
    ;
}

/// An empty candidate set holds no value at all.
pub proof fn lemma_empty_has_none(c: Candidates, x: int)
    requires
        c.count() == 0,
    ensures
        !c.has(x),
{
    if c.has(x) {
        lemma_cand_count_ge1(c.mask, x, 10);
    }
}

/// Law: a candidate set of size one determines its member: any two values it
/// holds are the same value.
pub proof fn lemma_single_candidate(c: Candidates, a: int, b: int)
    requires
        c.count() == 1,
        c.has(a),
        c.has(b),
    ensures
        a == b,
{
    if a < b {
        lemma_cand_count_ge2(c.mask, a, b, 10);
    } else if b < a {
        lemma_cand_count_ge2(c.mask, b, a, 10);
    }
}

/// One of the 81 grid positions: either solved with a fixed value in 1..=9,
/// or undetermined with the set of values not yet excluded.
#[derive(Clone, Copy, Debug, PartialEq, Eq, Structural)]
pub enum Cell {
    NotSolved(Candidates),
    Solved(u8),
}

impl Cell {
    pub open spec fn wf(self) -> bool {
        match self {
            Cell::Solved(v) => 1 <= v <= 9,
            Cell::NotSolved(_) => true,
        }
    }

    /// The cell a parsed digit denotes: 0 is an unknown cell with all nine
    /// candidates, 1..=9 is a fixed value.
    pub open spec fn spec_from_digit(d: u8) -> Cell {
        if d == 0 {
            Cell::NotSolved(Candidates::spec_full())
        } else {
            Cell::Solved(d)
        }
    }

    pub fn from_digit(d: u8) -> (r: Cell)
        requires
            d <= 9,
        ensures
            r == Cell::spec_from_digit(d),
            r.wf(),
    {
        if d == 0 {
            Cell::NotSolved(Candidates::full())
        } else {
            Cell::Solved(d)
        }
    }
}

/// The row (0..9) of the flat cell index `i`.
pub open spec fn row_of(i: int) -> int {
    i / 9
}

/// The column (0..9) of the flat cell index `i`.
pub open spec fn col_of(i: int) -> int {
    i % 9
}

/// The 3x3 block (0..9) of the flat cell index `i`.
pub open spec fn block_of(i: int) -> int {
    row_of(i) / 3 * 3 + col_of(i) / 3
}

/// `i` and `j` lie in a common row, column, or block (including `i == j`).
pub open spec fn shares_unit(i: int, j: int) -> bool {
    row_of(i) == row_of(j) || col_of(i) == col_of(j) || block_of(i) == block_of(j)
}

/// Distinct cells constrained against each other.
pub open spec fn peers(i: int, j: int) -> bool {
    i != j && shares_unit(i, j)
}

/// The flat index of the `k`-th cell (0..9, row-major) of block `g` (0..9).
pub open spec fn block_cell(g: int, k: int) -> int {
    (g / 3 * 3 + k / 3) * 9 + (g % 3 * 3 + k % 3)
}

/// The grid: 81 cells in row-major order (`index = row * 9 + col`).
#[derive(Debug)]
pub struct Board {
    pub cells: Vec<Cell>,
}

impl View for Board {
    type V = Seq<Cell>;

    open spec fn view(&self) -> Seq<Cell> {
        self.cells@
    }
}

/// How many cells of `s` are still undetermined.
pub open spec fn seq_unsolved(s: Seq<Cell>) -> nat
    decreases s.len(),
{
    if s.len() == 0 {
        0
    } else {
        seq_unsolved(s.drop_last()) + if s.last() is Solved {
            0nat
        } else {
            1nat
        }
    }
}

impl Board {
    pub open spec fn wf(self) -> bool {
        &&& self@.len() == 81
        &&& forall|i: int| 0 <= i < 81 ==> self@[i].wf()
    }

    pub open spec fn is_solved_at(self, i: int) -> bool {
        self@[i] is Solved
    }

    /// The fixed value at `i`; meaningful only where `is_solved_at(i)`.
    pub open spec fn value(self, i: int) -> int {
        match self@[i] {
            Cell::Solved(v) => v as int,
            Cell::NotSolved(_) => 0,
        }
    }

    /// `i` is undetermined and still admits the value `v`.
    pub open spec fn has_cand(self, i: int, v: int) -> bool {
        match self@[i] {
            Cell::NotSolved(c) => c.has(v),
            Cell::Solved(_) => false,
        }
    }

    /// How many candidates the cell at `i` still has (zero for a solved cell).
    pub open spec fn cand_count_at(self, i: int) -> nat {
        match self@[i] {
            Cell::NotSolved(c) => c.count(),
            Cell::Solved(_) => 0,
        }
    }

    /// Every undetermined cell still has at least two candidates: nothing is
    /// forced and nothing is contradicted.
    pub open spec fn no_forced_cell(self) -> bool {
        forall|i: int|
            0 <= i < 81 && !self.is_solved_at(i) ==> #[trigger] self.cand_count_at(i) >= 2
    }

    pub open spec fn all_solved(self) -> bool {
        forall|i: int| 0 <= i < 81 ==> self.is_solved_at(i)
    }

    /// No two solved cells of a common row, column, or block carry the same
    /// value.
    pub open spec fn no_dup(self) -> bool {
        forall|i: int, j: int|
            0 <= i < 81 && 0 <= j < 81 && #[trigger] peers(i, j) && self.is_solved_at(i)
                && self.is_solved_at(j) ==> self.value(i) != self.value(j)
    }

    /// Every undetermined cell has already had the values of its solved peers
    /// struck from its candidates.
    pub open spec fn propagated(self) -> bool {
        forall|i: int, j: int|
            0 <= i < 81 && 0 <= j < 81 && #[trigger] peers(i, j) && self.is_solved_at(j)
                ==> !self.has_cand(i, self.value(j))
    }

    /// `self` narrows `origin`: every solved cell of `origin` is kept as it
    /// is, and every choice `self` keeps or makes at an undetermined cell of
    /// `origin` was a candidate there.
    pub open spec fn refines(self, origin: Board) -> bool {
        forall|i: int|
            0 <= i < 81 ==> {
                &&& (origin.is_solved_at(i) ==> #[trigger] self@[i] == origin@[i])
                &&& (!origin.is_solved_at(i) && self.is_solved_at(i) ==> origin.has_cand(
                    i,
                    self.value(i),
                ))
                &&& (!origin.is_solved_at(i) && !self.is_solved_at(i) ==> forall|v: int|
                    self.has_cand(i, v) ==> origin.has_cand(i, v))
            }
    }

    /// `f` is a full solution compatible with the partial board `self`:
    /// fully solved, free of duplicates in every unit, and agreeing with every
    /// determination `self` has already made.
    pub open spec fn admits(self, f: Board) -> bool {
        &&& f.wf()
        &&& f.all_solved()
        &&& f.no_dup()
        &&& f.refines(self)
    }

    /// A stalled board: fully propagated, not yet solved, and with no cell
    /// forced or contradicted — exactly the boards elimination hands to the
    /// searcher, and a fixed point of elimination.
    pub open spec fn stalled(self) -> bool {
        self.propagated() && !self.all_solved() && self.no_forced_cell()
    }

    pub open spec fn unsolved(self) -> nat {
        seq_unsolved(self@)
    }

    pub fn get(&self, i: usize) -> (c: Cell)
        requires
            i < self@.len(),
        ensures
            c == self@[i as int],
    {
        self.cells[i]
    }

    pub fn set(&mut self, i: usize, c: Cell)
        requires
            i < old(self)@.len(),
        ensures
            final(self)@ == old(self)@.update(i as int, c),
    {
        self.cells[i] = c;
    }

    /// An exact copy; each search branch works on its own board.
    pub fn duplicate(&self) -> (r: Board)
        ensures
            r@ == self@,
    {
        let mut v: Vec<Cell> = Vec::new();
        let mut k: usize = 0;
        while k < self.cells.len()
            invariant
                k <= self@.len(),
                v@ == self@.subrange(0, k as int),
            decreases self@.len() - k,
        {
            v.push(self.cells[k]);
            proof {
                assert(v@ =~= self@.subrange(0, k + 1));
            }
            k = k + 1;
        }
        proof {
            assert(v@ =~= self@);
        }
        Board { cells: v }
    }
}

impl From<Vec<Cell>> for Board {
    fn from(v: Vec<Cell>) -> (r: Board) {
        Board { cells: v }
    }
}

impl vstd::std_specs::convert::FromSpecImpl<Vec<Cell>> for Board {
    open spec fn obeys_from_spec() -> bool {
        true
    }

    open spec fn from_spec(v: Vec<Cell>) -> Board {
        Board { cells: v }
    }
}

} // verus!
