use vstd::prelude::*;

use crate::board::Board;
use crate::board::Cell;
use crate::solver::SolveError;

verus! {

/// The board values denoted by the digit characters of `s`, in order; every
/// other byte is skipped.
pub open spec fn digit_values(s: Seq<u8>) -> Seq<u8>
    decreases s.len(),
{
    if s.len() == 0 {
        Seq::empty()
    } else {
        let rest = digit_values(s.drop_last());
        if 0x30 <= s.last() <= 0x39 {
            rest.push((s.last() - 0x30) as u8)
        } else {
            rest
        }
    }
}

/// Build the board a byte stream denotes: its digit characters, '0' for an
/// unknown cell, must number exactly 81 once every other byte is skipped;
/// any other count is rejected at this boundary, before any solving.
pub fn parse_board(bytes: &Vec<u8>) -> (r: Result<Board, SolveError>)
    ensures
        digit_values(bytes@).len() == 81 ==> (r matches Ok(b) && b.wf() && forall|i: int|
            0 <= i < 81 ==> b@[i] == Cell::spec_from_digit(digit_values(bytes@)[i])),
        digit_values(bytes@).len() != 81 ==> r == Err::<Board, SolveError>(
            SolveError::InvalidData,
        ),
{
    let mut cells: Vec<Cell> = Vec::new();
    let mut k: usize = 0;
    while k < bytes.len()
        invariant
            k <= bytes@.len(),
            cells@.len() == digit_values(bytes@.subrange(0, k as int)).len(),
            forall|i: int|
                0 <= i < cells@.len() ==> #[trigger] cells@[i] == Cell::spec_from_digit(
                    digit_values(bytes@.subrange(0, k as int))[i],
                ),
            forall|i: int| 0 <= i < cells@.len() ==> #[trigger] cells@[i].wf(),
        decreases bytes@.len() - k,
    {
        let b = bytes[k];
        proof {
            assert(bytes@.subrange(0, k + 1).drop_last() =~= bytes@.subrange(0, k as int));
            assert(bytes@.subrange(0, k + 1).last() == bytes@[k as int]);
        }
        if 0x30 <= b && b <= 0x39 {
            cells.push(Cell::from_digit(b - 0x30));
        }
        k = k + 1;
    }
    proof {
        assert(bytes@.subrange(0, bytes@.len() as int) =~= bytes@);
    }
    if cells.len() == 81 {
        Ok(Board::from(cells))
    } else {
        Err(SolveError::InvalidData)
    }
}

/// The character a single cell is displayed as: its digit, or a space for an
/// unknown cell.
pub open spec fn digit_char(v: int) -> char {
    if v == 1 {
        '1'
    } else if v == 2 {
        '2'
    } else if v == 3 {
        '3'
    } else if v == 4 {
        '4'
    } else if v == 5 {
        '5'
    } else if v == 6 {
        '6'
    } else if v == 7 {
        '7'
    } else if v == 8 {
        '8'
    } else if v == 9 {
        '9'
    } else {
        '0'
    }
}

pub open spec fn cell_char(c: Cell) -> char {
    match c {
        Cell::NotSolved(_) => ' ',
        Cell::Solved(v) => digit_char(v as int),
    }
}

/// The grid as text: nine lines of nine characters each, row-major, solved
/// cells as digits and unknown cells as spaces, with no column separators.
pub open spec fn render_chars(s: Seq<Cell>) -> Seq<char> {
    Seq::new(
        90,
        |p: int|
            if p % 10 == 9 {
                '\n'
            } else {
                cell_char(s[p / 10 * 9 + p % 10])
            },
    )
}

fn digit_char_of(v: usize) -> (c: char)
    ensures
        c == digit_char(v as int),
{
    match v {
        1 => '1',
        2 => '2',
        3 => '3',
        4 => '4',
        5 => '5',
        6 => '6',
        7 => '7',
        8 => '8',
        9 => '9',
        _ => '0',
    }
}

/// Relies on String::from_iter for char items: collecting characters yields
/// the string holding exactly those characters, in order.
#[verifier::external_body]
fn string_from_chars(v: Vec<char>) -> (r: String)
    ensures
        r@ == v@,
{
    String::from_iter(v)
}

impl Board {
    /// The grid rendered for display, as `render_chars` describes.
    pub fn render(&self) -> (r: String)
        requires
            self.wf(),
        ensures
            r@ == render_chars(self@),
    {
        let mut out: Vec<char> = Vec::new();
        let mut row: usize = 0;
        while row < 9
            invariant
                self.wf(),
                row <= 9,
                out@.len() == 10 * row,
                forall|p: int| 0 <= p < out@.len() ==> #[trigger] out@[p] == render_chars(self@)[p],
            decreases 9 - row,
        {
            let mut col: usize = 0;
            while col < 9
                invariant
                    self.wf(),
                    row < 9,
                    col <= 9,
                    out@.len() == 10 * row + col,
                    forall|p: int|
                        0 <= p < out@.len() ==> #[trigger] out@[p] == render_chars(self@)[p],
                decreases 9 - col,
            {
                let c = match self.get(row * 9 + col) {
                    Cell::NotSolved(_) => ' ',
                    Cell::Solved(v) => digit_char_of(v as usize),
                };
                out.push(c);
                proof {
                    let p = 10 * row + col;
                    assert(p % 10 == col && p / 10 == row as int);
                    assert(out@[p as int] == render_chars(self@)[p as int]);
                }
                col = col + 1;
            }
            out.push('\n');
            proof {
                let p = 10 * row + 9;
                assert(p % 10 == 9);
                assert(out@[p as int] == render_chars(self@)[p as int]);
            }
            row = row + 1;
        }
        proof {
            assert(out@ =~= render_chars(self@));
        }
        string_from_chars(out)
    }
}

/// The decimal digits of a cell index below 100, one or two characters.
pub open spec fn index_chars(i: int) -> Seq<char> {
    if i < 10 {
        seq![digit_char(i)]
    } else {
        seq![digit_char(i / 10), digit_char(i % 10)]
    }
}

fn push_index(out: &mut Vec<char>, i: usize)
    ensures
        final(out)@ == old(out)@ + index_chars(i as int),
{
    if i < 10 {
        out.push(digit_char_of(i));
        proof {
            assert(out@ =~= old(out)@ + index_chars(i as int));
        }
    } else {
        out.push(digit_char_of(i / 10));
        out.push(digit_char_of(i % 10));
        proof {
            assert(out@ =~= old(out)@ + index_chars(i as int));
        }
    }
}

/// The diagnostic text of each failure, carrying the failing cell index
/// where there is one.
pub open spec fn message_chars(e: SolveError) -> Seq<char> {
    match e {
        SolveError::UnsolvableCell(i) => seq![
            'u', 'n', 's', 'o', 'l', 'v', 'a', 'b', 'l', 'e', ' ', 'c', 'e', 'l', 'l', ' ', 'a',
            't', ' ',
        ] + index_chars(i as int),
        SolveError::DuplicateCell(i) => seq![
            'd', 'u', 'p', 'l', 'i', 'c', 'a', 't', 'e', ' ', 'c', 'e', 'l', 'l', ' ', 'a', 't',
            ' ',
        ] + index_chars(i as int),
        SolveError::AllAssumptionsContradicted => seq![
            'a', 'l', 'l', ' ', 'a', 's', 's', 'u', 'm', 'p', 't', 'i', 'o', 'n', 's', ' ', 'c',
            'o', 'n', 't', 'r', 'a', 'd', 'i', 'c', 't', 'e', 'd',
        ],
        SolveError::InvalidData => seq![
            'i', 'n', 'v', 'a', 'l', 'i', 'd', ' ', 'd', 'a', 't', 'a',
        ],
    }
}

impl SolveError {
    /// The failure as human-readable text, as `message_chars` describes.
    pub fn message(&self) -> (r: String)
        ensures
            r@ == message_chars(*self),
    {
        match self {
            SolveError::UnsolvableCell(i) => {
                let mut out: Vec<char> = vec![
                    'u', 'n', 's', 'o', 'l', 'v', 'a', 'b', 'l', 'e', ' ', 'c', 'e', 'l', 'l', ' ',
                    'a', 't', ' ',
                ];
                push_index(&mut out, *i);
                proof {
                    assert(out@ =~= message_chars(*self));
                }
                string_from_chars(out)
            },
            SolveError::DuplicateCell(i) => {
                let mut out: Vec<char> = vec![
                    'd', 'u', 'p', 'l', 'i', 'c', 'a', 't', 'e', ' ', 'c', 'e', 'l', 'l', ' ', 'a',
                    't', ' ',
                ];
                push_index(&mut out, *i);
                proof {
                    assert(out@ =~= message_chars(*self));
                }
                string_from_chars(out)
            },
            SolveError::AllAssumptionsContradicted => {
                let out: Vec<char> = vec![
                    'a', 'l', 'l', ' ', 'a', 's', 's', 'u', 'm', 'p', 't', 'i', 'o', 'n', 's', ' ',
                    'c', 'o', 'n', 't', 'r', 'a', 'd', 'i', 'c', 't', 'e', 'd',
                ];
                proof {
                    assert(out@ =~= message_chars(*self));
                }
                string_from_chars(out)
            },
            SolveError::InvalidData => {
                let out: Vec<char> = vec![
                    'i', 'n', 'v', 'a', 'l', 'i', 'd', ' ', 'd', 'a', 't', 'a',
                ];
                proof {
                    assert(out@ =~= message_chars(*self));
                }
                string_from_chars(out)
            },
        }
    }
}

} // verus!
