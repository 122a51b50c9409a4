use crate::engine::BoardSolution;
use vstd::prelude::*;
use vstd::string::StringExecFns;

verus! {

/// The first `upto` cells of a row of side `n` whose queen stands in column
/// `queen`: two characters per cell, `Q` or `_` followed by a space.
pub open spec fn row_text(queen: int, n: nat, upto: nat) -> Seq<char>
    decreases upto,
{
    if upto == 0 {
        seq![]
    } else {
        row_text(queen, n, (upto - 1) as nat) + if upto - 1 == queen {
            seq!['Q', ' ']
        } else {
            seq!['_', ' ']
        }
    }
}

/// The board text of a placement on a board of side `n`: one line per row.
pub open spec fn board_text(s: Seq<usize>, n: nat) -> Seq<char>
    decreases s.len(),
{
    if s.len() == 0 {
        seq![]
    } else {
        board_text(s.drop_last(), n) + row_text(s.last() as int, n, n) + seq!['\n']
    }
}

impl BoardSolution {
    /// The solution as text, one line per row, each cell `Q ` where the
    /// queen stands and `_ ` elsewhere.
    pub fn render(&self) -> (r: String)
        ensures
            r@ == board_text(self@, self@.len()),
    {
        let n = self.n();
        let mut out = String::new();
        let mut row: usize = 0;
        proof {
            reveal_strlit("Q ");
            reveal_strlit("_ ");
            reveal_strlit("\n");
            assert(self@.take(0) =~= Seq::<usize>::empty());
        }
        while row < n
            invariant
                row <= n,
                n == self@.len(),
                out@ == board_text(self@.take(row as int), n as nat),
            decreases n - row,
        {
            let queen = self.column(row);
            let ghost head = out@;
            let mut col: usize = 0;
            while col < n
                invariant
                    col <= n,
                    n == self@.len(),
                    out@ == head + row_text(queen as int, n as nat, col as nat),
                decreases n - col,
            {
                proof {
                    reveal_strlit("Q ");
                    reveal_strlit("_ ");
                }
                if col == queen {
                    out.append("Q ");
                } else {
                    out.append("_ ");
                }
                proof {
                    assert(out@ =~= head + row_text(queen as int, n as nat, (col + 1) as nat));
                }
                col += 1;
            }
            proof {
                reveal_strlit("\n");
            }
            out.append("\n");
            proof {
                let t = self@.take(row + 1);
                assert(t.drop_last() =~= self@.take(row as int));
                assert(t.last() == queen);
                assert(out@ =~= board_text(t, n as nat));
            }
            row += 1;
        }
        proof {
            assert(self@.take(n as int) =~= self@);
        }
        out
    }
}

} // verus!
