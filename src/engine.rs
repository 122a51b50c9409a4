use crate::board::{
    agree, attacks, is_solution, lemma_agree_not_precedes, lemma_precedes_prefix,
    lemma_precedes_total, lemma_rank_backtrack, lemma_rank_bound, lemma_rank_bump, lemma_rank_push,
    on_board, partition, peaceful, precedes, rank,
};
use vstd::arithmetic::power::{lemma_pow_positive, pow};
use vstd::prelude::*;

verus! {

/// A complete placement: entry `i` is the column of the queen in row `i`.
pub struct BoardSolution {
    positions: Vec<usize>,
}

impl BoardSolution {
    pub closed spec fn view(&self) -> Seq<usize> {
        self.positions@
    }

    /// The board size, which is also the number of queens placed.
    pub fn n(&self) -> (r: usize)
        ensures
            r == self@.len(),
    {
        self.positions.len()
    }

    /// Column of the queen in row `row`.
    pub fn column(&self, row: usize) -> (r: usize)
        requires
            row < self@.len(),
        ensures
            r == self@[row as int],
    {
        self.positions[row]
    }
}

/// Depth-first search over the placements whose first-row queen stands in one
/// fixed column. The search is suspended after each solution and resumed by
/// the next call of `next`.
pub struct Solver {
    n: usize,
    /// One column per row explored so far; the last one is still being tried.
    cursor: Vec<usize>,
    /// The first row's column once every placement under the start column
    /// has been tried.
    end: usize,
}

/// A candidate column for the last row of `cursor` is free of attacks by
/// the queens of the rows above it.
pub open spec fn eligible(candidate: int, cursor: Seq<usize>) -> bool {
    forall|i: int|
        0 <= i < cursor.len() - 1 ==> !#[trigger] attacks(i, cursor[i] as int, cursor.len() - 1, candidate)
}

/// Whether a queen may stand in column `candidate` of the last row of
/// `cursor`: no queen of an earlier row shares its column or a diagonal.
pub fn is_position_eligible_for_queen(candidate: usize, cursor: &[usize]) -> (r: bool)
    requires
        cursor@.len() >= 1,
    ensures
        r == eligible(candidate as int, cursor@),
{
    let row = cursor.len() - 1;
    let mut i: usize = 0;
    while i < row
        invariant
            i <= row,
            row == cursor@.len() - 1,
            forall|j: int| 0 <= j < i ==> !#[trigger] attacks(j, cursor@[j] as int, row as int, candidate as int),
        decreases row - i,
    {
        let queen = cursor[i];
        let distance = row - i;
        let gap = if queen >= candidate {
            queen - candidate
        } else {
            candidate - queen
        };
        if gap == 0 || gap == distance {
            assert(attacks(i as int, cursor@[i as int] as int, row as int, candidate as int));
            return false;
        }
        i += 1;
    }
    true
}

/// Moves the last row of `cursor` to its next column.
fn next_column(cursor: &mut Vec<usize>)
    requires
        old(cursor)@.len() > 0 ==> old(cursor)@.last() < usize::MAX,
    ensures
        old(cursor)@.len() > 0 ==> final(cursor)@ == old(cursor)@.update(
            old(cursor)@.len() - 1,
            (old(cursor)@.last() + 1) as usize,
        ),
        old(cursor)@.len() == 0 ==> final(cursor)@ == old(cursor)@,
{
    let len = cursor.len();
    if len > 0 {
        let col = cursor[len - 1];
        cursor.set(len - 1, col + 1);
    }
}

/// A placement that agrees with a peaceful one on all of its rows is peaceful.
proof fn lemma_peaceful_prefix(a: Seq<usize>, b: Seq<usize>)
    requires
        peaceful(b),
        a.len() <= b.len(),
        agree(a, b, a.len() as int),
    ensures
        peaceful(a),
{
    assert forall|i: int, j: int| 0 <= i < j < a.len() implies !#[trigger] attacks(
        i,
        a[i] as int,
        j,
        a[j] as int,
    ) by {
        assert(a[i] == b[i] && a[j] == b[j]);
        assert(!attacks(i, b[i] as int, j, b[j] as int));
    }
}

/// A peaceful placement extended by an eligible row stays peaceful.
proof fn lemma_peaceful_extend(c: Seq<usize>)
    requires
        c.len() >= 1,
        peaceful(c.drop_last()),
        eligible(c.last() as int, c),
    ensures
        peaceful(c),
{
    let d = c.drop_last();
    assert forall|i: int, j: int| 0 <= i < j < c.len() implies !#[trigger] attacks(
        i,
        c[i] as int,
        j,
        c[j] as int,
    ) by {
        if j < c.len() - 1 {
            assert(d[i] == c[i] && d[j] == c[j]);
            assert(!attacks(i, d[i] as int, j, d[j] as int));
        }
    }
}

/// The solutions for board size `n` with first-row column `pos` whose first
/// `k` rows do not come before those of `c`.
pub open spec fn ahead(n: nat, pos: int, c: Seq<usize>, k: int) -> Set<Seq<usize>> {
    Set::new(|s: Seq<usize>| is_solution(n, s) && s[0] == pos && !precedes(s, c, k))
}

/// Descending into a new row at column 0 leaves the pending solutions as they are.
proof fn lemma_step_descend(n: nat, pos: int, c: Seq<usize>)
    requires
        1 <= c.len() <= n,
    ensures
        ahead(n, pos, c.push(0), if c.len() < n { c.len() + 1 as int } else { n as int }) == ahead(
            n,
            pos,
            c,
            c.len() as int,
        ),
{
    let k = c.len() as int;
    let c2 = c.push(0);
    let k2 = if k < n { k + 1 } else { n as int };
    assert forall|s: Seq<usize>| #[trigger] ahead(n, pos, c2, k2).contains(s) == ahead(
        n,
        pos,
        c,
        k,
    ).contains(s) by {
        lemma_precedes_prefix(s, c2, s, c, k);
        if k < n {
            assert(precedes(s, c2, k + 1) == (precedes(s, c2, k) || (agree(s, c2, k) && s[k] < 0)));
        }
    }
    assert(ahead(n, pos, c2, k2) =~= ahead(n, pos, c, k));
}

/// Moving past a column that an earlier queen attacks leaves the pending
/// solutions as they are.
proof fn lemma_step_skip(n: nat, pos: int, c: Seq<usize>)
    requires
        1 <= c.len() <= n,
        c.last() < usize::MAX,
        !eligible(c.last() as int, c),
    ensures
        ahead(n, pos, c.update(c.len() - 1, (c.last() + 1) as usize), c.len() as int) == ahead(
            n,
            pos,
            c,
            c.len() as int,
        ),
{
    let k = c.len() as int;
    let c2 = c.update(k - 1, (c.last() + 1) as usize);
    let i = choose|i: int|
        0 <= i < c.len() - 1 && #[trigger] attacks(i, c[i] as int, c.len() - 1, c.last() as int);
    assert forall|s: Seq<usize>| #[trigger] ahead(n, pos, c2, k).contains(s) == ahead(
        n,
        pos,
        c,
        k,
    ).contains(s) by {
        lemma_precedes_prefix(s, c2, s, c, k - 1);
        if is_solution(n, s) && agree(s, c, k - 1) && s[k - 1] == c[k - 1] {
            assert(s[i] == c[i]);
            assert(!attacks(i, s[i] as int, k - 1, s[k - 1] as int));
        }
    }
    assert(ahead(n, pos, c2, k) =~= ahead(n, pos, c, k));
}

/// Leaving an exhausted row and moving its parent row on leaves the pending
/// solutions as they are.
proof fn lemma_step_backtrack(n: nat, pos: int, c: Seq<usize>)
    requires
        2 <= c.len() <= n,
        c.last() >= n,
        c[c.len() - 2] < usize::MAX,
    ensures
        ({
            let d = c.drop_last();
            ahead(n, pos, d.update(d.len() - 1, (d.last() + 1) as usize), d.len() as int) == ahead(
                n,
                pos,
                c,
                c.len() as int,
            )
        }),
{
    let k = c.len() as int;
    let d = c.drop_last();
    let c2 = d.update(k - 2, (d.last() + 1) as usize);
    assert forall|s: Seq<usize>| #[trigger] ahead(n, pos, c2, k - 1).contains(s) == ahead(
        n,
        pos,
        c,
        k,
    ).contains(s) by {
        lemma_precedes_prefix(s, c2, s, c, k - 2);
        if is_solution(n, s) {
            assert(s[k - 1] < n);
            assert(agree(s, c2, k - 2) == agree(s, c, k - 2));
            assert(agree(s, c, k - 1) == (agree(s, c, k - 2) && s[k - 2] == c[k - 2]));
            assert(precedes(s, c2, k - 1) == (precedes(s, c2, k - 2) || (agree(s, c2, k - 2)
                && s[k - 2] < c2[k - 2])));
            assert(precedes(s, c, k - 1) == (precedes(s, c, k - 2) || (agree(s, c, k - 2) && s[k
                - 2] < c[k - 2])));
            assert(precedes(s, c, k) == (precedes(s, c, k - 1) || (agree(s, c, k - 1) && s[k - 1]
                < c[k - 1])));
        }
    }
    assert(ahead(n, pos, c2, k - 1) =~= ahead(n, pos, c, k));
}

/// With a full placement under the cursor, that placement is the least
/// pending solution, and moving on removes exactly it.
proof fn lemma_step_emit(n: nat, pos: int, c: Seq<usize>)
    requires
        n >= 1,
        c.len() == n + 1,
        c[0] == pos,
        n <= usize::MAX,
        on_board(n, c.drop_last()),
        peaceful(c.drop_last()),
    ensures
        ({
            let d = c.drop_last();
            let c2 = d.update(d.len() - 1, (d.last() + 1) as usize);
            &&& ahead(n, pos, c, n as int).contains(d)
            &&& ahead(n, pos, c2, n as int) == ahead(n, pos, c, n as int).remove(d)
            &&& forall|s: Seq<usize>| #[trigger]
                ahead(n, pos, c2, n as int).contains(s) ==> precedes(d, s, n as int)
        }),
{
    let k = n as int;
    let d = c.drop_last();
    let c2 = d.update(k - 1, (d.last() + 1) as usize);
    assert(agree(d, c, k));
    lemma_agree_not_precedes(d, c, k);
    assert(d[0] == c[0]);
    assert(is_solution(n, d));
    assert(ahead(n, pos, c, k).contains(d));
    assert(d[k - 1] < n);
    assert(c2[k - 1] == c[k - 1] + 1);
    assert(agree(c2, c, k - 1));
    assert forall|s: Seq<usize>| #[trigger] ahead(n, pos, c2, k).contains(s) == ahead(
        n,
        pos,
        c,
        k,
    ).remove(d).contains(s) by {
        lemma_precedes_prefix(s, c2, s, c, k - 1);
        lemma_precedes_prefix(s, c, s, d, k);
        if is_solution(n, s) {
            assert(agree(s, c2, k - 1) == agree(s, c, k - 1));
            assert(agree(s, c, k) == (agree(s, c, k - 1) && s[k - 1] == c[k - 1]));
            assert(precedes(s, c2, k) == (precedes(s, c2, k - 1) || (agree(s, c2, k - 1) && s[k
                - 1] < c2[k - 1])));
            assert(precedes(s, c, k) == (precedes(s, c, k - 1) || (agree(s, c, k - 1) && s[k - 1]
                < c[k - 1])));
            if agree(s, c, k) {
                assert(s =~= d);
            }
            if s == d {
                assert(agree(s, c, k));
            }
        }
    }
    assert(ahead(n, pos, c2, k) =~= ahead(n, pos, c, k).remove(d));
    assert forall|s: Seq<usize>| #[trigger]
        ahead(n, pos, c2, k).contains(s) implies precedes(d, s, k) by {
        lemma_precedes_prefix(s, c, s, d, k);
        if agree(s, d, k) {
            assert(s =~= d);
        }
        lemma_precedes_total(s, d, k);
    }
}

/// Once the first row has moved past the start column nothing is pending.
proof fn lemma_step_done(n: nat, pos: int, c: Seq<usize>)
    requires
        c.len() == 1,
        c[0] == pos + 1,
    ensures
        ahead(n, pos, c, 1) == Set::<Seq<usize>>::empty(),
{
    assert forall|s: Seq<usize>| !#[trigger] ahead(n, pos, c, 1).contains(s) by {
        assert(!precedes(s, c, 0));
    }
    assert(ahead(n, pos, c, 1) =~= Set::<Seq<usize>>::empty());
}

impl Solver {
    /// The board size.
    pub closed spec fn size(&self) -> nat {
        self.n as nat
    }

    /// The column of the first-row queen in every placement this search covers.
    pub closed spec fn start(&self) -> nat {
        (self.end - 1) as nat
    }

    /// How many leading cursor rows take part in the order of the search.
    spec fn frontier(&self) -> int {
        if self.cursor@.len() <= self.n {
            self.cursor@.len() as int
        } else {
            self.n as int
        }
    }

    /// Well-formed search state: every row but the last holds a queen that
    /// no earlier queen attacks; the last row's column may be one past the
    /// board, which means that the row is exhausted.
    pub closed spec fn wf(&self) -> bool {
        let c = self.cursor@;
        &&& 1 <= self.end <= self.n
        &&& 1 <= c.len() <= self.n + 1
        &&& (c[0] == self.end - 1 || (c[0] == self.end && c.len() == 1))
        &&& forall|i: int| 0 <= i < c.len() - 1 ==> #[trigger] c[i] < self.n
        &&& c.last() <= self.n
        &&& peaceful(c.drop_last())
    }

    /// The solutions that this search has still to produce: those of its
    /// partition that do not come before the cursor.
    pub closed spec fn pending(&self) -> Set<Seq<usize>> {
        ahead(self.n as nat, self.end - 1, self.cursor@, self.frontier())
    }

    spec fn measure(&self) -> int {
        pow((self.n + 2) as int, (self.n + 2) as nat) - rank(
            self.cursor@,
            (self.n + 2) as int,
            (self.n + 1) as nat,
        )
    }

    proof fn lemma_measure(&self)
        requires
            self.wf(),
        ensures
            self.measure() > 0,
    {
        let c = self.cursor@;
        assert forall|i: int| 0 <= i < c.len() implies #[trigger] c[i] <= self.n by {
            if i < c.len() - 1 {
            }
        }
        lemma_rank_bound(c, self.n as nat);
        lemma_pow_positive((self.n + 2) as int, (self.n + 2 - c.len()) as nat);
    }

    /// Runs the search on to its next solution, or reports that none is left.
    /// Solutions come in lexicographic order; once `None` has come, every
    /// later call returns `None` too.
    pub fn next(&mut self) -> (r: Option<BoardSolution>)
        requires
            old(self).wf(),
        ensures
            final(self).wf(),
            final(self).size() == old(self).size(),
            final(self).start() == old(self).start(),
            old(self).pending() == Set::<Seq<usize>>::empty() ==> r is None,
            match r {
                Some(sol) => {
                    &&& is_solution(old(self).size(), sol@)
                    &&& sol@[0] == old(self).start()
                    &&& old(self).pending().contains(sol@)
                    &&& final(self).pending() == old(self).pending().remove(sol@)
                    &&& forall|s: Seq<usize>| #[trigger]
                        final(self).pending().contains(s) ==> precedes(sol@, s, sol@.len() as int)
                },
                None => {
                    &&& old(self).pending() == Set::<Seq<usize>>::empty()
                    &&& final(self).pending() == Set::<Seq<usize>>::empty()
                },
            },
    {
        let ghost initial = self.pending();
        loop
            invariant
                self.wf(),
                self.n == old(self).n,
                self.end == old(self).end,
                self.pending() == initial,
                initial == old(self).pending(),
            decreases self.measure(),
        {
            proof {
                self.lemma_measure();
            }
            let ghost c = self.cursor@;
            let ghost pos = self.end - 1;
            let depth = self.cursor.len();
            let col = self.cursor[depth - 1];
            if depth == 1 && col == self.end {
                proof {
                    lemma_step_done(self.n as nat, pos, c);
                }
                return None;
            }
            assert(c[0] == pos);
            if depth - 1 == self.n {
                proof {
                    assert(on_board(self.n as nat, c.drop_last()));
                    lemma_step_emit(self.n as nat, pos, c);
                    lemma_rank_backtrack(c, self.n as nat);
                }
                self.cursor.pop();
                let positions = self.cursor.clone();
                next_column(&mut self.cursor);
                let sol = BoardSolution { positions };
                proof {
                    let d = c.drop_last();
                    assert(positions@ == d);
                    lemma_peaceful_prefix(self.cursor@.drop_last(), d);
                }
                return Some(sol);
            } else if col == self.n {
                proof {
                    lemma_step_backtrack(self.n as nat, pos, c);
                    lemma_rank_backtrack(c, self.n as nat);
                    lemma_peaceful_prefix(c.drop_last().drop_last(), c.drop_last());
                }
                self.cursor.pop();
                next_column(&mut self.cursor);
                proof {
                    assert(self.cursor@.drop_last() =~= c.drop_last().drop_last());
                    self.lemma_measure();
                }
            } else if is_position_eligible_for_queen(col, self.cursor.as_slice()) {
                proof {
                    lemma_step_descend(self.n as nat, pos, c);
                    lemma_rank_push(c, 0, self.n as nat);
                    lemma_peaceful_extend(c);
                }
                self.cursor.push(0);
                proof {
                    assert(self.cursor@.drop_last() =~= c);
                    self.lemma_measure();
                }
            } else {
                proof {
                    lemma_step_skip(self.n as nat, pos, c);
                    lemma_rank_bump(c, (col + 1) as usize, self.n as nat);
                }
                next_column(&mut self.cursor);
                proof {
                    assert(self.cursor@.drop_last() =~= c.drop_last());
                    self.lemma_measure();
                }
            }
        }
    }
}

/// Starts the search over the placements whose first-row queen stands in
/// column `pos`.
pub fn make_solver(n: usize, pos: usize) -> (r: Solver)
    requires
        pos < n,
    ensures
        r.wf(),
        r.size() == n,
        r.start() == pos,
        r.pending() == partition(n as nat, pos as nat),
{
    let r = Solver { n, cursor: vec![pos], end: pos + 1 };
    proof {
        assert(r.cursor@.drop_last() =~= Seq::<usize>::empty());
        assert forall|s: Seq<usize>| #[trigger] r.pending().contains(s) == partition(
            n as nat,
            pos as nat,
        ).contains(s) by {
            assert(r.cursor@[0] == pos);
            assert(!precedes(s, r.cursor@, 0));
            assert(precedes(s, r.cursor@, 1) == (s[0] < pos));
        }
        assert(r.pending() =~= partition(n as nat, pos as nat));
    }
    r
}

} // verus!
