use crate::board::{is_solution, lemma_precedes_first, partition, precedes, solutions};
use crate::engine::{make_solver, BoardSolution, Solver};
use vstd::prelude::*;

verus! {

/// The solutions for board size `n` whose first-row column is `from` or more.
pub open spec fn from_column(n: nat, from: nat) -> Set<Seq<usize>> {
    Set::new(|s: Seq<usize>| 0 < n && is_solution(n, s) && from <= s[0])
}

/// All solutions for one board size, drawn one by one from a search per
/// first-row column, the columns taken in ascending order.
pub struct Solutions {
    n: usize,
    /// The first-row column whose search starts next.
    next_pos: usize,
    /// The search under way, if any.
    current: Option<Solver>,
}

impl Solutions {
    /// The board size.
    pub closed spec fn size(&self) -> nat {
        self.n as nat
    }

    pub closed spec fn wf(&self) -> bool {
        &&& self.next_pos <= self.n
        &&& match self.current {
            Some(e) => e.wf() && e.size() == self.n && e.start() + 1 == self.next_pos,
            None => true,
        }
    }

    /// The solutions still to be produced.
    pub closed spec fn pending(&self) -> Set<Seq<usize>> {
        let rest = from_column(self.n as nat, self.next_pos as nat);
        match self.current {
            Some(e) => e.pending().union(rest),
            None => rest,
        }
    }

    spec fn measure(&self) -> int {
        2 * (self.n - self.next_pos) + if self.current is Some {
            1int
        } else {
            0int
        }
    }

    /// The next solution in lexicographic order, or `None` once all have
    /// been produced; after `None`, every later call returns `None` too.
    pub fn next(&mut self) -> (r: Option<BoardSolution>)
        requires
            old(self).wf(),
        ensures
            final(self).wf(),
            final(self).size() == old(self).size(),
            old(self).pending() == Set::<Seq<usize>>::empty() ==> r is None,
            match r {
                Some(sol) => {
                    &&& is_solution(old(self).size(), sol@)
                    &&& old(self).pending().contains(sol@)
                    &&& final(self).pending() == old(self).pending().remove(sol@)
                    &&& forall|s: Seq<usize>| #[trigger]
                        final(self).pending().contains(s) ==> precedes(sol@, s, sol@.len() as int)
                },
                None => {
                    &&& old(self).pending() == Set::<Seq<usize>>::empty()
                    &&& final(self).pending() == Set::<Seq<usize>>::empty()
                },
            },
    {
        let ghost initial = self.pending();
        loop
            invariant
                self.wf(),
                self.n == old(self).n,
                self.pending() == initial,
                initial == old(self).pending(),
            decreases self.measure(),
        {
            let ghost before = self.pending();
            let taken = self.current.take();
            match taken {
                Some(mut engine) => {
                    let found = engine.next();
                    match found {
                        Some(sol) => {
                            self.current = Some(engine);
                            proof {
                                let n = self.n as nat;
                                let rest = from_column(n, self.next_pos as nat);
                                assert(!rest.contains(sol@));
                                assert(initial.contains(sol@));
                                assert(initial != Set::<Seq<usize>>::empty());
                                assert(self.pending() =~= before.remove(sol@));
                                assert forall|s: Seq<usize>| #[trigger]
                                    self.pending().contains(s) implies precedes(
                                    sol@,
                                    s,
                                    sol@.len() as int,
                                ) by {
                                    if rest.contains(s) {
                                        lemma_precedes_first(sol@, s, n as int);
                                    }
                                }
                            }
                            return Some(sol);
                        },
                        None => {
                            assert(self.pending() =~= before);
                        },
                    }
                },
                None => {},
            }
            if self.next_pos < self.n {
                let engine = make_solver(self.n, self.next_pos);
                proof {
                    let n = self.n as nat;
                    let p = self.next_pos as nat;
                    assert(partition(n, p).union(from_column(n, p + 1)) =~= from_column(n, p));
                }
                self.current = Some(engine);
                self.next_pos = self.next_pos + 1;
            } else {
                proof {
                    assert(self.pending() =~= Set::<Seq<usize>>::empty());
                }
                return None;
            }
        }
    }
}

/// Prepares the enumeration of every solution for board size `n`: one search
/// per first-row column, from column 0 upwards.
pub fn setup(n: usize) -> (r: Solutions)
    ensures
        r.wf(),
        r.size() == n,
        r.pending() == solutions(n as nat),
{
    let r = Solutions { n, next_pos: 0, current: None };
    assert(r.pending() =~= solutions(n as nat));
    r
}

} // verus!
