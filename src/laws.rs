use crate::board::{attacks, is_solution, on_board, partition, solutions};
use vstd::prelude::*;
use vstd::set_lib::{lemma_set_disjoint_lens, lemma_set_subset_finite};

verus! {

/// Splitting the search by the first-row column loses and duplicates
/// nothing: every solution lies in the partition of exactly one column below
/// `n`, so enumerating the partitions one by one (or side by side) yields the
/// same solutions, each once, as enumerating the whole board.
pub proof fn lemma_partitions_cover(n: nat)
    ensures
        forall|s: Seq<usize>| #[trigger]
            solutions(n).contains(s) <==> (exists|pos: nat| pos < n && #[trigger] partition(
                n,
                pos,
            ).contains(s)),
        forall|p: nat, q: nat|
            p != q ==> #[trigger] partition(n, p).disjoint(#[trigger] partition(n, q)),
{
    assert forall|s: Seq<usize>| #[trigger]
        solutions(n).contains(s) implies (exists|pos: nat| pos < n && #[trigger] partition(
        n,
        pos,
    ).contains(s)) by {
        assert(s[0] < n);
        assert(partition(n, s[0] as nat).contains(s));
    }
    assert forall|p: nat, q: nat| p != q implies #[trigger] partition(n, p).disjoint(
        #[trigger] partition(n, q),
    ) by {
        assert forall|s: Seq<usize>| !(partition(n, p).contains(s) && partition(n, q).contains(s)) by {
        }
    }
}

/// Sequences of length `k` whose entries lie below `n`.
spec fn grid(n: nat, k: nat) -> Set<Seq<usize>> {
    Set::new(|s: Seq<usize>| s.len() == k && on_board(n, s))
}

/// Sequences of length `k + 1` whose entries lie below `n` and whose last
/// entry lies below `c`.
spec fn grid_upto(n: nat, k: nat, c: nat) -> Set<Seq<usize>> {
    Set::new(|s: Seq<usize>| s.len() == k + 1 && on_board(n, s) && s.last() < c)
}

proof fn lemma_grid_upto_finite(n: nat, k: nat, c: nat)
    requires
        c <= n,
        n <= usize::MAX,
        grid(n, k).finite(),
    ensures
        grid_upto(n, k, c).finite(),
    decreases c,
{
    if c == 0 {
        assert(grid_upto(n, k, c) =~= Set::<Seq<usize>>::empty());
    } else {
        let b = (c - 1) as nat;
        lemma_grid_upto_finite(n, k, b);
        let f = |s: Seq<usize>| s.push(b as usize);
        grid(n, k).lemma_map_finite(f);
        assert forall|s: Seq<usize>| #[trigger] grid_upto(n, k, c).contains(s) implies grid_upto(
            n,
            k,
            b,
        ).union(grid(n, k).map(f)).contains(s) by {
            if s.last() == b {
                let t = s.drop_last();
                assert(grid(n, k).contains(t));
                assert(f(t) =~= s);
            }
        }
        assert forall|s: Seq<usize>| #[trigger] grid(n, k).map(f).contains(s) implies grid_upto(
            n,
            k,
            c,
        ).contains(s) by {
            let t = choose|t: Seq<usize>| grid(n, k).contains(t) && f(t) == s;
            assert(s.last() == b);
            assert forall|i: int| 0 <= i < s.len() implies #[trigger] s[i] < n by {
                if i < k {
                    assert(s[i] == t[i]);
                }
            }
        }
        assert(grid_upto(n, k, c) =~= grid_upto(n, k, b).union(grid(n, k).map(f)));
    }
}

proof fn lemma_grid_finite(n: nat, k: nat)
    requires
        n <= usize::MAX,
    ensures
        grid(n, k).finite(),
    decreases k,
{
    if k == 0 {
        assert forall|s: Seq<usize>| #[trigger] grid(n, 0).contains(s) == set![
            Seq::<usize>::empty(),
        ].contains(s) by {
            if s.len() == 0 {
                assert(s =~= Seq::<usize>::empty());
            }
        }
        assert(grid(n, 0) =~= set![Seq::<usize>::empty()]);
    } else {
        let j = (k - 1) as nat;
        lemma_grid_finite(n, j);
        lemma_grid_upto_finite(n, j, n);
        assert(grid(n, k) =~= grid_upto(n, j, n));
    }
}

/// The solutions for board size `n` whose first-row column lies below `m`.
spec fn below(n: nat, m: nat) -> Set<Seq<usize>> {
    Set::new(|s: Seq<usize>| 0 < n && is_solution(n, s) && s[0] < m)
}

/// How many solutions the partitions of the first `m` columns hold together.
pub open spec fn partition_total(n: nat, m: nat) -> nat
    decreases m,
{
    if m == 0 {
        0
    } else {
        partition_total(n, (m - 1) as nat) + partition(n, (m - 1) as nat).len()
    }
}

proof fn lemma_below_len(n: nat, m: nat)
    requires
        m <= n <= usize::MAX,
    ensures
        below(n, m).finite(),
        below(n, m).len() == partition_total(n, m),
    decreases m,
{
    lemma_grid_finite(n, n);
    if m == 0 {
        assert(below(n, m) =~= Set::<Seq<usize>>::empty());
    } else {
        let p = (m - 1) as nat;
        lemma_below_len(n, p);
        assert(partition(n, p).subset_of(grid(n, n)));
        lemma_set_subset_finite(grid(n, n), partition(n, p));
        assert(below(n, m) =~= below(n, p) + partition(n, p));
        assert(below(n, p).disjoint(partition(n, p)));
        lemma_set_disjoint_lens(below(n, p), partition(n, p));
    }
}

/// Counting the solutions partition by partition and adding up gives the
/// count of all solutions.
pub proof fn lemma_partition_counts(n: nat)
    requires
        n <= usize::MAX,
    ensures
        solutions(n).finite(),
        solutions(n).len() == partition_total(n, n),
{
    lemma_below_len(n, n);
    assert forall|s: Seq<usize>| #[trigger] solutions(n).contains(s) implies below(n, n).contains(
        s,
    ) by {
        assert(s[0] < n);
    }
    assert(solutions(n) =~= below(n, n));
}

/// An empty board and the boards of side 2 and 3 have no solution; the board
/// of side 1 has exactly one, its queen in column 0.
pub proof fn lemma_small_boards()
    ensures
        solutions(0) == Set::<Seq<usize>>::empty(),
        solutions(1) == set![seq![0usize]],
        solutions(2) == Set::<Seq<usize>>::empty(),
        solutions(3) == Set::<Seq<usize>>::empty(),
{
    assert(solutions(0) =~= Set::<Seq<usize>>::empty());
    assert forall|s: Seq<usize>| #[trigger] solutions(1).contains(s) == set![seq![0usize]].contains(s) by {
        if is_solution(1, s) {
            assert(s[0] < 1);
            assert(s =~= seq![0usize]);
        }
    }
    assert(solutions(1) =~= set![seq![0usize]]);
    assert forall|s: Seq<usize>| !#[trigger] solutions(2).contains(s) by {
        if is_solution(2, s) {
            assert(s[0] < 2 && s[1] < 2);
            assert(!attacks(0, s[0] as int, 1, s[1] as int));
        }
    }
    assert(solutions(2) =~= Set::<Seq<usize>>::empty());
    assert forall|s: Seq<usize>| !#[trigger] solutions(3).contains(s) by {
        if is_solution(3, s) {
            assert(s[0] < 3 && s[1] < 3 && s[2] < 3);
            assert(!attacks(0, s[0] as int, 1, s[1] as int));
            assert(!attacks(1, s[1] as int, 2, s[2] as int));
            assert(!attacks(0, s[0] as int, 2, s[2] as int));
        }
    }
    assert(solutions(3) =~= Set::<Seq<usize>>::empty());
}

} // verus!
