use vstd::arithmetic::power::{lemma_pow_positive, pow};
use vstd::prelude::*;

verus! {

/// Absolute difference of two integers.
pub open spec fn distance(a: int, b: int) -> int {
    if a >= b {
        a - b
    } else {
        b - a
    }
}

/// Queens at (row `i`, column `ci`) and (row `j`, column `cj`) attack each
/// other: same column, or same diagonal.
pub open spec fn attacks(i: int, ci: int, j: int, cj: int) -> bool {
    ci == cj || distance(ci, cj) == distance(i, j)
}

/// No two queens of the placement (one per row, `s[row]` its column) attack
/// each other.
pub open spec fn peaceful(s: Seq<usize>) -> bool {
    forall|i: int, j: int|
        0 <= i < j < s.len() ==> !#[trigger] attacks(i, s[i] as int, j, s[j] as int)
}

/// Every column of the placement lies on a board of side `n`.
pub open spec fn on_board(n: nat, s: Seq<usize>) -> bool {
    forall|i: int| 0 <= i < s.len() ==> #[trigger] s[i] < n
}

/// `s` places `n` mutually non-attacking queens on an `n` by `n` board.
pub open spec fn is_solution(n: nat, s: Seq<usize>) -> bool {
    s.len() == n && on_board(n, s) && peaceful(s)
}

/// All solutions for board size `n`. The search places a first-row queen
/// before anything else, so an empty board has none.
pub open spec fn solutions(n: nat) -> Set<Seq<usize>> {
    Set::new(|s: Seq<usize>| 0 < n && is_solution(n, s))
}

/// The solutions for board size `n` whose first-row queen stands in column `pos`.
pub open spec fn partition(n: nat, pos: nat) -> Set<Seq<usize>> {
    Set::new(|s: Seq<usize>| is_solution(n, s) && s[0] == pos)
}

/// `a` and `b` have the same first `k` entries.
pub open spec fn agree(a: Seq<usize>, b: Seq<usize>, k: int) -> bool {
    forall|i: int| 0 <= i < k ==> a[i] == b[i]
}

/// The first `k` entries of `a` come strictly before those of `b` in
/// lexicographic order.
pub open spec fn precedes(a: Seq<usize>, b: Seq<usize>, k: int) -> bool
    decreases k,
{
    if k <= 0 {
        false
    } else {
        precedes(a, b, k - 1) || (agree(a, b, k - 1) && a[k - 1] < b[k - 1])
    }
}

/// A smaller first entry puts a sequence first.
pub proof fn lemma_precedes_first(a: Seq<usize>, b: Seq<usize>, k: int)
    requires
        k >= 1,
        a[0] < b[0],
    ensures
        precedes(a, b, k),
    decreases k,
{
    if k > 1 {
        lemma_precedes_first(a, b, k - 1);
    } else {
        assert(!precedes(a, b, 0));
    }
}

/// Whether `precedes` holds depends only on the first `k` entries of each side.
pub proof fn lemma_precedes_prefix(a: Seq<usize>, b: Seq<usize>, a2: Seq<usize>, b2: Seq<usize>, k: int)
    requires
        agree(a, a2, k),
        agree(b, b2, k),
    ensures
        precedes(a, b, k) == precedes(a2, b2, k),
    decreases k,
{
    if k > 0 {
        lemma_precedes_prefix(a, b, a2, b2, k - 1);
        assert(agree(a, b, k - 1) == agree(a2, b2, k - 1));
    }
}

/// Lexicographic order on the first `k` entries is total.
pub proof fn lemma_precedes_total(a: Seq<usize>, b: Seq<usize>, k: int)
    requires
        !precedes(a, b, k),
        !agree(a, b, k),
    ensures
        precedes(b, a, k),
    decreases k,
{
    if k > 0 {
        if agree(a, b, k - 1) {
            assert(a[k - 1] != b[k - 1]);
        } else {
            lemma_precedes_total(a, b, k - 1);
        }
    }
}

/// Sequences that agree on their first `k` entries do not precede each other there.
pub proof fn lemma_agree_not_precedes(a: Seq<usize>, b: Seq<usize>, k: int)
    requires
        agree(a, b, k),
    ensures
        !precedes(a, b, k),
    decreases k,
{
    if k > 0 {
        lemma_agree_not_precedes(a, b, k - 1);
    }
}

/// Position of a cursor in depth-first order: entry `i` weighs `(c[i] + 1)`
/// times `base` to the power `depth - i`.
pub open spec fn rank(c: Seq<usize>, base: int, depth: nat) -> int
    decreases c.len(),
{
    if c.len() == 0 {
        0
    } else {
        rank(c.drop_last(), base, depth) + (c.last() + 1) * pow(base, (depth - (c.len() - 1)) as nat)
    }
}

pub proof fn lemma_pow_step(b: int, e: nat)
    ensures
        pow(b, e + 1) == b * pow(b, e),
{
    reveal(pow);
    assert(pow(b, (e + 1) as nat) == b * pow(b, e));
}

/// A cursor of at most `n + 1` entries, each at most `n`, ranks below
/// `(n + 2)` to the power `n + 2`, by a margin that grows as it gets shorter.
pub proof fn lemma_rank_bound(c: Seq<usize>, n: nat)
    requires
        c.len() <= n + 1,
        forall|i: int| 0 <= i < c.len() ==> #[trigger] c[i] <= n,
    ensures
        0 <= rank(c, (n + 2) as int, n + 1),
        rank(c, (n + 2) as int, n + 1) + pow((n + 2) as int, (n + 2 - c.len()) as nat) <= pow((n + 2) as int, n + 2),
    decreases c.len(),
{
    if c.len() > 0 {
        let d = c.drop_last();
        lemma_rank_bound(d, n);
        let e = (n + 1 - (c.len() - 1)) as nat;
        let p = pow((n + 2) as int, e);
        lemma_pow_positive((n + 2) as int, e);
        lemma_pow_step((n + 2) as int, e);
        assert(e + 1 == (n + 2 - d.len()) as nat);
        let v = c.last() as int;
        assert(v <= n);
        assert((v + 1) * p + p <= (n + 2) * p) by (nonlinear_arith)
            requires
                v <= n,
                p > 0,
        ;
        assert(0 <= (v + 1) * p) by (nonlinear_arith)
            requires
                v >= 0,
                p > 0,
        ;
    }
}

/// Replacing the last entry by a larger one raises the rank.
pub proof fn lemma_rank_bump(c: Seq<usize>, v: usize, n: nat)
    requires
        1 <= c.len() <= n + 1,
        c.last() < v,
    ensures
        rank(c.update(c.len() - 1, v), (n + 2) as int, n + 1) > rank(c, (n + 2) as int, n + 1),
{
    let c2 = c.update(c.len() - 1, v);
    assert(c2.drop_last() =~= c.drop_last());
    let e = (n + 1 - (c.len() - 1)) as nat;
    let p = pow((n + 2) as int, e);
    lemma_pow_positive((n + 2) as int, e);
    assert((v + 1) * p > (c.last() + 1) * p) by (nonlinear_arith)
        requires
            v > c.last(),
            p > 0,
    ;
}

/// Appending an entry raises the rank.
pub proof fn lemma_rank_push(c: Seq<usize>, v: usize, n: nat)
    requires
        c.len() <= n,
    ensures
        rank(c.push(v), (n + 2) as int, n + 1) > rank(c, (n + 2) as int, n + 1),
{
    let c2 = c.push(v);
    assert(c2.drop_last() =~= c);
    let e = (n + 1 - c.len()) as nat;
    let p = pow((n + 2) as int, e);
    lemma_pow_positive((n + 2) as int, e);
    assert((v + 1) * p > 0) by (nonlinear_arith)
        requires
            v >= 0,
            p > 0,
    ;
}

/// Dropping the last entry (at most `n`) and raising the one before it raises
/// the rank.
pub proof fn lemma_rank_backtrack(c: Seq<usize>, n: nat)
    requires
        2 <= c.len() <= n + 1,
        c.last() <= n,
        c[c.len() - 2] < usize::MAX,
    ensures
        ({
            let d = c.drop_last();
            rank(d.update(d.len() - 1, (d.last() + 1) as usize), (n + 2) as int, n + 1) > rank(c, (n + 2) as int, n + 1)
        }),
{
    let d = c.drop_last();
    let d2 = d.update(d.len() - 1, (d.last() + 1) as usize);
    assert(d2.drop_last() =~= d.drop_last());
    let e = (n + 1 - (c.len() - 1)) as nat;
    let p = pow((n + 2) as int, e);
    lemma_pow_positive((n + 2) as int, e);
    lemma_pow_step((n + 2) as int, e);
    assert((n + 1 - (d.len() - 1)) as nat == e + 1);
    let v = c.last() as int;
    let u = d.last() as int;
    let q = pow((n + 2) as int, e + 1);
    assert(q == (n + 2) * p);
    assert(rank(c, (n + 2) as int, n + 1) == rank(d, (n + 2) as int, n + 1) + (v + 1) * p);
    assert(rank(d, (n + 2) as int, n + 1) == rank(d.drop_last(), (n + 2) as int, n + 1) + (u + 1) * q);
    assert(rank(d2, (n + 2) as int, n + 1) == rank(d.drop_last(), (n + 2) as int, n + 1) + (u + 2) * q);
    assert((u + 2) * ((n + 2) * p) > (u + 1) * ((n + 2) * p) + (v + 1) * p) by (nonlinear_arith)
        requires
            v <= n,
            p > 0,
            u >= 0,
    ;
}

} // verus!
