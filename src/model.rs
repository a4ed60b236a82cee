use vstd::prelude::*;
use crate::partition::{owns, owner, is_pow2, lemma_owner_in_range};

verus! {

/// `eq` is an equivalence relation on the rows `0..n`.
pub open spec fn is_equivalence(eq: spec_fn(int, int) -> bool, n: int) -> bool {
    &&& forall|i: int| 0 <= i < n ==> #[trigger] eq(i, i)
    &&& forall|i: int, j: int| 0 <= i < n && 0 <= j < n ==> #[trigger] eq(i, j) == eq(j, i)
    &&& forall|i: int, j: int, k: int|
        0 <= i < n && 0 <= j < n && 0 <= k < n && #[trigger] eq(i, j) && #[trigger] eq(j, k) ==> eq(i, k)
}

/// Rows that `eq` relates always have the same hash.
pub open spec fn hash_respects(eq: spec_fn(int, int) -> bool, h: spec_fn(int) -> u64, n: int) -> bool {
    forall|i: int, j: int| 0 <= i < n && 0 <= j < n && #[trigger] eq(i, j) ==> h(i) == h(j)
}

/// Row `f` is the representative of its group: no earlier row is equivalent to it.
pub open spec fn is_rep(eq: spec_fn(int, int) -> bool, n: int, f: int) -> bool {
    0 <= f < n && forall|j: int| 0 <= j < f ==> !#[trigger] eq(j, f)
}

/// The rows among `0..n` equivalent to row `f`, in ascending order.
pub open spec fn members(eq: spec_fn(int, int) -> bool, n: int, f: int) -> Seq<u32>
    decreases n,
{
    if n <= 0 {
        Seq::empty()
    } else if eq(n - 1, f) {
        members(eq, n - 1, f).push((n - 1) as u32)
    } else {
        members(eq, n - 1, f)
    }
}

/// Each listed group is headed by a representative row and lists exactly its members.
pub open spec fn groups_sound(eq: spec_fn(int, int) -> bool, n: int, first: Seq<u32>, all: Seq<Seq<u32>>) -> bool {
    &&& first.len() == all.len()
    &&& forall|g: int| #![trigger first[g]] 0 <= g < first.len() ==> {
        &&& is_rep(eq, n, first[g] as int)
        &&& all[g] == members(eq, n, first[g] as int)
    }
}

/// Every representative row heads some listed group.
pub open spec fn groups_complete(eq: spec_fn(int, int) -> bool, n: int, first: Seq<u32>) -> bool {
    forall|f: int| #[trigger] is_rep(eq, n, f) ==> exists|g: int| 0 <= g < first.len() && first[g] == f
}

/// No two groups share a representative.
pub open spec fn distinct(first: Seq<u32>) -> bool {
    forall|a: int, b: int| 0 <= a < first.len() && 0 <= b < first.len() && a != b ==> first[a] != first[b]
}

/// Representatives are strictly increasing.
pub open spec fn increasing(first: Seq<u32>) -> bool {
    forall|a: int, b: int| 0 <= a < b < first.len() ==> first[a] < first[b]
}

/// `(first, all)` is a grouping of the rows `0..n` under `eq`, in some order.
pub open spec fn is_grouping(eq: spec_fn(int, int) -> bool, n: int, first: Seq<u32>, all: Seq<Seq<u32>>) -> bool {
    &&& groups_sound(eq, n, first, all)
    &&& groups_complete(eq, n, first)
    &&& distinct(first)
}

/// `(first, all)` lists, in ascending order of representative, exactly the groups
/// of rows `0..n` under `eq` whose representative's hash `h` falls to worker `t` of `np`.
pub open spec fn is_part(
    eq: spec_fn(int, int) -> bool,
    h: spec_fn(int) -> u64,
    np: u64,
    t: u64,
    n: int,
    first: Seq<u32>,
    all: Seq<Seq<u32>>,
) -> bool {
    &&& groups_sound(eq, n, first, all)
    &&& forall|g: int| 0 <= g < first.len() ==> owns(h(first[g] as int), t, np) && #[trigger] first[g] < n
    &&& forall|f: int| #[trigger] is_rep(eq, n, f) && owns(h(f), t, np)
        ==> exists|g: int| 0 <= g < first.len() && first[g] == f
    &&& increasing(first)
}

/// The representatives of worker `t` in a list of worker results.
pub open spec fn part_first(v: Seq<(Vec<u32>, Vec<Vec<u32>>)>, t: int) -> Seq<u32> {
    v[t].0@
}

/// The member lists of worker `t` in a list of worker results.
pub open spec fn part_all(v: Seq<(Vec<u32>, Vec<Vec<u32>>)>, t: int) -> Seq<Seq<u32>> {
    v[t].1.deep_view()
}

/// Each worker holds as many representatives as member lists.
pub open spec fn parts_wf(v: Seq<(Vec<u32>, Vec<Vec<u32>>)>) -> bool {
    forall|t: int| 0 <= t < v.len() ==> (#[trigger] part_first(v, t)).len() == part_all(v, t).len()
}

/// No representative occurs twice across all workers.
pub open spec fn parts_distinct(v: Seq<(Vec<u32>, Vec<Vec<u32>>)>) -> bool {
    forall|t1: int, p1: int, t2: int, p2: int|
        0 <= t1 < v.len() && 0 <= t2 < v.len() && 0 <= p1 < part_first(v, t1).len()
            && 0 <= p2 < part_first(v, t2).len() && (t1 != t2 || p1 != p2)
            ==> #[trigger] part_first(v, t1)[p1] != #[trigger] part_first(v, t2)[p2]
}

/// Within each worker, representatives are strictly increasing.
pub open spec fn parts_increasing(v: Seq<(Vec<u32>, Vec<Vec<u32>>)>) -> bool {
    forall|t: int| 0 <= t < v.len() ==> increasing(#[trigger] part_first(v, t))
}

/// Group `g` of `(first, all)` is group `p` of worker `t`.
pub open spec fn same_group(
    v: Seq<(Vec<u32>, Vec<Vec<u32>>)>,
    t: int,
    p: int,
    first: Seq<u32>,
    all: Seq<Seq<u32>>,
    g: int,
) -> bool {
    &&& 0 <= t < v.len()
    &&& 0 <= p < part_first(v, t).len()
    &&& 0 <= g < first.len()
    &&& first[g] == part_first(v, t)[p]
    &&& all[g] == part_all(v, t)[p]
}

/// Group `g` of `(first, all)` is some group of some worker.
pub open spec fn from_some_part(v: Seq<(Vec<u32>, Vec<Vec<u32>>)>, first: Seq<u32>, all: Seq<Seq<u32>>, g: int) -> bool {
    exists|t: int, p: int| #[trigger] same_group(v, t, p, first, all, g)
}

/// Group `p` of worker `t` is some group of `(first, all)`.
pub open spec fn in_result(v: Seq<(Vec<u32>, Vec<Vec<u32>>)>, first: Seq<u32>, all: Seq<Seq<u32>>, t: int, p: int) -> bool {
    exists|g: int| #[trigger] same_group(v, t, p, first, all, g)
}

/// `(first, all)` holds exactly the groups of the workers' results, each once.
pub open spec fn gathers(v: Seq<(Vec<u32>, Vec<Vec<u32>>)>, first: Seq<u32>, all: Seq<Seq<u32>>) -> bool {
    &&& first.len() == all.len()
    &&& forall|g: int| 0 <= g < first.len() ==> #[trigger] from_some_part(v, first, all, g)
    &&& forall|t: int, p: int| 0 <= t < v.len() && 0 <= p < part_first(v, t).len()
        ==> #[trigger] in_result(v, first, all, t, p)
    &&& distinct(first)
}

/// The workers' results of a partitioned grouping: worker `t` holds the groups that fall to it.
pub open spec fn parts_of(
    eq: spec_fn(int, int) -> bool,
    h: spec_fn(int) -> u64,
    np: u64,
    n: int,
    v: Seq<(Vec<u32>, Vec<Vec<u32>>)>,
) -> bool {
    &&& v.len() == np
    &&& forall|t: int| 0 <= t < v.len() ==> is_part(eq, h, np, t as u64, n, #[trigger] part_first(v, t), part_all(v, t))
}

/// Results of distinct workers never share a representative, and each is ascending.
pub proof fn lemma_parts_disjoint(
    eq: spec_fn(int, int) -> bool,
    h: spec_fn(int) -> u64,
    np: u64,
    n: int,
    v: Seq<(Vec<u32>, Vec<Vec<u32>>)>,
)
    requires
        parts_of(eq, h, np, n, v),
    ensures
        parts_wf(v),
        parts_distinct(v),
        parts_increasing(v),
{
    assert forall|t: int| 0 <= t < v.len() implies (#[trigger] part_first(v, t)).len() == part_all(v, t).len() by {
        assert(is_part(eq, h, np, t as u64, n, part_first(v, t), part_all(v, t)));
    }
    assert forall|t1: int, p1: int, t2: int, p2: int|
        0 <= t1 < v.len() && 0 <= t2 < v.len() && 0 <= p1 < part_first(v, t1).len()
            && 0 <= p2 < part_first(v, t2).len() && (t1 != t2 || p1 != p2)
        implies #[trigger] part_first(v, t1)[p1] != #[trigger] part_first(v, t2)[p2] by {
        assert(is_part(eq, h, np, t1 as u64, n, part_first(v, t1), part_all(v, t1)));
        assert(is_part(eq, h, np, t2 as u64, n, part_first(v, t2), part_all(v, t2)));
        let f1 = part_first(v, t1)[p1];
        let f2 = part_first(v, t2)[p2];
        assert(f1 < n);
        if f1 == f2 {
            assert(owns(h(f1 as int), t1 as u64, np));
            assert(owns(h(f2 as int), t2 as u64, np));
            assert(t1 == t2);
            if p1 < p2 {
                assert(f1 < f2);
            } else {
                assert(f2 < f1);
            }
        }
    }
    assert forall|t: int| 0 <= t < v.len() implies increasing(#[trigger] part_first(v, t)) by {
        assert(is_part(eq, h, np, t as u64, n, part_first(v, t), part_all(v, t)));
    }
}

/// Gathering the results of all workers of a partitioned grouping yields a grouping.
pub proof fn lemma_gather_is_grouping(
    eq: spec_fn(int, int) -> bool,
    h: spec_fn(int) -> u64,
    np: u64,
    n: int,
    v: Seq<(Vec<u32>, Vec<Vec<u32>>)>,
    first: Seq<u32>,
    all: Seq<Seq<u32>>,
)
    requires
        is_pow2(np),
        parts_of(eq, h, np, n, v),
        gathers(v, first, all),
    ensures
        is_grouping(eq, n, first, all),
{
    assert forall|g: int| #![trigger first[g]] 0 <= g < first.len() implies {
        &&& is_rep(eq, n, first[g] as int)
        &&& all[g] == members(eq, n, first[g] as int)
    } by {
        assert(from_some_part(v, first, all, g));
        let (t, p) = choose|t: int, p: int| #[trigger] same_group(v, t, p, first, all, g);
        assert(0 <= t < v.len());
        assert(is_part(eq, h, np, t as u64, n, part_first(v, t), part_all(v, t)));
        assert(part_first(v, t)[p] == first[g]);
    }
    assert forall|f: int| #[trigger] is_rep(eq, n, f) implies exists|g: int| 0 <= g < first.len() && first[g] == f by {
        let t = owner(h(f), np);
        lemma_owner_in_range(h(f), np);
        assert(is_part(eq, h, np, t, n, part_first(v, t as int), part_all(v, t as int)));
        let p = choose|p: int| 0 <= p < part_first(v, t as int).len() && part_first(v, t as int)[p] == f;
        assert(in_result(v, first, all, t as int, p));
        let g = choose|g: int| #[trigger] same_group(v, t as int, p, first, all, g);
        assert(first[g] == f);
    }
}

/// Every row has a representative: an equivalent row at or before it with no
/// equivalent row before it.
pub proof fn lemma_has_rep(eq: spec_fn(int, int) -> bool, n: int, j: int)
    requires
        is_equivalence(eq, n),
        0 <= j < n,
    ensures
        exists|f: int| #[trigger] is_rep(eq, n, f) && f <= j && eq(f, j),
    decreases j,
{
    if forall|q: int| 0 <= q < j ==> !#[trigger] eq(q, j) {
        assert(eq(j, j));
        assert(is_rep(eq, n, j));
    } else {
        let q = choose|q: int| 0 <= q < j && #[trigger] eq(q, j);
        lemma_has_rep(eq, n, q);
        let f = choose|f: int| #[trigger] is_rep(eq, n, f) && f <= q && eq(f, q);
        assert(eq(f, j));
    }
}

/// Two equivalent representatives are the same row.
pub proof fn lemma_reps_equal(eq: spec_fn(int, int) -> bool, n: int, f1: int, f2: int)
    requires
        is_equivalence(eq, n),
        is_rep(eq, n, f1),
        is_rep(eq, n, f2),
        eq(f1, f2),
    ensures
        f1 == f2,
{
    assert(eq(f2, f1));
}

/// A representative has no members among the rows before it.
pub proof fn lemma_members_none(eq: spec_fn(int, int) -> bool, n: int, f: int)
    requires
        n <= f,
        forall|j: int| 0 <= j < f ==> !#[trigger] eq(j, f),
    ensures
        members(eq, n, f) == Seq::<u32>::empty(),
    decreases n,
{
    if n > 0 {
        lemma_members_none(eq, n - 1, f);
    }
}

} // verus!
