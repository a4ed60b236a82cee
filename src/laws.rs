use vstd::prelude::*;
use crate::model::{is_equivalence, is_rep, members, is_grouping, increasing, lemma_has_rep, lemma_reps_equal};
use crate::multi::{row_eq, rows_equal, Column};
use crate::model::{gathers, from_some_part, in_result, same_group, part_first, part_all, distinct};

verus! {

/// Every entry of `members(eq, n, f)` is a row below `n` equivalent to `f`,
/// the entries ascend, and every such row is an entry.
pub proof fn lemma_members(eq: spec_fn(int, int) -> bool, n: int, f: int)
    requires
        0 <= n <= u32::MAX + 1,
    ensures
        forall|p: int| 0 <= p < members(eq, n, f).len()
            ==> 0 <= #[trigger] members(eq, n, f)[p] < n && eq(members(eq, n, f)[p] as int, f),
        forall|p: int, q: int| 0 <= p < q < members(eq, n, f).len() ==> members(eq, n, f)[p] < members(eq, n, f)[q],
        forall|x: int| 0 <= x < n && #[trigger] eq(x, f) ==> exists|p: int|
            0 <= p < members(eq, n, f).len() && members(eq, n, f)[p] == x,
    decreases n,
{
    if n > 0 {
        lemma_members(eq, n - 1, f);
        let m = members(eq, n - 1, f);
        if eq(n - 1, f) {
            assert(members(eq, n, f) == m.push((n - 1) as u32));
            assert forall|x: int| 0 <= x < n && #[trigger] eq(x, f) implies exists|p: int|
                0 <= p < members(eq, n, f).len() && members(eq, n, f)[p] == x by {
                if x < n - 1 {
                    let p = choose|p: int| 0 <= p < m.len() && m[p] == x;
                    assert(members(eq, n, f)[p] == x);
                } else {
                    assert(members(eq, n, f)[m.len() as int] == x);
                }
            }
        } else {
            assert(members(eq, n, f) == m);
            assert forall|x: int| 0 <= x < n && #[trigger] eq(x, f) implies exists|p: int|
                0 <= p < members(eq, n, f).len() && members(eq, n, f)[p] == x by {
                assert(x != n - 1);
                let p = choose|p: int| 0 <= p < m.len() && m[p] == x;
                assert(members(eq, n, f)[p] == x);
            }
        }
    }
}

/// In a grouping, group `g` holds exactly the rows equivalent to its
/// representative, ascending and without repeats.
proof fn lemma_group_rows(eq: spec_fn(int, int) -> bool, n: int, first: Seq<u32>, all: Seq<Seq<u32>>, g: int)
    requires
        0 <= n <= u32::MAX + 1,
        is_grouping(eq, n, first, all),
        0 <= g < first.len(),
    ensures
        is_rep(eq, n, first[g] as int),
        all[g] == members(eq, n, first[g] as int),
{
    assert(first[g] == first[g]);
}

/// Row `i` is a member of some group.
pub open spec fn appears(all: Seq<Seq<u32>>, i: int) -> bool {
    exists|g: int, p: int| 0 <= g < all.len() && 0 <= p < all[g].len() && #[trigger] all[g][p] == i
}

/// Partition: every row `0..n` appears exactly once across all groups, and
/// nothing else appears.
pub proof fn lemma_grouping_partitions_rows(eq: spec_fn(int, int) -> bool, n: int, first: Seq<u32>, all: Seq<Seq<u32>>)
    requires
        0 <= n <= u32::MAX + 1,
        is_equivalence(eq, n),
        is_grouping(eq, n, first, all),
    ensures
        forall|g: int, p: int| 0 <= g < all.len() && 0 <= p < all[g].len() ==> #[trigger] all[g][p] < n,
        forall|i: int| 0 <= i < n ==> #[trigger] appears(all, i),
        forall|g1: int, p1: int, g2: int, p2: int|
            0 <= g1 < all.len() && 0 <= p1 < all[g1].len() && 0 <= g2 < all.len() && 0 <= p2 < all[g2].len()
            && #[trigger] all[g1][p1] == #[trigger] all[g2][p2] ==> g1 == g2 && p1 == p2,
{
    assert forall|g: int, p: int| 0 <= g < all.len() && 0 <= p < all[g].len() implies #[trigger] all[g][p] < n by {
        lemma_group_rows(eq, n, first, all, g);
        lemma_members(eq, n, first[g] as int);
    }
    assert forall|i: int| 0 <= i < n implies #[trigger] appears(all, i) by {
        lemma_has_rep(eq, n, i);
        let f = choose|f: int| #[trigger] is_rep(eq, n, f) && f <= i && eq(f, i);
        let g = choose|g: int| 0 <= g < first.len() && first[g] == f;
        lemma_group_rows(eq, n, first, all, g);
        lemma_members(eq, n, f);
        assert(eq(i, f));
        let p = choose|p: int| 0 <= p < members(eq, n, f).len() && members(eq, n, f)[p] == i;
        assert(all[g][p] == i);
    }
    assert forall|g1: int, p1: int, g2: int, p2: int|
        0 <= g1 < all.len() && 0 <= p1 < all[g1].len() && 0 <= g2 < all.len() && 0 <= p2 < all[g2].len()
        && #[trigger] all[g1][p1] == #[trigger] all[g2][p2] implies g1 == g2 && p1 == p2 by {
        lemma_group_rows(eq, n, first, all, g1);
        lemma_group_rows(eq, n, first, all, g2);
        lemma_members(eq, n, first[g1] as int);
        lemma_members(eq, n, first[g2] as int);
        let x = all[g1][p1] as int;
        assert(eq(x, first[g1] as int));
        assert(eq(x, first[g2] as int));
        assert(eq(first[g1] as int, x));
        assert(eq(first[g1] as int, first[g2] as int));
        lemma_reps_equal(eq, n, first[g1] as int, first[g2] as int);
        if p1 < p2 {
            assert(all[g1][p1] < all[g1][p2]);
        } else if p2 < p1 {
            assert(all[g1][p2] < all[g1][p1]);
        }
    }
}

/// Group `g` is non-empty, its first member is its representative, which is
/// its smallest member, and no earlier row is equivalent to it.
pub open spec fn heads_group(eq: spec_fn(int, int) -> bool, first: Seq<u32>, all: Seq<Seq<u32>>, g: int) -> bool {
    &&& all[g].len() > 0
    &&& all[g][0] == first[g]
    &&& forall|p: int| 0 <= p < all[g].len() ==> first[g] <= #[trigger] all[g][p]
    &&& forall|j: int| 0 <= j < first[g] ==> !#[trigger] eq(j, first[g] as int)
}

/// Representative: each group is non-empty, its first member is its
/// representative, which is its smallest member, and no earlier row is
/// equivalent to it.
pub proof fn lemma_grouping_representatives(eq: spec_fn(int, int) -> bool, n: int, first: Seq<u32>, all: Seq<Seq<u32>>)
    requires
        0 <= n <= u32::MAX + 1,
        is_equivalence(eq, n),
        is_grouping(eq, n, first, all),
    ensures
        forall|g: int| 0 <= g < first.len() ==> #[trigger] heads_group(eq, first, all, g),
{
    assert forall|g: int| 0 <= g < first.len() implies #[trigger] heads_group(eq, first, all, g) by {
        let f = first[g] as int;
        lemma_group_rows(eq, n, first, all, g);
        lemma_members(eq, n, f);
        assert(eq(f, f));
        let p0 = choose|p: int| 0 <= p < members(eq, n, f).len() && members(eq, n, f)[p] == f;
        assert forall|p: int| 0 <= p < all[g].len() implies first[g] <= all[g][p] by {
            let x = all[g][p] as int;
            assert(eq(x, f));
            if x < f {
                assert(!eq(x, f));
            }
        }
        if p0 > 0 {
            assert(all[g][0] < all[g][p0]);
        }
    }
}

/// Rows `i` and `j` share a group.
pub open spec fn same_group_rows(all: Seq<Seq<u32>>, i: int, j: int) -> bool {
    exists|g: int, p: int, q: int|
        0 <= g < all.len() && 0 <= p < all[g].len() && 0 <= q < all[g].len() && all[g][p] == i && all[g][q] == j
}

/// Two rows share a group exactly when they are equivalent.
pub proof fn lemma_grouping_same_group_iff(eq: spec_fn(int, int) -> bool, n: int, first: Seq<u32>, all: Seq<Seq<u32>>, i: int, j: int)
    requires
        0 <= n <= u32::MAX + 1,
        is_equivalence(eq, n),
        is_grouping(eq, n, first, all),
        0 <= i < n,
        0 <= j < n,
    ensures
        same_group_rows(all, i, j) <==> eq(i, j),
{
    if same_group_rows(all, i, j) {
        let (g, p, q) = choose|g: int, p: int, q: int|
            0 <= g < all.len() && 0 <= p < all[g].len() && 0 <= q < all[g].len() && all[g][p] == i && all[g][q] == j;
        lemma_group_rows(eq, n, first, all, g);
        lemma_members(eq, n, first[g] as int);
        assert(eq(i, first[g] as int));
        assert(eq(j, first[g] as int));
        assert(eq(first[g] as int, j));
    }
    if eq(i, j) {
        lemma_grouping_partitions_rows(eq, n, first, all);
        assert(appears(all, i));
        let (g, p) = choose|g: int, p: int| 0 <= g < all.len() && 0 <= p < all[g].len() && #[trigger] all[g][p] == i;
        lemma_group_rows(eq, n, first, all, g);
        let f = first[g] as int;
        lemma_members(eq, n, f);
        assert(eq(i, f));
        assert(eq(j, i));
        assert(eq(j, f));
        let q = choose|q: int| 0 <= q < members(eq, n, f).len() && members(eq, n, f)[q] == j;
        assert(all[g][q] == j);
    }
}

/// Composite keys: two rows share a group exactly when they agree on every key column.
pub proof fn lemma_multi_key_same_group_iff(cols: Seq<Column>, n: int, first: Seq<u32>, all: Seq<Seq<u32>>, i: int, j: int)
    requires
        0 <= n <= u32::MAX + 1,
        is_grouping(row_eq(cols), n, first, all),
        0 <= i < n,
        0 <= j < n,
    ensures
        same_group_rows(all, i, j) <==> rows_equal(cols, i, j),
{
    crate::multi::lemma_row_eq_equivalence(cols, n);
    lemma_grouping_same_group_iff(row_eq(cols), n, first, all, i, j);
}

/// Some group of `(first, all)` has representative `f` and members `m`.
pub open spec fn has_group(first: Seq<u32>, all: Seq<Seq<u32>>, f: u32, m: Seq<u32>) -> bool {
    exists|g: int| 0 <= g < first.len() && first[g] == f && all[g] == m
}

/// Any two groupings of the same rows hold the same groups: each group of
/// one is a group of the other, with the same representative and members.
pub proof fn lemma_groupings_same_groups(
    eq: spec_fn(int, int) -> bool,
    n: int,
    first1: Seq<u32>,
    all1: Seq<Seq<u32>>,
    first2: Seq<u32>,
    all2: Seq<Seq<u32>>,
)
    requires
        is_grouping(eq, n, first1, all1),
        is_grouping(eq, n, first2, all2),
    ensures
        forall|g1: int| 0 <= g1 < first1.len() ==> #[trigger] has_group(first2, all2, first1[g1], all1[g1]),
        first1.len() == first2.len(),
{
    assert forall|g1: int| 0 <= g1 < first1.len() implies #[trigger] has_group(first2, all2, first1[g1], all1[g1]) by {
        let f = first1[g1] as int;
        assert(is_rep(eq, n, f));
        let g2 = choose|g2: int| 0 <= g2 < first2.len() && first2[g2] == f;
        assert(first2[g2] == first2[g2]);
    }
    lemma_distinct_cover_len(eq, n, first1, all1, first2, all2);
    lemma_distinct_cover_len(eq, n, first2, all2, first1, all1);
}

/// A grouping has no more groups than another grouping of the same rows.
proof fn lemma_distinct_cover_len(
    eq: spec_fn(int, int) -> bool,
    n: int,
    first1: Seq<u32>,
    all1: Seq<Seq<u32>>,
    first2: Seq<u32>,
    all2: Seq<Seq<u32>>,
)
    requires
        is_grouping(eq, n, first1, all1),
        is_grouping(eq, n, first2, all2),
    ensures
        first1.len() <= first2.len(),
{
    let s1 = first1.to_set();
    let s2 = first2.to_set();
    assert(s1.subset_of(s2)) by {
        assert forall|x: u32| s1.contains(x) implies s2.contains(x) by {
            let g1 = choose|g1: int| 0 <= g1 < first1.len() && first1[g1] == x;
            assert(first1[g1] == first1[g1]);
            assert(is_rep(eq, n, x as int));
            let g2 = choose|g2: int| 0 <= g2 < first2.len() && first2[g2] == x as int;
            assert(first2.contains(x));
        }
    }
    first1.unique_seq_to_set();
    first2.unique_seq_to_set();
    vstd::set_lib::lemma_len_subset(s1, s2);
}

/// Two ascending sequences that hold the same values agree up to `k`.
proof fn lemma_ascending_prefix(a: Seq<u32>, b: Seq<u32>, k: int)
    requires
        increasing(a),
        increasing(b),
        a.len() == b.len(),
        0 <= k <= a.len(),
        forall|i: int| 0 <= i < a.len() ==> b.contains(#[trigger] a[i]),
        forall|j: int| 0 <= j < b.len() ==> a.contains(#[trigger] b[j]),
    ensures
        forall|i: int| 0 <= i < k ==> #[trigger] a[i] == b[i],
    decreases k,
{
    if k > 0 {
        let c = k - 1;
        lemma_ascending_prefix(a, b, c);
        assert(b.contains(a[c]));
        let m = choose|m: int| 0 <= m < b.len() && b[m] == a[c];
        if m < c {
            assert(a[m] == b[m]);
            assert(a[m] < a[c]);
        } else if m > c {
            assert(b[c] < b[m]);
            assert(a.contains(b[c]));
            let m2 = choose|m2: int| 0 <= m2 < a.len() && a[m2] == b[c];
            if m2 < c {
                assert(a[m2] == b[m2]);
                assert(b[m2] < b[c]);
            } else if m2 > c {
                assert(a[c] < a[m2]);
            }
        }
    }
}

/// Two ascending sequences that hold the same values are equal.
proof fn lemma_ascending_unique(a: Seq<u32>, b: Seq<u32>)
    requires
        increasing(a),
        increasing(b),
        forall|i: int| 0 <= i < a.len() ==> b.contains(#[trigger] a[i]),
        forall|j: int| 0 <= j < b.len() ==> a.contains(#[trigger] b[j]),
    ensures
        a == b,
{
    assert(distinct(a)) by {
        assert forall|x: int, y: int| 0 <= x < a.len() && 0 <= y < a.len() && x != y implies a[x] != a[y] by {
            if x < y { assert(a[x] < a[y]); } else { assert(a[y] < a[x]); }
        }
    }
    assert(distinct(b)) by {
        assert forall|x: int, y: int| 0 <= x < b.len() && 0 <= y < b.len() && x != y implies b[x] != b[y] by {
            if x < y { assert(b[x] < b[y]); } else { assert(b[y] < b[x]); }
        }
    }
    a.unique_seq_to_set();
    b.unique_seq_to_set();
    assert(a.to_set() =~= b.to_set()) by {
        assert forall|x: u32| a.to_set().contains(x) implies b.to_set().contains(x) by {
            let i = choose|i: int| 0 <= i < a.len() && a[i] == x;
            assert(b.contains(a[i]));
        }
        assert forall|x: u32| b.to_set().contains(x) implies a.to_set().contains(x) by {
            let j = choose|j: int| 0 <= j < b.len() && b[j] == x;
            assert(a.contains(b[j]));
        }
    }
    lemma_ascending_prefix(a, b, a.len() as int);
    assert(a =~= b);
}

/// Threading invariance in sorted mode: two groupings of the same rows, both
/// in ascending order of representative, are identical.
pub proof fn lemma_sorted_groupings_equal(
    eq: spec_fn(int, int) -> bool,
    n: int,
    first1: Seq<u32>,
    all1: Seq<Seq<u32>>,
    first2: Seq<u32>,
    all2: Seq<Seq<u32>>,
)
    requires
        is_grouping(eq, n, first1, all1),
        is_grouping(eq, n, first2, all2),
        increasing(first1),
        increasing(first2),
    ensures
        first1 == first2,
        all1 == all2,
{
    assert forall|i: int| 0 <= i < first1.len() implies first2.contains(#[trigger] first1[i]) by {
        assert(is_rep(eq, n, first1[i] as int));
        let g = choose|g: int| 0 <= g < first2.len() && first2[g] == first1[i] as int;
        assert(first2[g] == first1[i]);
    }
    assert forall|j: int| 0 <= j < first2.len() implies first1.contains(#[trigger] first2[j]) by {
        assert(is_rep(eq, n, first2[j] as int));
        let g = choose|g: int| 0 <= g < first1.len() && first1[g] == first2[j] as int;
        assert(first1[g] == first2[j]);
    }
    lemma_ascending_unique(first1, first2);
    assert forall|g: int| 0 <= g < all1.len() implies all1[g] == all2[g] by {
        assert(first1[g] == first1[g]);
        assert(all1[g] == members(eq, n, first1[g] as int));
        assert(first2[g] == first2[g]);
        assert(all2[g] == members(eq, n, first2[g] as int));
    }
    assert(all1 =~= all2);
}

/// Sorting an already sorted grouping again changes nothing: when the
/// finisher's sole worker result is ascending, its sorted output equals it.
pub proof fn lemma_resort_identity(v: Seq<(Vec<u32>, Vec<Vec<u32>>)>, first: Seq<u32>, all: Seq<Seq<u32>>)
    requires
        v.len() == 1,
        part_first(v, 0).len() == part_all(v, 0).len(),
        increasing(part_first(v, 0)),
        gathers(v, first, all),
        increasing(first),
    ensures
        first == part_first(v, 0),
        all == part_all(v, 0),
{
    let a = part_first(v, 0);
    assert forall|i: int| 0 <= i < a.len() implies first.contains(#[trigger] a[i]) by {
        assert(in_result(v, first, all, 0, i));
        let g = choose|g: int| #[trigger] same_group(v, 0, i, first, all, g);
        assert(first[g] == a[i]);
    }
    assert forall|j: int| 0 <= j < first.len() implies a.contains(#[trigger] first[j]) by {
        assert(from_some_part(v, first, all, j));
        let (t, p) = choose|t: int, p: int| #[trigger] same_group(v, t, p, first, all, j);
        assert(a[p] == first[j]);
    }
    lemma_ascending_unique(first, a);
    assert forall|g: int| 0 <= g < all.len() implies all[g] == part_all(v, 0)[g] by {
        assert(from_some_part(v, first, all, g));
        let (t, p) = choose|t: int, p: int| #[trigger] same_group(v, t, p, first, all, g);
        assert(a[p] == first[g]);
        if p != g {
            assert(distinct(a)) by {
                assert forall|x: int, y: int| 0 <= x < a.len() && 0 <= y < a.len() && x != y implies a[x] != a[y] by {
                    if x < y { assert(a[x] < a[y]); } else { assert(a[y] < a[x]); }
                }
            }
        }
    }
    assert(all =~= part_all(v, 0));
}

} // verus!
