use vstd::prelude::*;
use crate::groups::{GroupsIdx, IdxSize, finish_group_order_vecs};
use crate::model::{lemma_members_none, is_part, is_rep, members, groups_sound, is_grouping, increasing, parts_of, lemma_parts_disjoint, lemma_gather_is_grouping};
use crate::partition::{is_pow2, owns, this_partition};
use crate::table::{KeyTable, key_table_map};
use crate::model::distinct;
use rayon::iter::{IntoParallelIterator, ParallelIterator};

verus! {

/// Initial capacity of each hash table.
pub const HASHMAP_INIT_SIZE: usize = 512;

/// Two rows are equivalent when their keys are equal.
pub open spec fn key_eq(k: Seq<u64>) -> spec_fn(int, int) -> bool {
    |i: int, j: int| k[i] == k[j]
}

/// A numeric key is its own partitioning hash.
pub open spec fn key_hash(k: Seq<u64>) -> spec_fn(int) -> u64 {
    |i: int| k[i]
}

/// Groups the rows of `keys` whose key falls to worker `thread_no` of
/// `n_partitions`, scanning all rows and skipping those of other workers.
pub fn group_partition(keys: &[u64], thread_no: u64, n_partitions: u64) -> (r: (Vec<IdxSize>, Vec<Vec<IdxSize>>))
    requires
        is_pow2(n_partitions),
        keys@.len() <= u32::MAX,
    ensures
        is_part(key_eq(keys@), key_hash(keys@), n_partitions, thread_no, keys@.len() as int, r.0@, r.1.deep_view()),
{
    let ghost k = keys@;
    let ghost eq = key_eq(k);
    let ghost h = key_hash(k);
    let np = n_partitions;
    let t = thread_no;
    let mut tbl = KeyTable::with_capacity(HASHMAP_INIT_SIZE);
    let mut first: Vec<u32> = Vec::new();
    let mut all: Vec<Vec<u32>> = Vec::new();
    let mut i: usize = 0;
    while i < keys.len()
        invariant
            k == keys@,
            eq == key_eq(k),
            h == key_hash(k),
            np == n_partitions,
            t == thread_no,
            is_pow2(np),
            k.len() <= u32::MAX,
            i <= k.len(),
            first@.len() <= i,
            is_part(eq, h, np, t, i as int, first@, all.deep_view()),
            forall|key: u64| #[trigger] key_table_map(tbl).contains_key(key) ==> {
                let g = key_table_map(tbl)[key] as int;
                0 <= g < first@.len() && k[first@[g] as int] == key
            },
            forall|g: int| 0 <= g < first@.len() ==> {
                &&& key_table_map(tbl).contains_key(#[trigger] k[first@[g] as int])
                &&& key_table_map(tbl)[k[first@[g] as int]] == g
            },
            forall|j: int| 0 <= j < i && owns(k[j], t, np) ==> key_table_map(tbl).contains_key(#[trigger] k[j]),
        decreases k.len() - i,
    {
        let key = keys[i];
        let ghost old_first = first@;
        let ghost old_all = all.deep_view();
        let ghost old_map = key_table_map(tbl);
        let ghost ii = i as int;
        if this_partition(key, t, np) {
            match tbl.get(key) {
                None => {
                    let offset = first.len();
                    proof {
                        assert forall|j: int| 0 <= j < ii implies !#[trigger] eq(j, ii) by {
                            if k[j] == key {
                                assert(owns(k[j], t, np));
                                assert(old_map.contains_key(k[j]));
                            }
                        }
                        assert(is_rep(eq, ii + 1, ii));
                    }
                    let single = vec![i as u32];
                    assert(single.deep_view() =~= seq![i as u32]);
                    first.push(i as u32);
                    all.push(single);
                    tbl.insert(key, offset as u32);
                    proof {
                        let nf = first@;
                        let na = all.deep_view();
                        assert(na =~= old_all.push(seq![i as u32]));
                        assert(members(eq, ii, ii) =~= Seq::<u32>::empty()) by {
                            lemma_members_none(eq, ii, ii);
                        }
                        assert(members(eq, ii + 1, ii) =~= seq![i as u32]);
                        assert forall|g: int| #![trigger nf[g]] 0 <= g < nf.len() implies {
                            &&& is_rep(eq, ii + 1, nf[g] as int)
                            &&& na[g] == members(eq, ii + 1, nf[g] as int)
                        } by {
                            if g < old_first.len() {
                                assert(old_map.contains_key(k[old_first[g] as int]));
                                assert(k[old_first[g] as int] != key);
                                assert(is_rep(eq, ii, old_first[g] as int));
                            }
                        }
                        assert(groups_sound(eq, ii + 1, nf, na));
                        assert forall|f: int| #[trigger] is_rep(eq, ii + 1, f) && owns(h(f), t, np)
                            implies exists|g: int| 0 <= g < nf.len() && nf[g] == f by {
                            if f < ii {
                                assert(is_rep(eq, ii, f));
                                let g = choose|g: int| 0 <= g < old_first.len() && old_first[g] == f;
                                assert(nf[g] == f);
                            } else {
                                assert(nf[offset as int] == f);
                            }
                        }
                        assert(increasing(nf));
                        let m = key_table_map(tbl);
                        assert(m == old_map.insert(key, offset as u32));
                        assert forall|g: int| 0 <= g < nf.len() implies {
                            &&& m.contains_key(#[trigger] k[nf[g] as int])
                            &&& m[k[nf[g] as int]] == g
                        } by {
                            if g < old_first.len() {
                                assert(old_map.contains_key(k[old_first[g] as int]));
                            }
                        }
                    }
                },
                Some(offset) => {
                    let ghost g0 = offset as int;
                    proof {
                        assert(k[old_first[g0] as int] == key);
                    }
                    all[offset as usize].push(i as u32);
                    proof {
                        let na = all.deep_view();
                        assert(all@[g0].deep_view() =~= old_all[g0].push(i as u32));
                        assert(na =~= old_all.update(g0, old_all[g0].push(i as u32)));
                        assert forall|g: int| #![trigger first@[g]] 0 <= g < first@.len() implies {
                            &&& is_rep(eq, ii + 1, first@[g] as int)
                            &&& na[g] == members(eq, ii + 1, first@[g] as int)
                        } by {
                            assert(is_rep(eq, ii, first@[g] as int));
                            if g != g0 {
                                assert(old_map[k[old_first[g] as int]] == g);
                                assert(k[old_first[g] as int] != key);
                            }
                        }
                        assert(groups_sound(eq, ii + 1, first@, na));
                        assert forall|f: int| #[trigger] is_rep(eq, ii + 1, f) && owns(h(f), t, np)
                            implies exists|g: int| 0 <= g < first@.len() && first@[g] == f by {
                            if f < ii {
                                assert(is_rep(eq, ii, f));
                            } else {
                                assert(eq(old_first[g0] as int, ii));
                            }
                        }
                    }
                },
            }
        } else {
            proof {
                assert forall|g: int| #![trigger first@[g]] 0 <= g < first@.len() implies {
                    &&& is_rep(eq, ii + 1, first@[g] as int)
                    &&& old_all[g] == members(eq, ii + 1, first@[g] as int)
                } by {
                    assert(is_rep(eq, ii, first@[g] as int));
                    assert(owns(h(first@[g] as int), t, np));
                    assert(k[first@[g] as int] != key);
                }
                assert forall|f: int| #[trigger] is_rep(eq, ii + 1, f) && owns(h(f), t, np)
                    implies exists|g: int| 0 <= g < first@.len() && first@[g] == f by {
                    assert(f != ii);
                    assert(is_rep(eq, ii, f));
                }
            }
        }
        i += 1;
    }
    (first, all)
}

/// Relies on rayon's parallel `map` and `collect` over the range `0..n_partitions`:
/// the result holds one item per worker, in worker order, and item `t` is what
/// `group_partition(keys, t, n_partitions)` returned.
#[verifier::external_body]
fn par_group_partitions(keys: &[u64], n_partitions: u64) -> (r: Vec<(Vec<IdxSize>, Vec<Vec<IdxSize>>)>)
    requires
        is_pow2(n_partitions),
        keys@.len() <= u32::MAX,
    ensures
        parts_of(key_eq(keys@), key_hash(keys@), n_partitions, keys@.len() as int, r@),
{
    (0..n_partitions as usize).into_par_iter().map(|t| group_partition(keys, t as u64, n_partitions)).collect()
}

/// With a single worker, its groups are all groups, in ascending order.
pub proof fn lemma_single_part_is_grouping(
    eq: spec_fn(int, int) -> bool,
    h: spec_fn(int) -> u64,
    n: int,
    first: Seq<u32>,
    all: Seq<Seq<u32>>,
)
    requires
        is_part(eq, h, 1, 0, n, first, all),
    ensures
        is_grouping(eq, n, first, all),
        increasing(first),
{
    assert forall|f: int| #[trigger] is_rep(eq, n, f) implies exists|g: int| 0 <= g < first.len() && first[g] == f by {
        let x = h(f);
        assert(x & 0 == 0) by (bit_vector);
        assert(owns(h(f), 0, 1));
    }
    assert(distinct(first)) by {
        assert forall|a: int, b: int| 0 <= a < first.len() && 0 <= b < first.len() && a != b implies first[a] != first[b] by {
            if a < b {
                assert(first[a] < first[b]);
            } else {
                assert(first[b] < first[a]);
            }
        }
    }
}

/// Groups the rows of `keys` by equal key on the calling thread. The groups
/// come in ascending order of representative whether or not `sorted` is asked.
pub fn groupby(keys: &[u64], sorted: bool) -> (r: GroupsIdx)
    requires
        keys@.len() <= u32::MAX,
    ensures
        r.wf(),
        r.sorted == sorted,
        is_grouping(key_eq(keys@), keys@.len() as int, r.first@, r.groups()),
        increasing(r.first@),
{
    proof {
        assert(1u64 & 0u64 == 0) by (bit_vector);
        assert(is_pow2(1));
    }
    let (first, all) = group_partition(keys, 0, 1);
    proof {
        lemma_single_part_is_grouping(key_eq(keys@), key_hash(keys@), keys@.len() as int, first@, all.deep_view());
    }
    GroupsIdx { first, all, sorted }
}

/// Groups the rows of `keys` by equal key across `n_partitions` workers, each
/// of which scans every row and keeps those whose key falls to it.
pub fn groupby_threaded_num2(keys: &[u64], n_partitions: u64, sorted: bool) -> (r: GroupsIdx)
    requires
        is_pow2(n_partitions),
        keys@.len() <= u32::MAX,
    ensures
        r.wf(),
        r.sorted == sorted,
        is_grouping(key_eq(keys@), keys@.len() as int, r.first@, r.groups()),
        sorted ==> increasing(r.first@),
{
    let parts = par_group_partitions(keys, n_partitions);
    let ghost v = parts@;
    proof {
        lemma_parts_disjoint(key_eq(keys@), key_hash(keys@), n_partitions, keys@.len() as int, v);
    }
    let r = finish_group_order_vecs(parts, sorted);
    proof {
        lemma_gather_is_grouping(key_eq(keys@), key_hash(keys@), n_partitions, keys@.len() as int, v, r.first@, r.groups());
    }
    r
}

} // verus!
