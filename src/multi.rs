use vstd::prelude::*;
use crate::groups::{GroupsIdx, IdxSize, finish_group_order_vecs};
use crate::model::{is_equivalence, hash_respects, is_part, is_rep, members, groups_sound, increasing, parts_of, is_grouping, lemma_parts_disjoint, lemma_gather_is_grouping};
use crate::partition::{is_pow2, owns, this_partition};
use crate::single::{HASHMAP_INIT_SIZE, key_hash};
use crate::model::{lemma_has_rep, lemma_reps_equal, lemma_members_none};
use crate::table::{IdxHashTable, idx_hash_table_map};
use rayon::iter::{IntoParallelIterator, ParallelIterator};

verus! {

/// Offset basis of the row hash.
pub const FNV_OFFSET: u64 = 0xcbf29ce484222325;

/// Multiplier of the row hash.
pub const FNV_PRIME: u64 = 0x100000001b3;

/// One key column: signed integers, or strings held as their UTF-8 bytes.
pub enum Column {
    Int64(Vec<i64>),
    Utf8(Vec<Vec<u8>>),
}

/// Hash of a byte string, folding one byte at a time.
pub open spec fn bytes_hash(s: Seq<u8>) -> u64
    decreases s.len(),
{
    if s.len() == 0 {
        FNV_OFFSET
    } else {
        (bytes_hash(s.drop_last()) ^ (s.last() as u64)).wrapping_mul(FNV_PRIME)
    }
}

impl Column {
    /// Number of rows in the column.
    pub open spec fn len_spec(&self) -> nat {
        match self {
            Column::Int64(v) => v@.len(),
            Column::Utf8(v) => v@.len(),
        }
    }

    /// The values at rows `a` and `b` are equal.
    pub open spec fn eq_at(&self, a: int, b: int) -> bool {
        match self {
            Column::Int64(v) => v@[a] == v@[b],
            Column::Utf8(v) => v@[a]@ == v@[b]@,
        }
    }

    /// Hash of the value at row `i`.
    pub open spec fn hash_at(&self, i: int) -> u64 {
        match self {
            Column::Int64(v) => v@[i] as u64,
            Column::Utf8(v) => bytes_hash(v@[i]@),
        }
    }

    /// Number of rows in the column.
    pub fn len(&self) -> (r: usize)
        ensures
            r == self.len_spec(),
    {
        match self {
            Column::Int64(v) => v.len(),
            Column::Utf8(v) => v.len(),
        }
    }

    /// Whether the values at rows `a` and `b` are equal.
    pub fn equal_element(&self, a: usize, b: usize) -> (r: bool)
        requires
            a < self.len_spec(),
            b < self.len_spec(),
        ensures
            r == self.eq_at(a as int, b as int),
    {
        match self {
            Column::Int64(v) => v[a] == v[b],
            Column::Utf8(v) => bytes_equal(&v[a], &v[b]),
        }
    }

    /// Hash of the value at row `i`.
    pub fn hash_element(&self, i: usize) -> (r: u64)
        requires
            i < self.len_spec(),
        ensures
            r == self.hash_at(i as int),
    {
        match self {
            Column::Int64(v) => v[i] as u64,
            Column::Utf8(v) => hash_bytes(&v[i]),
        }
    }
}

fn bytes_equal(x: &Vec<u8>, y: &Vec<u8>) -> (r: bool)
    ensures
        r == (x@ == y@),
{
    if x.len() != y.len() {
        return false;
    }
    let mut j: usize = 0;
    while j < x.len()
        invariant
            x@.len() == y@.len(),
            j <= x@.len(),
            forall|q: int| 0 <= q < j ==> x@[q] == y@[q],
        decreases x@.len() - j,
    {
        if x[j] != y[j] {
            return false;
        }
        j += 1;
    }
    assert(x@ =~= y@);
    true
}

fn hash_bytes(s: &Vec<u8>) -> (r: u64)
    ensures
        r == bytes_hash(s@),
{
    let mut h: u64 = FNV_OFFSET;
    let mut j: usize = 0;
    while j < s.len()
        invariant
            j <= s@.len(),
            h == bytes_hash(s@.subrange(0, j as int)),
        decreases s@.len() - j,
    {
        proof {
            assert(s@.subrange(0, j + 1).drop_last() =~= s@.subrange(0, j as int));
        }
        h = (h ^ (s[j] as u64)).wrapping_mul(FNV_PRIME);
        j += 1;
    }
    assert(s@.subrange(0, s@.len() as int) =~= s@);
    h
}

/// Rows `a` and `b` agree on every key column.
pub open spec fn rows_equal(cols: Seq<Column>, a: int, b: int) -> bool {
    forall|c: int| 0 <= c < cols.len() ==> #[trigger] cols[c].eq_at(a, b)
}

/// Row equivalence over the key columns.
pub open spec fn row_eq(cols: Seq<Column>) -> spec_fn(int, int) -> bool {
    |a: int, b: int| rows_equal(cols, a, b)
}

/// Every key column has `n` rows.
pub open spec fn frame_wf(cols: Seq<Column>, n: int) -> bool {
    forall|c: int| 0 <= c < cols.len() ==> #[trigger] cols[c].len_spec() == n
}

/// Hash of row `i` over the first `m` key columns.
pub open spec fn row_hash(cols: Seq<Column>, m: int, i: int) -> u64
    decreases m,
{
    if m <= 0 {
        FNV_OFFSET
    } else {
        (row_hash(cols, m - 1, i) ^ cols[m - 1].hash_at(i)).wrapping_mul(FNV_PRIME)
    }
}

/// Compares rows `idx_a` and `idx_b` column by column, stopping at the first
/// column where they differ.
pub fn compare_keys(keys_cmp: &[Column], idx_a: usize, idx_b: usize) -> (r: bool)
    requires
        forall|c: int| 0 <= c < keys_cmp@.len() ==> idx_a < #[trigger] keys_cmp@[c].len_spec() && idx_b < keys_cmp@[c].len_spec(),
    ensures
        r == rows_equal(keys_cmp@, idx_a as int, idx_b as int),
{
    let mut c: usize = 0;
    while c < keys_cmp.len()
        invariant
            c <= keys_cmp@.len(),
            forall|d: int| 0 <= d < keys_cmp@.len() ==> idx_a < #[trigger] keys_cmp@[d].len_spec() && idx_b < keys_cmp@[d].len_spec(),
            forall|d: int| 0 <= d < c ==> #[trigger] keys_cmp@[d].eq_at(idx_a as int, idx_b as int),
        decreases keys_cmp@.len() - c,
    {
        if !keys_cmp[c].equal_element(idx_a, idx_b) {
            return false;
        }
        c += 1;
    }
    true
}

/// Row equality over the key columns is an equivalence.
pub proof fn lemma_row_eq_equivalence(cols: Seq<Column>, n: int)
    ensures
        is_equivalence(row_eq(cols), n),
{
    let eq = row_eq(cols);
    assert forall|i: int, j: int, k: int|
        0 <= i < n && 0 <= j < n && 0 <= k < n && #[trigger] eq(i, j) && #[trigger] eq(j, k) implies eq(i, k) by {
        assert forall|c: int| 0 <= c < cols.len() implies #[trigger] cols[c].eq_at(i, k) by {
            assert(cols[c].eq_at(i, j));
            assert(cols[c].eq_at(j, k));
        }
    }
    assert forall|i: int, j: int| 0 <= i < n && 0 <= j < n implies #[trigger] eq(i, j) == eq(j, i) by {
        if eq(i, j) {
            assert forall|c: int| 0 <= c < cols.len() implies #[trigger] cols[c].eq_at(j, i) by {
                assert(cols[c].eq_at(i, j));
            }
        }
        if eq(j, i) {
            assert forall|c: int| 0 <= c < cols.len() implies #[trigger] cols[c].eq_at(i, j) by {
                assert(cols[c].eq_at(j, i));
            }
        }
    }
}

/// Rows that agree on every key column have the same hash.
pub proof fn lemma_row_hash_respects(cols: Seq<Column>, m: int, a: int, b: int)
    requires
        0 <= m <= cols.len(),
        rows_equal(cols, a, b),
    ensures
        row_hash(cols, m, a) == row_hash(cols, m, b),
    decreases m,
{
    if m > 0 {
        lemma_row_hash_respects(cols, m - 1, a, b);
        assert(cols[m - 1].eq_at(a, b));
    }
}

/// The hash of every row over all key columns.
pub fn row_hashes(keys: &[Column], n: usize) -> (r: Vec<u64>)
    requires
        frame_wf(keys@, n as int),
    ensures
        r@.len() == n,
        forall|i: int| 0 <= i < n ==> #[trigger] r@[i] == row_hash(keys@, keys@.len() as int, i),
{
    let mut r: Vec<u64> = Vec::new();
    let mut i: usize = 0;
    while i < n
        invariant
            frame_wf(keys@, n as int),
            i <= n,
            r@.len() == i,
            forall|q: int| 0 <= q < i ==> #[trigger] r@[q] == row_hash(keys@, keys@.len() as int, q),
        decreases n - i,
    {
        let mut h: u64 = FNV_OFFSET;
        let mut c: usize = 0;
        while c < keys.len()
            invariant
                frame_wf(keys@, n as int),
                i < n,
                c <= keys@.len(),
                h == row_hash(keys@, c as int, i as int),
            decreases keys@.len() - c,
        {
            assert(keys@[c as int].len_spec() == n);
            h = (h ^ keys[c].hash_element(i)).wrapping_mul(FNV_PRIME);
            c += 1;
        }
        r.push(h);
        i += 1;
    }
    r
}

/// The (representative row, group offset) pairs stored under hash `h`.
pub open spec fn bucket_of(m: Map<u64, Seq<(u32, u32)>>, h: u64) -> Seq<(u32, u32)> {
    if m.contains_key(h) {
        m[h]
    } else {
        Seq::empty()
    }
}

/// Looks up row `idx` with hash `original_h` among the groups in `hash_tbl`,
/// comparing rows through `keys_cmp` only against entries of the same hash.
/// Returns the offset of the group whose representative row equals row `idx`;
/// when there is none, records row `idx` as the representative of a new group
/// at offset `vacant_value` and returns `None`.
pub fn populate_multiple_key_hashmap(
    hash_tbl: &mut IdxHashTable,
    idx: IdxSize,
    original_h: u64,
    keys_cmp: &[Column],
    vacant_value: IdxSize,
) -> (r: Option<IdxSize>)
    requires
        forall|c: int| 0 <= c < keys_cmp@.len() ==> idx < #[trigger] keys_cmp@[c].len_spec(),
        idx_hash_table_map(*old(hash_tbl)).contains_key(original_h) ==> forall|j: int|
            0 <= j < idx_hash_table_map(*old(hash_tbl))[original_h].len()
            ==> forall|c: int| 0 <= c < keys_cmp@.len()
                ==> (#[trigger] idx_hash_table_map(*old(hash_tbl))[original_h][j]).0 < #[trigger] keys_cmp@[c].len_spec(),
    ensures
        r.is_some() ==> idx_hash_table_map(*final(hash_tbl)) == idx_hash_table_map(*old(hash_tbl)),
        r.is_some() ==> exists|j: int| 0 <= j < bucket_of(idx_hash_table_map(*old(hash_tbl)), original_h).len()
            && (#[trigger] bucket_of(idx_hash_table_map(*old(hash_tbl)), original_h)[j]).1 == r.unwrap()
            && rows_equal(keys_cmp@, bucket_of(idx_hash_table_map(*old(hash_tbl)), original_h)[j].0 as int, idx as int),
        r.is_none() ==> idx_hash_table_map(*final(hash_tbl)) == idx_hash_table_map(*old(hash_tbl)).insert(
            original_h,
            bucket_of(idx_hash_table_map(*old(hash_tbl)), original_h).push((idx, vacant_value)),
        ),
        r.is_none() ==> forall|j: int| 0 <= j < bucket_of(idx_hash_table_map(*old(hash_tbl)), original_h).len()
            ==> !rows_equal(keys_cmp@, (#[trigger] bucket_of(idx_hash_table_map(*old(hash_tbl)), original_h)[j]).0 as int, idx as int),
{
    let ghost m = idx_hash_table_map(*hash_tbl);
    let mut bucket = match hash_tbl.get(original_h) {
        Some(b) => b,
        None => Vec::new(),
    };
    let ghost b0 = bucket@;
    assert(b0 == bucket_of(m, original_h));
    let mut j: usize = 0;
    while j < bucket.len()
        invariant
            bucket@ == b0,
            b0 == bucket_of(m, original_h),
            m == idx_hash_table_map(*hash_tbl),
            m == idx_hash_table_map(*old(hash_tbl)),
            j <= b0.len(),
            forall|c: int| 0 <= c < keys_cmp@.len() ==> idx < #[trigger] keys_cmp@[c].len_spec(),
            forall|q: int| 0 <= q < b0.len() ==> forall|c: int| 0 <= c < keys_cmp@.len()
                ==> (#[trigger] b0[q]).0 < #[trigger] keys_cmp@[c].len_spec(),
            forall|q: int| 0 <= q < j ==> !rows_equal(keys_cmp@, (#[trigger] b0[q]).0 as int, idx as int),
        decreases b0.len() - j,
    {
        let (rep, off) = bucket[j];
        proof {
            assert(b0[j as int].0 == rep && b0[j as int].1 == off);
        }
        if compare_keys(keys_cmp, rep as usize, idx as usize) {
            assert(rows_equal(keys_cmp@, b0[j as int].0 as int, idx as int));
            return Some(off);
        }
        j += 1;
    }
    bucket.push((idx, vacant_value));
    hash_tbl.insert(original_h, bucket);
    None
}

/// Group `g` is recorded in the table under the hash of its representative.
pub open spec fn indexed(m: Map<u64, Seq<(u32, u32)>>, hs: Seq<u64>, first: Seq<u32>, g: int) -> bool {
    exists|q: int|
        0 <= q < bucket_of(m, hs[first[g] as int]).len() && bucket_of(m, hs[first[g] as int])[q] == (first[g], g as u32)
}

/// Groups the rows whose hash falls to worker `thread_no` of `n_partitions`,
/// scanning all row hashes and skipping those of other workers. The table holds
/// only (representative row, offset) pairs; equality is settled by comparing rows.
pub fn group_partition_multi(keys: &[Column], hashes: &[u64], thread_no: u64, n_partitions: u64) -> (r: (Vec<IdxSize>, Vec<Vec<IdxSize>>))
    requires
        is_pow2(n_partitions),
        hashes@.len() <= u32::MAX,
        frame_wf(keys@, hashes@.len() as int),
        hash_respects(row_eq(keys@), key_hash(hashes@), hashes@.len() as int),
    ensures
        is_part(row_eq(keys@), key_hash(hashes@), n_partitions, thread_no, hashes@.len() as int, r.0@, r.1.deep_view()),
{
    let ghost cols = keys@;
    let ghost hs = hashes@;
    let ghost eq = row_eq(cols);
    let ghost h = key_hash(hs);
    let ghost n = hs.len() as int;
    let np = n_partitions;
    let t = thread_no;
    proof {
        lemma_row_eq_equivalence(cols, n);
    }
    let mut tbl = IdxHashTable::with_capacity(HASHMAP_INIT_SIZE);
    let mut first: Vec<u32> = Vec::new();
    let mut all: Vec<Vec<u32>> = Vec::new();
    let mut i: usize = 0;
    while i < hashes.len()
        invariant
            cols == keys@,
            hs == hashes@,
            eq == row_eq(cols),
            h == key_hash(hs),
            n == hs.len(),
            np == n_partitions,
            t == thread_no,
            is_pow2(np),
            n <= u32::MAX,
            frame_wf(cols, n),
            hash_respects(eq, h, n),
            is_equivalence(eq, n),
            i <= n,
            first@.len() <= i,
            is_part(eq, h, np, t, i as int, first@, all.deep_view()),
            forall|hh: u64| #[trigger] idx_hash_table_map(tbl).contains_key(hh) ==> forall|q: int|
                0 <= q < idx_hash_table_map(tbl)[hh].len() ==> {
                    let e = #[trigger] idx_hash_table_map(tbl)[hh][q];
                    &&& (e.1 as int) < first@.len()
                    &&& first@[e.1 as int] == e.0
                    &&& hs[e.0 as int] == hh
                },
            forall|g: int| 0 <= g < first@.len() ==> #[trigger] indexed(idx_hash_table_map(tbl), hs, first@, g),
        decreases n - i,
    {
        let hv = hashes[i];
        let ghost old_first = first@;
        let ghost old_all = all.deep_view();
        let ghost old_map = idx_hash_table_map(tbl);
        let ghost ii = i as int;
        if this_partition(hv, t, np) {
            let offset = first.len();
            proof {
                assert forall|c: int| 0 <= c < cols.len() implies i < #[trigger] cols[c].len_spec() by {}
                if old_map.contains_key(hv) {
                    assert forall|q: int| 0 <= q < old_map[hv].len() implies forall|c: int| 0 <= c < cols.len()
                        ==> (#[trigger] old_map[hv][q]).0 < #[trigger] cols[c].len_spec() by {
                        let e = old_map[hv][q];
                        assert(first@[e.1 as int] == e.0);
                        assert(first@[e.1 as int] < ii);
                    }
                }
            }
            let found = populate_multiple_key_hashmap(&mut tbl, i as u32, hv, keys, offset as u32);
            match found {
                None => {
                    proof {
                        let b = bucket_of(old_map, hv);
                        assert forall|j: int| 0 <= j < ii implies !#[trigger] eq(j, ii) by {
                            if eq(j, ii) {
                                lemma_has_rep(eq, ii, j);
                                let f = choose|f: int| #[trigger] is_rep(eq, ii, f) && f <= j && eq(f, j);
                                assert(eq(f, ii));
                                assert(h(f) == h(ii));
                                assert(owns(h(f), t, np));
                                let g = choose|g: int| 0 <= g < old_first.len() && old_first[g] == f;
                                assert(indexed(old_map, hs, old_first, g));
                                let q = choose|q: int| 0 <= q < bucket_of(old_map, hs[old_first[g] as int]).len()
                                    && bucket_of(old_map, hs[old_first[g] as int])[q] == (old_first[g], g as u32);
                                assert(b[q].0 == f);
                                assert(!rows_equal(cols, b[q].0 as int, ii));
                            }
                        }
                        assert(is_rep(eq, ii + 1, ii));
                    }
                    let single = vec![i as u32];
                    assert(single.deep_view() =~= seq![i as u32]);
                    first.push(i as u32);
                    all.push(single);
                    proof {
                        let nf = first@;
                        let na = all.deep_view();
                        let m = idx_hash_table_map(tbl);
                        assert(na =~= old_all.push(seq![i as u32]));
                        assert(members(eq, ii + 1, ii) =~= seq![i as u32]) by {
                            lemma_members_none(eq, ii, ii);
                        }
                        assert forall|g: int| #![trigger nf[g]] 0 <= g < nf.len() implies {
                            &&& is_rep(eq, ii + 1, nf[g] as int)
                            &&& na[g] == members(eq, ii + 1, nf[g] as int)
                        } by {
                            if g < old_first.len() {
                                assert(is_rep(eq, ii, old_first[g] as int));
                                assert(!eq(old_first[g] as int, ii));
                                assert(!eq(ii, old_first[g] as int));
                            }
                        }
                        assert(groups_sound(eq, ii + 1, nf, na));
                        assert forall|f: int| #[trigger] is_rep(eq, ii + 1, f) && owns(h(f), t, np)
                            implies exists|g: int| 0 <= g < nf.len() && nf[g] == f by {
                            if f < ii {
                                assert(is_rep(eq, ii, f));
                                let g = choose|g: int| 0 <= g < old_first.len() && old_first[g] == f;
                                assert(nf[g] == f);
                            } else {
                                assert(nf[offset as int] == f);
                            }
                        }
                        assert(increasing(nf));
                        assert forall|hh: u64| #[trigger] m.contains_key(hh) implies forall|q: int|
                            0 <= q < m[hh].len() ==> {
                                let e = #[trigger] m[hh][q];
                                &&& (e.1 as int) < nf.len()
                                &&& nf[e.1 as int] == e.0
                                &&& hs[e.0 as int] == hh
                            } by {
                            if hh != hv {
                                assert(m[hh] == old_map[hh]);
                            } else {
                                assert forall|q: int| 0 <= q < m[hh].len() implies {
                                    let e = #[trigger] m[hh][q];
                                    &&& (e.1 as int) < nf.len()
                                    &&& nf[e.1 as int] == e.0
                                    &&& hs[e.0 as int] == hh
                                } by {
                                    if q < bucket_of(old_map, hv).len() {
                                        assert(m[hh][q] == old_map[hh][q]);
                                    }
                                }
                            }
                        }
                        assert forall|g: int| 0 <= g < nf.len() implies #[trigger] indexed(m, hs, nf, g) by {
                            if g < old_first.len() {
                                assert(indexed(old_map, hs, old_first, g));
                                let q = choose|q: int| 0 <= q < bucket_of(old_map, hs[old_first[g] as int]).len()
                                    && bucket_of(old_map, hs[old_first[g] as int])[q] == (old_first[g], g as u32);
                                assert(bucket_of(m, hs[nf[g] as int])[q] == (nf[g], g as u32));
                            } else {
                                let q = bucket_of(old_map, hv).len() as int;
                                assert(bucket_of(m, hs[nf[g] as int])[q] == (nf[g], g as u32));
                            }
                        }
                    }
                },
                Some(off) => {
                    let ghost g0 = off as int;
                    proof {
                        let b = bucket_of(old_map, hv);
                        let q = choose|q: int| 0 <= q < b.len() && (#[trigger] b[q]).1 == off && rows_equal(cols, b[q].0 as int, ii);
                        assert(old_map[hv][q] == b[q]);
                        assert(old_first[g0] == b[q].0);
                        assert(eq(old_first[g0] as int, ii));
                    }
                    all[off as usize].push(i as u32);
                    proof {
                        let na = all.deep_view();
                        assert(all@[g0].deep_view() =~= old_all[g0].push(i as u32));
                        assert(na =~= old_all.update(g0, old_all[g0].push(i as u32)));
                        assert forall|g: int| #![trigger first@[g]] 0 <= g < first@.len() implies {
                            &&& is_rep(eq, ii + 1, first@[g] as int)
                            &&& na[g] == members(eq, ii + 1, first@[g] as int)
                        } by {
                            assert(is_rep(eq, ii, first@[g] as int));
                            if g != g0 {
                                if eq(ii, first@[g] as int) {
                                    assert(eq(old_first[g0] as int, first@[g] as int));
                                    lemma_reps_equal(eq, ii, old_first[g0] as int, first@[g] as int);
                                    if g < g0 {
                                        assert(first@[g] < first@[g0]);
                                    } else {
                                        assert(first@[g0] < first@[g]);
                                    }
                                }
                            } else {
                                assert(eq(ii, first@[g] as int));
                            }
                        }
                        assert(groups_sound(eq, ii + 1, first@, na));
                        assert forall|f: int| #[trigger] is_rep(eq, ii + 1, f) && owns(h(f), t, np)
                            implies exists|g: int| 0 <= g < first@.len() && first@[g] == f by {
                            if f < ii {
                                assert(is_rep(eq, ii, f));
                            } else {
                                assert(eq(old_first[g0] as int, ii));
                            }
                        }
                    }
                },
            }
        } else {
            proof {
                assert forall|g: int| #![trigger first@[g]] 0 <= g < first@.len() implies {
                    &&& is_rep(eq, ii + 1, first@[g] as int)
                    &&& old_all[g] == members(eq, ii + 1, first@[g] as int)
                } by {
                    assert(is_rep(eq, ii, first@[g] as int));
                    assert(owns(h(first@[g] as int), t, np));
                    if eq(ii, first@[g] as int) {
                        assert(h(ii) == h(first@[g] as int));
                    }
                }
                assert forall|f: int| #[trigger] is_rep(eq, ii + 1, f) && owns(h(f), t, np)
                    implies exists|g: int| 0 <= g < first@.len() && first@[g] == f by {
                    assert(f != ii);
                    assert(is_rep(eq, ii, f));
                }
            }
        }
        i += 1;
    }
    (first, all)
}

/// The key columns of a table.
pub struct DataFrame {
    pub columns: Vec<Column>,
}

impl DataFrame {
    /// Number of rows: that of the first column, or none without columns.
    pub open spec fn height_spec(&self) -> nat {
        if self.columns@.len() == 0 {
            0
        } else {
            self.columns@[0].len_spec()
        }
    }

    /// All key columns have the same number of rows.
    pub open spec fn wf(&self) -> bool {
        frame_wf(self.columns@, self.height_spec() as int)
    }

    /// Number of rows: that of the first column, or none without columns.
    pub fn height(&self) -> (r: usize)
        ensures
            r == self.height_spec(),
    {
        if self.columns.len() == 0 {
            0
        } else {
            self.columns[0].len()
        }
    }
}

/// Why a multi-key grouping was refused.
#[derive(Debug, Clone, Copy, PartialEq, Eq, Structural)]
pub enum GroupbyError {
    /// The key columns do not all have the same number of rows.
    ShapeMismatch,
}

/// Compares rows `idx_a` and `idx_b` of `keys` column by column, stopping at
/// the first column where they differ.
pub fn compare_df_rows(keys: &DataFrame, idx_a: usize, idx_b: usize) -> (r: bool)
    requires
        forall|c: int| 0 <= c < keys.columns@.len()
            ==> idx_a < #[trigger] keys.columns@[c].len_spec() && idx_b < keys.columns@[c].len_spec(),
    ensures
        r == rows_equal(keys.columns@, idx_a as int, idx_b as int),
{
    compare_keys(keys.columns.as_slice(), idx_a, idx_b)
}

/// Relies on rayon's parallel `map` and `collect` over the range `0..n_partitions`:
/// the result holds one item per worker, in worker order, and item `t` is what
/// `group_partition_multi(keys, hashes, t, n_partitions)` returned.
#[verifier::external_body]
fn par_group_partitions_multi(keys: &[Column], hashes: &[u64], n_partitions: u64) -> (r: Vec<(Vec<IdxSize>, Vec<Vec<IdxSize>>)>)
    requires
        is_pow2(n_partitions),
        hashes@.len() <= u32::MAX,
        frame_wf(keys@, hashes@.len() as int),
        hash_respects(row_eq(keys@), key_hash(hashes@), hashes@.len() as int),
    ensures
        parts_of(row_eq(keys@), key_hash(hashes@), n_partitions, hashes@.len() as int, r@),
{
    (0..n_partitions as usize).into_par_iter().map(|t| group_partition_multi(keys, hashes, t as u64, n_partitions)).collect()
}

/// Groups the rows of `keys` by equal composite key across `n_partitions`
/// workers. Fails when the key columns differ in length.
pub fn groupby_threaded_multiple_keys_flat(keys: &DataFrame, n_partitions: usize, sorted: bool) -> (r: Result<GroupsIdx, GroupbyError>)
    requires
        is_pow2(n_partitions as u64),
        forall|c: int| 0 <= c < keys.columns@.len() ==> #[trigger] keys.columns@[c].len_spec() <= u32::MAX,
    ensures
        r.is_err() <==> !keys.wf(),
        r.is_err() ==> r == Err::<GroupsIdx, GroupbyError>(GroupbyError::ShapeMismatch),
        r.is_ok() ==> {
            let g = r.unwrap();
            &&& g.wf()
            &&& g.sorted == sorted
            &&& is_grouping(row_eq(keys.columns@), keys.height_spec() as int, g.first@, g.groups())
            &&& sorted ==> increasing(g.first@)
        },
{
    let n = keys.height();
    let mut c: usize = 0;
    while c < keys.columns.len()
        invariant
            n == keys.height_spec(),
            c <= keys.columns@.len(),
            forall|d: int| 0 <= d < c ==> #[trigger] keys.columns@[d].len_spec() == n,
        decreases keys.columns@.len() - c,
    {
        if keys.columns[c].len() != n {
            return Err(GroupbyError::ShapeMismatch);
        }
        c += 1;
    }
    let cols = keys.columns.as_slice();
    let ghost eq = row_eq(cols@);
    proof {
        if cols@.len() > 0 {
            assert(cols@[0].len_spec() <= u32::MAX);
        }
    }
    let hashes = row_hashes(cols, n);
    proof {
        assert forall|i: int, j: int| 0 <= i < n && 0 <= j < n && #[trigger] eq(i, j)
            implies key_hash(hashes@)(i) == key_hash(hashes@)(j) by {
            lemma_row_hash_respects(cols@, cols@.len() as int, i, j);
        }
    }
    let np = n_partitions as u64;
    let parts = par_group_partitions_multi(cols, hashes.as_slice(), np);
    let ghost v = parts@;
    proof {
        lemma_parts_disjoint(eq, key_hash(hashes@), np, n as int, v);
    }
    let r = finish_group_order_vecs(parts, sorted);
    proof {
        lemma_gather_is_grouping(eq, key_hash(hashes@), np, n as int, v, r.first@, r.groups());
    }
    Ok(r)
}

} // verus!
