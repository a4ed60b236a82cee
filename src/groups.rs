use vstd::prelude::*;
use crate::model::{from_some_part, in_result, part_first, part_all, parts_wf, parts_distinct, parts_increasing, same_group, gathers, distinct, increasing};

verus! {

/// A row index.
pub type IdxSize = u32;

/// The result of a grouping: for each group its representative (first) row
/// and the rows that belong to it, in encounter order.
pub struct GroupsIdx {
    pub first: Vec<IdxSize>,
    pub all: Vec<Vec<IdxSize>>,
    pub sorted: bool,
}

impl GroupsIdx {
    /// The member lists as sequences.
    pub open spec fn groups(&self) -> Seq<Seq<u32>> {
        self.all.deep_view()
    }

    /// Every group has a representative and a member list.
    pub open spec fn wf(&self) -> bool {
        self.first@.len() == self.all@.len()
    }

    /// Number of groups.
    pub fn len(&self) -> (r: usize)
        ensures
            r == self.first@.len(),
    {
        self.first.len()
    }

    /// Whether there are no groups.
    pub fn is_empty(&self) -> (r: bool)
        ensures
            r == (self.first@.len() == 0),
    {
        self.first.len() == 0
    }

    /// Whether the groups come in ascending order of representative.
    pub fn is_sorted_flag(&self) -> (r: bool)
        ensures
            r == self.sorted,
    {
        self.sorted
    }

    /// The representative of each group.
    pub fn first(&self) -> (r: &Vec<IdxSize>)
        ensures
            r@ == self.first@,
    {
        &self.first
    }

    /// The member rows of each group.
    pub fn all(&self) -> (r: &Vec<Vec<IdxSize>>)
        ensures
            r.deep_view() == self.groups(),
    {
        &self.all
    }

    /// The representative and member rows of group `g`.
    pub fn get(&self, g: usize) -> (r: (IdxSize, &Vec<IdxSize>))
        requires
            self.wf(),
            g < self.first@.len(),
        ensures
            r.0 == self.first@[g as int],
            r.1@ == self.groups()[g as int],
    {
        (self.first[g], &self.all[g])
    }

    /// Number of rows over all groups.
    pub fn total_rows(&self) -> (r: usize)
        requires
            total_members(self.groups(), self.all@.len() as int) <= usize::MAX,
        ensures
            r == total_members(self.groups(), self.all@.len() as int),
    {
        let mut total: usize = 0;
        let mut g: usize = 0;
        while g < self.all.len()
            invariant
                g <= self.all@.len(),
                total_members(self.groups(), self.all@.len() as int) <= usize::MAX,
                total == total_members(self.groups(), g as int),
            decreases self.all@.len() - g,
        {
            proof {
                lemma_total_members_monotone(self.groups(), g as int + 1, self.all@.len() as int);
            }
            total = total + self.all[g].len();
            g += 1;
        }
        total
    }
}

/// Number of members over the first `m` groups.
pub open spec fn total_members(all: Seq<Seq<u32>>, m: int) -> nat
    decreases m,
{
    if m <= 0 {
        0
    } else {
        total_members(all, m - 1) + all[m - 1].len()
    }
}

proof fn lemma_total_members_monotone(all: Seq<Seq<u32>>, a: int, b: int)
    requires
        a <= b,
    ensures
        total_members(all, a) <= total_members(all, b),
    decreases b - a,
{
    if a < b {
        lemma_total_members_monotone(all, a, b - 1);
    }
}

/// Group `g` of `(first, all)` is a group of some worker before its cursor `pos`.
pub open spec fn from_part_before(
    v: Seq<(Vec<u32>, Vec<Vec<u32>>)>,
    pos: Seq<usize>,
    first: Seq<u32>,
    all: Seq<Seq<u32>>,
    g: int,
) -> bool {
    exists|t: int, p: int| p < pos[t] && #[trigger] same_group(v, t, p, first, all, g)
}

/// Remaining groups of each worker, from cursor `pos`, over the first `m` workers.
pub open spec fn remaining(v: Seq<(Vec<u32>, Vec<Vec<u32>>)>, pos: Seq<usize>, m: int) -> nat
    decreases m,
{
    if m <= 0 {
        0
    } else {
        remaining(v, pos, m - 1) + (part_first(v, m - 1).len() - pos[m - 1]) as nat
    }
}

proof fn lemma_remaining_step(
    v: Seq<(Vec<u32>, Vec<Vec<u32>>)>,
    pos: Seq<usize>,
    pos2: Seq<usize>,
    t: int,
    m: int,
)
    requires
        0 <= t < pos.len(),
        m <= pos.len(),
        pos2.len() == pos.len(),
        pos2[t] == pos[t] + 1,
        forall|u: int| 0 <= u < pos.len() && u != t ==> pos2[u] == pos[u],
        forall|u: int| 0 <= u < pos2.len() ==> pos2[u] <= part_first(v, u).len(),
    ensures
        t < m ==> remaining(v, pos2, m) + 1 == remaining(v, pos, m),
        t >= m ==> remaining(v, pos2, m) == remaining(v, pos, m),
    decreases m,
{
    if m > 0 {
        lemma_remaining_step(v, pos, pos2, t, m - 1);
    }
}

fn copy_members(m: &Vec<u32>) -> (r: Vec<u32>)
    ensures
        r@ == m@,
{
    let r = m.clone();
    assert(r@ =~= m@);
    r
}

/// Chooses the worker whose next group comes next: in sorted mode the one with
/// the smallest next representative, otherwise the first with groups left.
fn pick_worker(vecs: &Vec<(Vec<u32>, Vec<Vec<u32>>)>, pos: &Vec<usize>, sorted: bool) -> (r: Option<usize>)
    requires
        pos@.len() == vecs@.len(),
        forall|u: int| 0 <= u < pos@.len() ==> pos@[u] <= part_first(vecs@, u).len(),
    ensures
        r.is_none() ==> forall|u: int| 0 <= u < pos@.len() ==> pos@[u] == part_first(vecs@, u).len(),
        r.is_some() ==> r.unwrap() < pos@.len() && pos@[r.unwrap() as int] < part_first(vecs@, r.unwrap() as int).len(),
        r.is_some() && sorted ==> forall|u: int| 0 <= u < pos@.len() && pos@[u] < part_first(vecs@, u).len()
            ==> part_first(vecs@, r.unwrap() as int)[pos@[r.unwrap() as int] as int]
                <= #[trigger] part_first(vecs@, u)[pos@[u] as int],
{
    let mut best: Option<usize> = None;
    let mut t: usize = 0;
    while t < vecs.len()
        invariant
            t <= vecs@.len(),
            pos@.len() == vecs@.len(),
            forall|u: int| 0 <= u < pos@.len() ==> pos@[u] <= part_first(vecs@, u).len(),
            best.is_none() ==> forall|u: int| 0 <= u < t ==> pos@[u] == part_first(vecs@, u).len(),
            best.is_some() ==> best.unwrap() < t && pos@[best.unwrap() as int] < part_first(vecs@, best.unwrap() as int).len(),
            best.is_some() && sorted ==> forall|u: int| 0 <= u < t && pos@[u] < part_first(vecs@, u).len()
                ==> part_first(vecs@, best.unwrap() as int)[pos@[best.unwrap() as int] as int]
                    <= #[trigger] part_first(vecs@, u)[pos@[u] as int],
        decreases vecs@.len() - t,
    {
        if pos[t] < vecs[t].0.len() {
            match best {
                None => {
                    best = Some(t);
                    if !sorted {
                        return best;
                    }
                },
                Some(b) => {
                    if vecs[t].0[pos[t]] < vecs[b].0[pos[b]] {
                        best = Some(t);
                    }
                },
            }
        }
        t += 1;
    }
    best
}

/// Merges the per-worker results into one grouping. In sorted mode the groups
/// come in ascending order of representative; otherwise worker by worker.
pub fn finish_group_order_vecs(vecs: Vec<(Vec<IdxSize>, Vec<Vec<IdxSize>>)>, sorted: bool) -> (r: GroupsIdx)
    requires
        parts_wf(vecs@),
        parts_distinct(vecs@),
        sorted ==> parts_increasing(vecs@),
    ensures
        r.wf(),
        r.sorted == sorted,
        gathers(vecs@, r.first@, r.groups()),
        sorted ==> increasing(r.first@),
{
    let k = vecs.len();
    let mut pos: Vec<usize> = Vec::new();
    let mut i: usize = 0;
    while i < k
        invariant
            i <= k,
            k == vecs@.len(),
            pos@.len() == i,
            forall|u: int| 0 <= u < i ==> pos@[u] == 0,
        decreases k - i,
    {
        pos.push(0);
        i += 1;
    }
    let mut first: Vec<u32> = Vec::new();
    let mut all: Vec<Vec<u32>> = Vec::new();
    let ghost v = vecs@;
    let mut pick = pick_worker(&vecs, &pos, sorted);
    while pick.is_some()
        invariant
            pick.is_none() ==> forall|u: int| 0 <= u < pos@.len() ==> pos@[u] == part_first(v, u).len(),
            pick.is_some() ==> pick.unwrap() < pos@.len() && pos@[pick.unwrap() as int] < part_first(v, pick.unwrap() as int).len(),
            pick.is_some() && sorted ==> forall|u: int| 0 <= u < pos@.len() && pos@[u] < part_first(v, u).len()
                ==> part_first(v, pick.unwrap() as int)[pos@[pick.unwrap() as int] as int]
                    <= #[trigger] part_first(v, u)[pos@[u] as int],
            v == vecs@,
            parts_wf(v),
            parts_distinct(v),
            sorted ==> parts_increasing(v),
            pos@.len() == v.len(),
            forall|u: int| 0 <= u < pos@.len() ==> pos@[u] <= part_first(v, u).len(),
            first@.len() == all@.len(),
            forall|g: int| 0 <= g < first@.len() ==> #[trigger] from_part_before(v, pos@, first@, all.deep_view(), g),
            forall|t: int, p: int| 0 <= t < v.len() && 0 <= p < pos@[t]
                ==> #[trigger] in_result(v, first@, all.deep_view(), t, p),
            distinct(first@),
            sorted ==> increasing(first@),
            sorted ==> forall|g: int, t: int, p: int|
                0 <= g < first@.len() && 0 <= t < v.len() && pos@[t] <= p < part_first(v, t).len()
                ==> #[trigger] first@[g] < #[trigger] part_first(v, t)[p],
        decreases remaining(v, pos@, v.len() as int),
    {
        match pick {
            None => {},
            Some(t) => {
                let p = pos[t];
                let len_t = vecs[t].0.len();
                assert(p < len_t);
                let x = vecs[t].0[p];
                let members = copy_members(&vecs[t].1[p]);
                proof {
                    assert(part_all(v, t as int)[p as int] == vecs@[t as int].1@[p as int]@);
                }
                let ghost old_first = first@;
                let ghost old_all = all.deep_view();
                let ghost old_pos = pos@;
                first.push(x);
                all.push(members);
                pos.set(t, p + 1);
                proof {
                    lemma_remaining_step(v, old_pos, pos@, t as int, v.len() as int);
                    let nf = first@;
                    let na = all.deep_view();
                    assert(na =~= old_all.push(members@));
                    assert forall|g: int| 0 <= g < nf.len()
                        implies #[trigger] from_part_before(v, pos@, nf, na, g) by {
                        if g < old_first.len() {
                            assert(from_part_before(v, old_pos, old_first, old_all, g));
                            let (t2, p2) = choose|t2: int, p2: int| p2 < old_pos[t2] && #[trigger] same_group(v, t2, p2, old_first, old_all, g);
                            assert(same_group(v, t2, p2, nf, na, g));
                            assert(pos@[t2] >= old_pos[t2]);
                        } else {
                            assert(same_group(v, t as int, p as int, nf, na, g));
                            assert(p < pos@[t as int]);
                        }
                    }
                    assert forall|t2: int, p2: int| 0 <= t2 < v.len() && 0 <= p2 < pos@[t2]
                        implies #[trigger] in_result(v, nf, na, t2, p2) by {
                        if t2 == t && p2 == p {
                            assert(same_group(v, t2, p2, nf, na, old_first.len() as int));
                        } else {
                            assert(p2 < old_pos[t2]);
                            assert(in_result(v, old_first, old_all, t2, p2));
                            let g = choose|g: int| #[trigger] same_group(v, t2, p2, old_first, old_all, g);
                            assert(same_group(v, t2, p2, nf, na, g));
                        }
                    }
                    assert forall|a: int, b: int| 0 <= a < nf.len() && 0 <= b < nf.len() && a != b
                        implies nf[a] != nf[b] by {
                        if a < old_first.len() && b < old_first.len() {
                        } else {
                            let c = if a < old_first.len() { a } else { b };
                            assert(from_part_before(v, old_pos, old_first, old_all, c));
                            let (t2, p2) = choose|t2: int, p2: int| p2 < old_pos[t2] && #[trigger] same_group(v, t2, p2, old_first, old_all, c);
                            assert(part_first(v, t2)[p2] != part_first(v, t as int)[p as int]);
                        }
                    }
                    if sorted {
                        assert forall|g: int, t2: int, p2: int|
                            0 <= g < nf.len() && 0 <= t2 < v.len() && pos@[t2] <= p2 < part_first(v, t2).len()
                            implies #[trigger] nf[g] < #[trigger] part_first(v, t2)[p2] by {
                            assert(increasing(part_first(v, t2)));
                            if g < old_first.len() {
                                assert(old_first[g] < part_first(v, t2)[p2]);
                            } else if t2 == t {
                                assert(x < part_first(v, t2)[p2]);
                            } else {
                                assert(part_first(v, t2)[old_pos[t2] as int] <= part_first(v, t2)[p2]);
                                assert(x <= part_first(v, t2)[old_pos[t2] as int]);
                                assert(x != part_first(v, t2)[p2]);
                            }
                        }
                    }
                }
            },
        }
        pick = pick_worker(&vecs, &pos, sorted);
    }
    proof {
        let nf = first@;
        let na = all.deep_view();
        assert forall|g: int| 0 <= g < nf.len() implies #[trigger] from_some_part(v, nf, na, g) by {
            assert(from_part_before(v, pos@, nf, na, g));
            let (t, p) = choose|t: int, p: int| p < pos@[t] && #[trigger] same_group(v, t, p, nf, na, g);
            assert(same_group(v, t, p, nf, na, g));
        }
        assert forall|t: int, p: int| 0 <= t < v.len() && 0 <= p < part_first(v, t).len()
            implies #[trigger] in_result(v, nf, na, t, p) by {
            assert(p < pos@[t]);
        }
    }
    GroupsIdx { first, all, sorted }
}

} // verus!
