//! Nearest-neighbour search: a bounded "k smallest" accumulator, centroid
//! probing and the fraud vote among the `K` nearest references.

use vstd::prelude::*;
use crate::dataset::{Dataset, DatasetModel, LABEL_FRAUD};
use crate::proto::{DIM, K, NLIST, N_PROBES};
use crate::simd::sq_dist;

verus! {

broadcast use {vstd::multiset::group_multiset_axioms, vstd::seq_lib::group_to_multiset_ensures};

/// A candidate: (squared distance, row or centroid id).
pub type Candidate = (i64, u32);

/// Position of the first largest distance among the first `n` slots of `s`.
pub open spec fn max_pos(s: Seq<Candidate>, n: int) -> int
    decreases n,
{
    if n <= 1 {
        0
    } else {
        let p = max_pos(s, n - 1);
        if s[n - 1].0 > s[p].0 {
            n - 1
        } else {
            p
        }
    }
}

/// Offering candidate `e` to `cap` slots `s`, of which the first `len` are
/// in use: a free slot takes it; otherwise it replaces the first largest
/// distance when it is strictly smaller.
pub open spec fn top_push(s: Seq<Candidate>, len: nat, cap: nat, e: Candidate) -> (
    Seq<Candidate>,
    nat,
) {
    if len < cap {
        (s.update(len as int, e), len + 1)
    } else {
        let p = max_pos(s, cap as int);
        if e.0 < s[p].0 {
            (s.update(p, e), len)
        } else {
            (s, len)
        }
    }
}

/// The slots after offering every candidate of `pushes`, in order, to the
/// empty slots `init`.
pub open spec fn top_after(pushes: Seq<Candidate>, init: Seq<Candidate>, cap: nat) -> (
    Seq<Candidate>,
    nat,
)
    decreases pushes.len(),
{
    if pushes.len() == 0 {
        (init, 0)
    } else {
        let prev = top_after(pushes.drop_last(), init, cap);
        top_push(prev.0, prev.1, cap, pushes.last())
    }
}

/// The first `len` slots hold the `cap` (or fewer, when fewer were offered)
/// smallest distances among `pushes`: as many as `min(pushes.len(), cap)`,
/// all of them offered, and every candidate that was not kept is at least as
/// far as every kept one.
pub open spec fn keeps_smallest(s: Seq<Candidate>, len: nat, cap: nat, pushes: Seq<Candidate>) -> bool {
    let kept = s.take(len as int);
    let all = pushes.to_multiset();
    &&& len == (if pushes.len() < cap {
        pushes.len()
    } else {
        cap
    })
    &&& kept.to_multiset().subset_of(all)
    &&& forall|x: Candidate|
        #[trigger] all.count(x) > kept.to_multiset().count(x) ==> forall|j: int|
            0 <= j < len ==> #[trigger] s[j].0 <= x.0
}

proof fn lemma_max_pos(s: Seq<Candidate>, n: int)
    requires
        1 <= n <= s.len(),
    ensures
        0 <= max_pos(s, n) < n,
        forall|j: int| 0 <= j < n ==> #[trigger] s[j].0 <= s[max_pos(s, n)].0,
    decreases n,
{
    if n > 1 {
        lemma_max_pos(s, n - 1);
    }
}

proof fn lemma_update_to_multiset(s: Seq<Candidate>, p: int, e: Candidate)
    requires
        0 <= p < s.len(),
    ensures
        s.update(p, e).to_multiset() =~= s.to_multiset().remove(s[p]).insert(e),
{
    let t = s.update(p, e);
    assert(t.remove(p) =~= s.remove(p));
    assert(t.to_multiset().count(e) > 0) by {
        assert(t.contains(e)) by {
            assert(t[p] == e);
        }
    }
}

proof fn lemma_top_push_keeps_smallest(
    s: Seq<Candidate>,
    len: nat,
    cap: nat,
    pushes: Seq<Candidate>,
    e: Candidate,
)
    requires
        cap > 0,
        s.len() == cap,
        keeps_smallest(s, len, cap, pushes),
        pushes.len() < cap ==> s.take(len as int).to_multiset() =~= pushes.to_multiset(),
    ensures
        top_push(s, len, cap, e).0.len() == cap,
        keeps_smallest(top_push(s, len, cap, e).0, top_push(s, len, cap, e).1, cap, pushes.push(e)),
        pushes.push(e).len() < cap ==> top_push(s, len, cap, e).0.take(
            top_push(s, len, cap, e).1 as int,
        ).to_multiset() =~= pushes.push(e).to_multiset(),
{
    let kept = s.take(len as int);
    let all = pushes.to_multiset();
    let all2 = pushes.push(e).to_multiset();
    assert(all2 =~= all.insert(e));
    let (s2, len2) = top_push(s, len, cap, e);
    let kept2 = s2.take(len2 as int);
    if len < cap {
        assert(kept2 =~= kept.push(e));
        assert(kept2.to_multiset() =~= all2);
    } else {
        lemma_max_pos(s, cap as int);
        let p = max_pos(s, cap as int);
        let m = s[p];
        assert(kept =~= s);
        if e.0 < m.0 {
            assert(kept2 =~= s.update(p, e));
            lemma_update_to_multiset(s, p, e);
            assert(kept2.to_multiset().subset_of(all2));
            assert forall|x: Candidate| all2.count(x) > kept2.to_multiset().count(x) implies forall|
                j: int,
            | 0 <= j < len2 ==> #[trigger] s2[j].0 <= x.0 by {
                if all.count(x) > kept.to_multiset().count(x) {
                    assert forall|j: int| 0 <= j < len2 implies #[trigger] s2[j].0 <= x.0 by {
                        if j != p {
                            assert(s2[j] == s[j]);
                        }
                        assert(s[p].0 <= x.0);
                    }
                } else {
                    assert(x == m);
                    assert forall|j: int| 0 <= j < len2 implies #[trigger] s2[j].0 <= x.0 by {
                        if j != p {
                            assert(s2[j] == s[j]);
                            assert(s[j].0 <= s[p].0);
                        }
                    }
                }
            }
        } else {
            assert(kept2 =~= kept);
            assert forall|x: Candidate| all2.count(x) > kept2.to_multiset().count(x) implies forall|
                j: int,
            | 0 <= j < len2 ==> #[trigger] s2[j].0 <= x.0 by {
                if all.count(x) > kept.to_multiset().count(x) {
                } else {
                    assert(x == e);
                    assert forall|j: int| 0 <= j < len2 implies #[trigger] s2[j].0 <= x.0 by {
                        assert(s[j].0 <= s[p].0);
                    }
                }
            }
        }
    }
}

/// Whatever candidates are offered, in whatever order, the slots end up
/// holding the `cap` smallest distances (see `keeps_smallest`).
pub proof fn top_after_keeps_smallest(pushes: Seq<Candidate>, init: Seq<Candidate>, cap: nat)
    requires
        cap > 0,
        init.len() == cap,
    ensures
        top_after(pushes, init, cap).0.len() == cap,
        keeps_smallest(top_after(pushes, init, cap).0, top_after(pushes, init, cap).1, cap, pushes),
        pushes.len() < cap ==> top_after(pushes, init, cap).0.take(
            top_after(pushes, init, cap).1 as int,
        ).to_multiset() =~= pushes.to_multiset(),
    decreases pushes.len(),
{
    if pushes.len() == 0 {
        assert(init.take(0) =~= Seq::<Candidate>::empty());
        assert(pushes =~= Seq::<Candidate>::empty());
    } else {
        let prev = pushes.drop_last();
        top_after_keeps_smallest(prev, init, cap);
        let t = top_after(prev, init, cap);
        lemma_top_push_keeps_smallest(t.0, t.1, cap, prev, pushes.last());
        assert(prev.push(pushes.last()) =~= pushes);
    }
}


/// A run of offers is built one offer at a time: offering `e` after the
/// candidates `pushes` is one `top_push` step on the slots that `pushes` left,
/// which is what each `TopK::try_push` call performs; so a `TopK` that starts
/// from `TopK::new()` holds `top_after` of everything offered to it.
pub proof fn top_after_one_more(pushes: Seq<Candidate>, e: Candidate, init: Seq<Candidate>, cap: nat)
    ensures
        top_after(pushes.push(e), init, cap) == top_push(
            top_after(pushes, init, cap).0,
            top_after(pushes, init, cap).1,
            cap,
            e,
        ),
{
    assert(pushes.push(e).drop_last() =~= pushes);
}

/// `cap` unused slots.
pub open spec fn empty_slots(cap: nat) -> Seq<Candidate> {
    Seq::new(cap, |i: int| (i64::MAX, 0u32))
}

/// The `K` nearest-so-far candidates.
#[derive(Debug, Clone, Copy)]
pub struct TopK {
    pub dists: [i64; K],
    pub indices: [u32; K],
    /// Number of slots in use (the first `len`).
    pub len: usize,
}

impl TopK {
    /// The slots as (distance, id) pairs.
    pub open spec fn slots(&self) -> Seq<Candidate> {
        Seq::new(K as nat, |i: int| (self.dists@[i], self.indices@[i]))
    }

    /// An accumulator with no candidate.
    pub fn new() -> (r: Self)
        ensures
            r.slots() == empty_slots(K as nat),
            r.len == 0,
    {
        let r = TopK {
            dists: [i64::MAX, i64::MAX, i64::MAX, i64::MAX, i64::MAX],
            indices: [0, 0, 0, 0, 0],
            len: 0,
        };
        assert(r.slots() =~= empty_slots(K as nat));
        r
    }

    /// Offers a candidate: it takes a free slot, or replaces the first
    /// largest distance when it is strictly smaller.
    pub fn try_push(&mut self, dist: i64, idx: u32)
        ensures
            (final(self).slots(), final(self).len as nat) == top_push(
                old(self).slots(),
                old(self).len as nat,
                K as nat,
                (dist, idx),
            ),
    {
        let ghost s = self.slots();
        if self.len < K {
            let l = self.len;
            self.dists[l] = dist;
            self.indices[l] = idx;
            self.len = l + 1;
            assert(self.slots() =~= s.update(l as int, (dist, idx)));
            return;
        }
        let mut pos: usize = 0;
        let mut max_val: i64 = self.dists[0];
        let mut i: usize = 1;
        while i < K
            invariant
                1 <= i <= K,
                s == self.slots(),
                pos == max_pos(s, i as int),
                pos < i,
                s.len() == K,
                max_val == s[pos as int].0,
            decreases K - i,
        {
            if self.dists[i] > max_val {
                max_val = self.dists[i];
                pos = i;
            }
            i += 1;
        }
        if dist < max_val {
            self.dists[pos] = dist;
            self.indices[pos] = idx;
            assert(self.slots() =~= s.update(pos as int, (dist, idx)));
        }
    }
}

/// Coordinate `d` of every row of column `d`, read as a point: row `i` of
/// the dataset.
pub open spec fn row_of(m: DatasetModel, i: int) -> Seq<i16> {
    Seq::new(DIM as nat, |d: int| m.vectors[d * m.n_padded + i])
}

/// The candidate that row `i` makes for `query`.
pub open spec fn row_candidate(query: Seq<i16>, m: DatasetModel, i: int) -> Candidate {
    (sq_dist(query, row_of(m, i), DIM as int) as i64, i as u32)
}

/// The candidates of the rows of each range, range after range, row after row.
pub open spec fn range_pushes(query: Seq<i16>, m: DatasetModel, ranges: Seq<(usize, usize)>) -> Seq<
    Candidate,
>
    decreases ranges.len(),
{
    if ranges.len() == 0 {
        Seq::empty()
    } else {
        let r = ranges.last();
        range_pushes(query, m, ranges.drop_last()) + Seq::new(
            (r.1 - r.0) as nat,
            |j: int| row_candidate(query, m, r.0 + j),
        )
    }
}

/// Row `i` exists and is labelled fraud.
pub open spec fn is_fraud_row(m: DatasetModel, i: int) -> bool {
    i < m.n && m.labels[i] == LABEL_FRAUD
}

/// Number of candidates of `kept` whose row is a fraud.
pub open spec fn fraud_votes(m: DatasetModel, kept: Seq<Candidate>) -> nat
    decreases kept.len(),
{
    if kept.len() == 0 {
        0
    } else {
        fraud_votes(m, kept.drop_last()) + (if is_fraud_row(m, kept.last().1 as int) {
            1nat
        } else {
            0nat
        })
    }
}

/// The frauds among the `K` nearest candidates of the rows in `ranges`.
pub open spec fn spec_fraud_in_ranges(q: Seq<i16>, m: DatasetModel, ranges: Seq<(usize, usize)>) -> nat {
    let t = top_after(range_pushes(q, m, ranges), empty_slots(K as nat), K as nat);
    fraud_votes(m, t.0.take(t.1 as int))
}

proof fn lemma_term_bound(a: i16, b: i16)
    ensures
        0 <= (a - b) * (a - b) <= 4294836225,
{
    let x = a - b;
    assert(0 <= x * x <= 4294836225) by (nonlinear_arith)
        requires
            -65535 <= x <= 65535,
    ;
}

/// Squared distance between `query` and point `c` of the column-major table
/// `cols` (coordinate `d` of the point is `cols[d][c]`), exact in 64 bits
/// for any coordinates.
fn column_distance(query: &[i16; DIM], cols: &Vec<&[i16]>, c: usize, Ghost(point): Ghost<Seq<i16>>) -> (r: i64)
    requires
        cols@.len() == DIM,
        forall|d: int| 0 <= d < DIM ==> c < (#[trigger] cols@[d])@.len(),
        point.len() == DIM,
        forall|d: int| 0 <= d < DIM ==> (#[trigger] cols@[d])@[c as int] == point[d],
    ensures
        r == sq_dist(query@, point, DIM as int),
        0 <= r,
{
    let mut acc: i64 = 0;
    let mut d: usize = 0;
    while d < DIM
        invariant
            d <= DIM,
            cols@.len() == DIM,
            forall|d: int| 0 <= d < DIM ==> c < (#[trigger] cols@[d])@.len(),
            forall|d: int| 0 <= d < DIM ==> (#[trigger] cols@[d])@[c as int] == point[d],
            point.len() == DIM,
            acc == sq_dist(query@, point, d as int),
            0 <= acc <= d * 4294836225,
        decreases DIM - d,
    {
        let col: &[i16] = cols[d];
        let v = col[c];
        proof {
            assert(query@[d as int] == query[d as int]);
            lemma_term_bound(query@[d as int], point[d as int]);
        }
        let diff: i64 = query[d] as i64 - v as i64;
        acc = acc + diff * diff;
        d += 1;
    }
    acc
}


/// Point `c` of the column-major table `cols`.
pub open spec fn centroid_point(cols: Seq<Seq<i16>>, c: int) -> Seq<i16> {
    Seq::new(DIM as nat, |d: int| cols[d][c])
}

/// The candidates that the first `m` centroids make for `query`.
pub open spec fn centroid_pushes(query: Seq<i16>, cols: Seq<Seq<i16>>, m: nat) -> Seq<Candidate> {
    Seq::new(m, |c: int| (sq_dist(query, centroid_point(cols, c), DIM as int) as i64, c as u32))
}

/// The columns of a centroid table, as sequences.
pub open spec fn columns_view(centroids: Seq<Vec<i16>>) -> Seq<Seq<i16>> {
    centroids.map_values(|v: Vec<i16>| v@)
}

/// The ids of the `N_PROBES` centroids nearest to `query` (in slot order;
/// the order within the set carries no meaning). `centroids` holds one
/// column of `NLIST` values per dimension.
pub fn select_probes(query: &[i16; DIM], centroids: &[Vec<i16>]) -> (r: [u32; N_PROBES])
    requires
        centroids@.len() == DIM,
        forall|d: int| 0 <= d < DIM ==> (#[trigger] centroids@[d])@.len() == NLIST,
    ensures
        r@ == top_after(
            centroid_pushes(query@, columns_view(centroids@), NLIST as nat),
            empty_slots(N_PROBES as nat),
            N_PROBES as nat,
        ).0.map_values(|e: Candidate| e.1),
{
    let ghost cv = columns_view(centroids@);
    let ghost pushes = centroid_pushes(query@, cv, NLIST as nat);
    let mut cols: Vec<&[i16]> = Vec::new();
    let mut d: usize = 0;
    while d < DIM
        invariant
            d <= DIM,
            centroids@.len() == DIM,
            cv == columns_view(centroids@),
            cols@.len() == d,
            forall|e: int| 0 <= e < d ==> (#[trigger] cols@[e])@ == cv[e],
        decreases DIM - d,
    {
        cols.push(centroids[d].as_slice());
        d += 1;
    }
    let mut top: [Candidate; N_PROBES] = [(i64::MAX, 0u32), (i64::MAX, 0u32), (i64::MAX, 0u32), (
        i64::MAX,
        0u32,
    )];
    assert(top@ =~= empty_slots(N_PROBES as nat));
    let mut len: usize = 0;
    let mut c: usize = 0;
    while c < NLIST
        invariant
            c <= NLIST,
            len <= N_PROBES,
            cols@.len() == DIM,
            centroids@.len() == DIM,
            cv == columns_view(centroids@),
            pushes == centroid_pushes(query@, cv, NLIST as nat),
            forall|e: int| 0 <= e < DIM ==> (#[trigger] cols@[e])@ == cv[e],
            forall|e: int| 0 <= e < DIM ==> (#[trigger] centroids@[e])@.len() == NLIST,
            (top@, len as nat) == top_after(
                pushes.take(c as int),
                empty_slots(N_PROBES as nat),
                N_PROBES as nat,
            ),
        decreases NLIST - c,
    {
        let ghost point = centroid_point(cv, c as int);
        proof {
            assert forall|e: int| 0 <= e < DIM implies c < (#[trigger] cols@[e])@.len() by {}
            assert forall|e: int| 0 <= e < DIM implies (#[trigger] cols@[e])@[c as int] == point[e] by {}
        }
        let acc = column_distance(query, &cols, c, Ghost(point));
        let ghost s = top@;
        proof {
            assert(pushes.take(c as int + 1).drop_last() =~= pushes.take(c as int));
            assert(pushes.take(c as int + 1).last() == (acc, c as u32));
        }
        if len < N_PROBES {
            top[len] = (acc, c as u32);
            len += 1;
        } else {
            let mut pos: usize = 0;
            let mut max_val: i64 = top[0].0;
            let mut i: usize = 1;
            while i < N_PROBES
                invariant
                    1 <= i <= N_PROBES,
                    s == top@,
                    s.len() == N_PROBES,
                    pos == max_pos(s, i as int),
                    pos < i,
                    max_val == s[pos as int].0,
                decreases N_PROBES - i,
            {
                if top[i].0 > max_val {
                    max_val = top[i].0;
                    pos = i;
                }
                i += 1;
            }
            if acc < max_val {
                top[pos] = (acc, c as u32);
            }
        }
        c += 1;
    }
    assert(pushes.take(NLIST as int) =~= pushes);
    let mut out: [u32; N_PROBES] = [0, 0, 0, 0];
    let mut i: usize = 0;
    while i < N_PROBES
        invariant
            i <= N_PROBES,
            forall|j: int| 0 <= j < i ==> out@[j] == (#[trigger] top@[j]).1,
        decreases N_PROBES - i,
    {
        out[i] = top[i].1;
        i += 1;
    }
    assert(out@ =~= top@.map_values(|e: Candidate| e.1));
    out
}


/// Every range lies within the rows of `m`.
pub open spec fn ranges_within(ranges: Seq<(usize, usize)>, m: DatasetModel) -> bool {
    forall|k: int| 0 <= k < ranges.len() ==> (#[trigger] ranges[k]).0 <= ranges[k].1 <= m.n
}

proof fn lemma_row_index(m: DatasetModel, i: int)
    requires
        crate::dataset::model_wf(m),
        0 <= i < m.n,
    ensures
        forall|d: int| 0 <= d < DIM ==> 0 <= #[trigger] (d * m.n_padded + i) < m.vectors.len(),
{
    crate::dataset::lemma_align_up_bounds(m.n as int, crate::dataset::SIMD_LANES as int);
    let pn = m.n_padded as int;
    assert forall|d: int| 0 <= d < DIM implies 0 <= #[trigger] (d * pn + i) < DIM * pn by {
        assert(0 <= d * pn + i < DIM * pn) by (nonlinear_arith)
            requires
                0 <= d < DIM,
                0 <= i < pn,
        ;
    }
}

/// Counts the frauds among the `K` nearest rows of `ranges` (each range a
/// cluster's rows `start..end`).
pub fn count_fraud_in_ranges(query: &[i16; DIM], dataset: &Dataset, ranges: &[(usize, usize)]) -> (r:
    u8)
    requires
        dataset.wf(),
        ranges_within(ranges@, dataset@),
    ensures
        r == spec_fraud_in_ranges(query@, dataset@, ranges@),
        r <= K,
{
    let ghost m = dataset@;
    let ghost q = query@;
    proof {
        crate::dataset::lemma_align_up_bounds(m.n as int, crate::dataset::SIMD_LANES as int);
    }
    let pn = dataset.n_padded();
    let mut cols: Vec<&[i16]> = Vec::new();
    let mut d: usize = 0;
    while d < DIM
        invariant
            d <= DIM,
            dataset.wf(),
            m == dataset@,
            pn == m.n_padded,
            cols@.len() == d,
            forall|e: int|
                0 <= e < d ==> (#[trigger] cols@[e])@ == m.vectors.subrange(e * pn, (e + 1) * pn),
        decreases DIM - d,
    {
        cols.push(dataset.dim_column(d));
        d += 1;
    }
    let mut top = TopK::new();
    let mut r: usize = 0;
    while r < ranges.len()
        invariant
            r <= ranges@.len(),
            dataset.wf(),
            m == dataset@,
            q == query@,
            pn == m.n_padded,
            m.n <= pn,
            cols@.len() == DIM,
            forall|e: int|
                0 <= e < DIM ==> (#[trigger] cols@[e])@ == m.vectors.subrange(e * pn, (e + 1) * pn),
            ranges_within(ranges@, m),
            top.len <= K,
            (top.slots(), top.len as nat) == top_after(
                range_pushes(q, m, ranges@.take(r as int)),
                empty_slots(K as nat),
                K as nat,
            ),
        decreases ranges@.len() - r,
    {
        let (start, end) = ranges[r];
        let ghost before = range_pushes(q, m, ranges@.take(r as int));
        proof {
            assert(ranges@.take(r as int + 1).drop_last() =~= ranges@.take(r as int));
            assert(ranges@.take(r as int + 1).last() == ranges@[r as int]);
            assert(ranges_within(ranges@, m));
            assert(start <= end <= m.n) by {
                assert(ranges@[r as int] == (start, end));
            }
        }
        let mut i: usize = start;
        while i < end
            invariant
                start <= i <= end <= m.n,
                m.n <= pn,
                dataset.wf(),
                m == dataset@,
                q == query@,
                pn == m.n_padded,
                cols@.len() == DIM,
                forall|e: int|
                    0 <= e < DIM ==> (#[trigger] cols@[e])@ == m.vectors.subrange(
                        e * pn,
                        (e + 1) * pn,
                    ),
                top.len <= K,
                (top.slots(), top.len as nat) == top_after(
                    before + Seq::new((i - start) as nat, |j: int| row_candidate(q, m, start + j)),
                    empty_slots(K as nat),
                    K as nat,
                ),
            decreases end - i,
        {
            let ghost point = row_of(m, i as int);
            proof {
                lemma_row_index(m, i as int);
                assert forall|e: int| 0 <= e < DIM implies i < (#[trigger] cols@[e])@.len()
                    && cols@[e]@[i as int] == point[e] by {
                    assert((e + 1) * pn == e * pn + pn && (e + 1) * pn <= DIM * pn)
                        by (nonlinear_arith)
                        requires
                            0 <= e < DIM,
                            pn >= 0,
                    ;
                    assert(cols@[e]@[i as int] == m.vectors[e * pn + i]);
                }
            }
            let acc = column_distance(query, &cols, i, Ghost(point));
            proof {
                let old_p = before + Seq::new(
                    (i - start) as nat,
                    |j: int| row_candidate(q, m, start + j),
                );
                let new_p = before + Seq::new(
                    (i + 1 - start) as nat,
                    |j: int| row_candidate(q, m, start + j),
                );
                assert(new_p.drop_last() =~= old_p);
                assert(new_p.last() == (acc, i as u32));
            }
            top.try_push(acc, i as u32);
            i += 1;
        }
        proof {
            let seg = Seq::new((end - start) as nat, |j: int| row_candidate(q, m, start + j));
            assert(range_pushes(q, m, ranges@.take(r as int + 1)) =~= before + seg);
        }
        r += 1;
    }
    assert(ranges@.take(ranges@.len() as int) =~= ranges@);
    let ghost kept_all = top.slots().take(top.len as int);
    let mut count: u8 = 0;
    let mut slot: usize = 0;
    while slot < top.len
        invariant
            slot <= top.len <= K,
            dataset.wf(),
            m == dataset@,
            kept_all == top.slots().take(top.len as int),
            count == fraud_votes(m, kept_all.take(slot as int)),
            count <= slot,
        decreases top.len - slot,
    {
        let id = top.indices[slot];
        proof {
            assert(kept_all.take(slot as int + 1).drop_last() =~= kept_all.take(slot as int));
            assert(kept_all.take(slot as int + 1).last().1 == id);
        }
        if dataset.is_fraud(id as usize) {
            count += 1;
        }
        slot += 1;
    }
    assert(kept_all.take(top.len as int) =~= kept_all);
    count
}

/// The frauds among the `K` nearest rows of the whole dataset.
pub open spec fn spec_fraud_neighbors(q: Seq<i16>, m: DatasetModel) -> nat {
    spec_fraud_in_ranges(q, m, seq![(0usize, m.n as usize)])
}

/// Counts how many of the `K` nearest reference rows (squared Euclidean
/// distance to the quantized `query`) are labelled fraud.
pub fn count_fraud_neighbors(query: &[i16; DIM], dataset: &Dataset) -> (r: u8)
    requires
        dataset.wf(),
    ensures
        r == spec_fraud_neighbors(query@, dataset@),
        r <= K,
{
    let n = dataset.len();
    let ranges: [(usize, usize); 1] = [(0, n)];
    assert(ranges@ =~= seq![(0usize, dataset@.n as usize)]);
    count_fraud_in_ranges(query, dataset, ranges.as_slice())
}


/// Only real rows vote: every candidate kept from the rows of `ranges` is a
/// row of the dataset (never a padding position), so a vote is a fraud
/// exactly when that row's label says so.
pub proof fn kept_rows_are_dataset_rows(q: Seq<i16>, m: DatasetModel, ranges: Seq<(usize, usize)>)
    requires
        m.n <= u32::MAX,
        ranges_within(ranges, m),
    ensures
        ({
            let t = top_after(range_pushes(q, m, ranges), empty_slots(K as nat), K as nat);
            forall|j: int| 0 <= j < t.1 ==> (#[trigger] t.0[j]).1 < m.n
        }),
{
    let pushes = range_pushes(q, m, ranges);
    lemma_range_pushes_ids(q, m, ranges);
    top_after_keeps_smallest(pushes, empty_slots(K as nat), K as nat);
    let t = top_after(pushes, empty_slots(K as nat), K as nat);
    let kept = t.0.take(t.1 as int);
    assert forall|j: int| 0 <= j < t.1 implies (#[trigger] t.0[j]).1 < m.n by {
        let x = t.0[j];
        assert(kept[j] == x);
        assert(kept.to_multiset().count(x) > 0);
        assert(pushes.to_multiset().count(x) > 0);
        assert(pushes.contains(x));
        let k = choose|k: int| 0 <= k < pushes.len() && pushes[k] == x;
        assert(pushes[k].1 < m.n);
    }
}

proof fn lemma_range_pushes_ids(q: Seq<i16>, m: DatasetModel, ranges: Seq<(usize, usize)>)
    requires
        m.n <= u32::MAX,
        ranges_within(ranges, m),
    ensures
        forall|k: int|
            0 <= k < range_pushes(q, m, ranges).len() ==> (#[trigger] range_pushes(q, m, ranges)[k]).1
                < m.n,
    decreases ranges.len(),
{
    if ranges.len() > 0 {
        let prev = ranges.drop_last();
        assert(ranges_within(prev, m)) by {
            assert forall|k: int| 0 <= k < prev.len() implies (#[trigger] prev[k]).0 <= prev[k].1
                <= m.n by {
                assert(prev[k] == ranges[k]);
            }
        }
        lemma_range_pushes_ids(q, m, prev);
        let r = ranges.last();
        assert(r == ranges[ranges.len() - 1]);
        let a = range_pushes(q, m, prev);
        let seg = Seq::new((r.1 - r.0) as nat, |j: int| row_candidate(q, m, r.0 + j));
        assert forall|k: int| 0 <= k < (a + seg).len() implies (#[trigger] (a + seg)[k]).1 < m.n by {
            if k >= a.len() {
                assert((a + seg)[k] == seg[k - a.len()]);
            }
        }
    }
}

/// Number of the candidates of `kept` that are rows of `m` labelled fraud.
proof fn lemma_fraud_votes_filter(m: DatasetModel, kept: Seq<Candidate>)
    ensures
        fraud_votes(m, kept) == kept.filter(
            |c: Candidate| (c.1 as int) < m.n && m.labels[c.1 as int] == LABEL_FRAUD,
        ).len(),
    decreases kept.len(),
{
    reveal_with_fuel(Seq::filter, 1);
    if kept.len() > 0 {
        lemma_fraud_votes_filter(m, kept.drop_last());
    }
}

/// The k-NN vote: every row `0..n` of the dataset is a candidate, scored by
/// its squared Euclidean distance to the query (coordinate `d` of row `i`
/// read at `d * n_padded + i`); `min(K, n)` of them are kept, no candidate
/// left out is nearer than a kept one, and the vote is the number of kept
/// rows labelled fraud.
pub proof fn fraud_vote_counts_nearest_rows(q: Seq<i16>, m: DatasetModel)
    requires
        crate::dataset::model_wf(m),
    ensures
        ({
            let cands = Seq::new(
                m.n,
                |i: int|
                    (
                        sq_dist(
                            q,
                            Seq::new(DIM as nat, |d: int| m.vectors[d * m.n_padded + i]),
                            DIM as int,
                        ) as i64,
                        i as u32,
                    ),
            );
            exists|kept: Seq<Candidate>|
                #![trigger kept.to_multiset()]
                {
                    &&& kept.len() == (if m.n < K {
                        m.n
                    } else {
                        K as nat
                    })
                    &&& kept.to_multiset().subset_of(cands.to_multiset())
                    &&& forall|x: Candidate|
                        #[trigger] cands.to_multiset().count(x) > kept.to_multiset().count(x)
                            ==> forall|j: int| 0 <= j < kept.len() ==> #[trigger] kept[j].0 <= x.0
                    &&& spec_fraud_neighbors(q, m) == kept.filter(
                        |c: Candidate| (c.1 as int) < m.n && m.labels[c.1 as int] == LABEL_FRAUD,
                    ).len()
                }
        }),
{
    let cands = Seq::new(
        m.n,
        |i: int|
            (
                sq_dist(
                    q,
                    Seq::new(DIM as nat, |d: int| m.vectors[d * m.n_padded + i]),
                    DIM as int,
                ) as i64,
                i as u32,
            ),
    );
    let ranges = seq![(0usize, m.n as usize)];
    let pushes = range_pushes(q, m, ranges);
    assert(ranges.drop_last() =~= Seq::<(usize, usize)>::empty());
    assert(pushes =~= cands) by {
        assert(range_pushes(q, m, ranges.drop_last()) =~= Seq::<Candidate>::empty());
        assert forall|i: int| 0 <= i < m.n implies #[trigger] pushes[i] == cands[i] by {
            assert(row_of(m, i) =~= Seq::new(DIM as nat, |d: int| m.vectors[d * m.n_padded + i]));
        }
    }
    top_after_keeps_smallest(pushes, empty_slots(K as nat), K as nat);
    let t = top_after(pushes, empty_slots(K as nat), K as nat);
    let kept = t.0.take(t.1 as int);
    lemma_fraud_votes_filter(m, kept);
    assert(kept.len() == t.1);
}

/// Probing picks the nearest centroids: coordinate `d` of centroid `c` is
/// `centroids[d][c]`, every one of the `NLIST` centroids is a candidate
/// scored by its squared Euclidean distance to the query, and the
/// `N_PROBES` slots whose ids `select_probes` returns hold candidates of
/// which none left out is nearer than a kept one.
pub proof fn probes_are_nearest_centroids(q: Seq<i16>, centroids: Seq<Vec<i16>>)
    requires
        centroids.len() == DIM,
        forall|d: int| 0 <= d < DIM ==> (#[trigger] centroids[d])@.len() == NLIST,
    ensures
        ({
            let cands = Seq::new(
                NLIST as nat,
                |c: int|
                    (
                        sq_dist(q, Seq::new(DIM as nat, |d: int| centroids[d]@[c]), DIM as int)
                            as i64,
                        c as u32,
                    ),
            );
            let t = top_after(
                centroid_pushes(q, columns_view(centroids), NLIST as nat),
                empty_slots(N_PROBES as nat),
                N_PROBES as nat,
            );
            &&& t.1 == N_PROBES
            &&& t.0.len() == N_PROBES
            &&& t.0.to_multiset().subset_of(cands.to_multiset())
            &&& forall|x: Candidate|
                #[trigger] cands.to_multiset().count(x) > t.0.to_multiset().count(x) ==> forall|j: int|
                    0 <= j < N_PROBES ==> #[trigger] t.0[j].0 <= x.0
        }),
{
    let cands = Seq::new(
        NLIST as nat,
        |c: int|
            (
                sq_dist(q, Seq::new(DIM as nat, |d: int| centroids[d]@[c]), DIM as int) as i64,
                c as u32,
            ),
    );
    let pushes = centroid_pushes(q, columns_view(centroids), NLIST as nat);
    assert(pushes =~= cands) by {
        assert forall|c: int| 0 <= c < NLIST implies #[trigger] pushes[c] == cands[c] by {
            assert(centroid_point(columns_view(centroids), c) =~= Seq::new(
                DIM as nat,
                |d: int| centroids[d]@[c],
            ));
        }
    }
    top_after_keeps_smallest(pushes, empty_slots(N_PROBES as nat), N_PROBES as nat);
    let t = top_after(pushes, empty_slots(N_PROBES as nat), N_PROBES as nat);
    assert(t.0.take(t.1 as int) =~= t.0);
}

/// The vote never exceeds `K`: at most `K` rows are kept.
pub proof fn fraud_vote_at_most_k(q: Seq<i16>, m: DatasetModel)
    ensures
        spec_fraud_neighbors(q, m) <= K,
{
    let pushes = range_pushes(q, m, seq![(0usize, m.n as usize)]);
    top_after_keeps_smallest(pushes, empty_slots(K as nat), K as nat);
    let t = top_after(pushes, empty_slots(K as nat), K as nat);
    let kept = t.0.take(t.1 as int);
    lemma_fraud_votes_filter(m, kept);
    kept.lemma_filter_len(|c: Candidate| (c.1 as int) < m.n && m.labels[c.1 as int] == LABEL_FRAUD);
}

} // verus!
