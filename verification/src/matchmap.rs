//! The sliding-window match index used during compression: it answers where a
//! fixed-length byte key most recently occurred, and expires positions that
//! have fallen out of the window.

use vstd::prelude::*;
use vstd::slice::slice_to_vec;

verus! {

/// Association view of a queue of `(key, position)` records: the most
/// recently appended record for a key gives its value.
pub open spec fn assoc_map(q: Seq<(Seq<u8>, usize)>) -> Map<Seq<u8>, usize>
    decreases q.len(),
{
    if q.len() == 0 {
        Map::empty()
    } else {
        assoc_map(q.drop_last()).insert(q.last().0, q.last().1)
    }
}

/// Restriction of a position map to the keys whose position is at or after `cull`.
pub open spec fn cull_map(m: Map<Seq<u8>, usize>, cull: int) -> Map<Seq<u8>, usize> {
    Map::new(|k: Seq<u8>| m.dom().contains(k) && m[k] >= cull, |k: Seq<u8>| m[k])
}

/// Number of records at the front of the queue whose position lies before `cull`.
pub open spec fn cull_count(q: Seq<(Seq<u8>, usize)>, cull: int) -> int
    decreases q.len(),
{
    if q.len() > 0 && q[0].1 < cull {
        1 + cull_count(q.drop_first(), cull)
    } else {
        0
    }
}

/// The expired prefix is never longer than the queue itself.
pub proof fn lemma_cull_count_bounds(q: Seq<(Seq<u8>, usize)>, cull: int)
    ensures
        0 <= cull_count(q, cull) <= q.len(),
    decreases q.len(),
{
    if q.len() > 0 && q[0].1 < cull {
        lemma_cull_count_bounds(q.drop_first(), cull);
    }
}

/// Every key of the association view is carried by some queue record, with
/// the exact position the view maps it to.
pub proof fn lemma_assoc_map_records(q: Seq<(Seq<u8>, usize)>)
    ensures
        forall|k: Seq<u8>| #[trigger] assoc_map(q).dom().contains(k)
            ==> exists|i: int| 0 <= i < q.len() && q[i] == (k, assoc_map(q)[k]),
    decreases q.len(),
{
    if q.len() > 0 {
        lemma_assoc_map_records(q.drop_last());
        assert forall|k: Seq<u8>| #[trigger] assoc_map(q).dom().contains(k)
            implies exists|i: int| 0 <= i < q.len() && q[i] == (k, assoc_map(q)[k]) by {
            if k == q.last().0 {
                assert(q[q.len() - 1] == (k, assoc_map(q)[k]));
            } else {
                let i = choose|i: int|
                    0 <= i < q.drop_last().len()
                        && q.drop_last()[i] == (k, assoc_map(q.drop_last())[k]);
                assert(q[i] == (k, assoc_map(q)[k]));
            }
        }
    }
}

/// Dropping a fully-expired prefix from a position-sorted queue restricts the
/// association view to the positions at or after `cull`.
proof fn lemma_assoc_map_cull(q: Seq<(Seq<u8>, usize)>, n: int, cull: int)
    requires
        0 <= n <= q.len(),
        forall|i: int, j: int| 0 <= i < j < q.len() ==> (#[trigger] q[i]).1 < (#[trigger] q[j]).1,
        forall|i: int| 0 <= i < n ==> (#[trigger] q[i]).1 < cull,
        forall|i: int| n <= i < q.len() ==> (#[trigger] q[i]).1 >= cull,
    ensures
        assoc_map(q.skip(n)) == cull_map(assoc_map(q), cull),
    decreases q.len(),
{
    if n == q.len() {
        lemma_assoc_map_records(q);
        assert(q.skip(n) =~= Seq::<(Seq<u8>, usize)>::empty());
        assert(assoc_map(q.skip(n)) =~= cull_map(assoc_map(q), cull));
    } else {
        let qd = q.drop_last();
        lemma_assoc_map_cull(qd, n, cull);
        assert(q.skip(n).drop_last() =~= qd.skip(n));
        assert(q.skip(n).last() == q.last());
        assert(assoc_map(q.skip(n)) == assoc_map(qd.skip(n)).insert(q.last().0, q.last().1));
        assert(q[q.len() - 1].1 >= cull);
        assert(cull_map(assoc_map(qd), cull).insert(q.last().0, q.last().1)
            =~= cull_map(assoc_map(qd).insert(q.last().0, q.last().1), cull));
    }
}

/// Byte-for-byte comparison of two slices.
fn bytes_eq(a: &[u8], b: &[u8]) -> (r: bool)
    ensures
        r == (a@ == b@),
{
    if a.len() != b.len() {
        return false;
    }
    let n = a.len();
    let mut i: usize = 0;
    while i < n
        invariant
            i <= n,
            n == a@.len(),
            n == b@.len(),
            forall|j: int| 0 <= j < i ==> a@[j] == b@[j],
        decreases n - i,
    {
        if a[i] != b[i] {
            return false;
        }
        i += 1;
    }
    proof {
        assert(a@ =~= b@);
    }
    true
}

/// Sliding-window index from a fixed-length byte key to the most recent
/// position it occurred at. One vector of `(key, position)` records, kept in
/// strictly increasing position order, serves both roles the index needs: it
/// is the expiry queue (culled from the front as the window advances) and the
/// recency mapping (scanned from the back, so the latest record for a key
/// wins). Stale records for a reinserted key are not removed eagerly; they
/// are simply shadowed by the later record until they expire.
pub struct MatchMap {
    entries: Vec<(Vec<u8>, usize)>,
    max_match_offset: usize,
}

impl MatchMap {
    /// The queue of recorded `(key, position)` pairs, oldest first.
    pub closed spec fn queue_view(self) -> Seq<(Seq<u8>, usize)> {
        self.entries@.map_values(|e: (Vec<u8>, usize)| (e.0@, e.1))
    }

    /// The key-to-most-recent-position mapping.
    pub open spec fn map_view(self) -> Map<Seq<u8>, usize> {
        assoc_map(self.queue_view())
    }

    /// The largest backward distance a recorded position may lag behind the
    /// cursor before it expires.
    pub closed spec fn max_offset_spec(self) -> usize {
        self.max_match_offset
    }

    /// Positions strictly increase from the front of the queue to the back.
    pub open spec fn wf(self) -> bool {
        forall|i: int, j: int| 0 <= i < j < self.queue_view().len()
            ==> (#[trigger] self.queue_view()[i]).1 < (#[trigger] self.queue_view()[j]).1
    }

    pub fn new(max_match_offset: usize) -> (r: Self)
        ensures
            r.wf(),
            r.queue_view() == Seq::<(Seq<u8>, usize)>::empty(),
            r.map_view() == Map::<Seq<u8>, usize>::empty(),
            r.max_offset_spec() == max_match_offset,
    {
        let r = MatchMap { entries: Vec::new(), max_match_offset };
        proof {
            assert(r.queue_view() =~= Seq::<(Seq<u8>, usize)>::empty());
        }
        r
    }

    /// Records that `item` occurs at `idx`; a key recorded before keeps its
    /// old queue record but the mapping is overwritten, most recent wins.
    pub fn add_prefix(&mut self, item: &[u8], idx: usize)
        requires
            old(self).wf(),
            forall|i: int| 0 <= i < old(self).queue_view().len()
                ==> (#[trigger] old(self).queue_view()[i]).1 < idx,
        ensures
            final(self).wf(),
            final(self).queue_view() == old(self).queue_view().push((item@, idx)),
            final(self).map_view() == old(self).map_view().insert(item@, idx),
            final(self).max_offset_spec() == old(self).max_offset_spec(),
    {
        let key = slice_to_vec(item);
        self.entries.push((key, idx));
        proof {
            assert(self.queue_view() =~= old(self).queue_view().push((item@, idx)));
            assert(self.queue_view().drop_last() =~= old(self).queue_view());
        }
    }

    /// The most recent position recorded for `item`, if any.
    pub fn get_match(&self, item: &[u8]) -> (r: Option<usize>)
        ensures
            r == (if self.map_view().dom().contains(item@) {
                Some(self.map_view()[item@])
            } else {
                None::<usize>
            }),
    {
        let mut i: usize = self.entries.len();
        proof {
            assert(self.queue_view().take(i as int) =~= self.queue_view());
        }
        while i > 0
            invariant
                i <= self.entries@.len(),
                self.entries@.len() == self.queue_view().len(),
                ({
                    let full = assoc_map(self.queue_view());
                    let part = assoc_map(self.queue_view().take(i as int));
                    &&& part.dom().contains(item@) == full.dom().contains(item@)
                    &&& part.dom().contains(item@) ==> part[item@] == full[item@]
                }),
            decreases i,
        {
            let pos = i - 1;
            proof {
                assert(self.queue_view().take(i as int).last() == self.queue_view()[pos as int]);
                assert(self.queue_view().take(i as int).drop_last()
                    =~= self.queue_view().take(pos as int));
                assert(self.queue_view()[pos as int] == (self.entries@[pos as int].0@,
                    self.entries@[pos as int].1));
            }
            if bytes_eq(item, self.entries[pos].0.as_slice()) {
                return Some(self.entries[pos].1);
            }
            i = pos;
        }
        proof {
            assert(self.queue_view().take(0) =~= Seq::<(Seq<u8>, usize)>::empty());
        }
        None
    }

    /// Expires every record whose position lies more than `max_match_offset`
    /// behind `new_idx`: the fully-expired prefix leaves the queue, and a key
    /// leaves the mapping exactly when its most recent position expired.
    pub fn advance(&mut self, new_idx: usize)
        requires
            old(self).wf(),
        ensures
            final(self).wf(),
            final(self).max_offset_spec() == old(self).max_offset_spec(),
            final(self).queue_view() == old(self).queue_view().skip(
                cull_count(old(self).queue_view(), new_idx - old(self).max_offset_spec()),
            ),
            final(self).map_view() == cull_map(
                old(self).map_view(),
                new_idx - old(self).max_offset_spec(),
            ),
    {
        let ghost cull_spec: int = new_idx - self.max_match_offset;
        let cull: usize = if new_idx > self.max_match_offset {
            new_idx - self.max_match_offset
        } else {
            0
        };
        let ghost q0 = self.queue_view();
        while self.entries.len() > 0 && self.entries[0].1 < cull
            invariant
                self.max_match_offset == old(self).max_match_offset,
                cull_spec == new_idx - self.max_match_offset,
                cull as int == (if cull_spec > 0 { cull_spec } else { 0 }),
                q0 == old(self).queue_view(),
                self.queue_view().len() <= q0.len(),
                self.queue_view() == q0.skip(q0.len() - self.queue_view().len()),
                forall|i: int| 0 <= i < q0.len() - self.queue_view().len()
                    ==> (#[trigger] q0[i]).1 < cull_spec,
                cull_count(q0, cull_spec) == (q0.len() - self.queue_view().len())
                    + cull_count(self.queue_view(), cull_spec),
            decreases self.entries@.len(),
        {
            let ghost qcur = self.queue_view();
            proof {
                assert(qcur[0] == (self.entries@[0].0@, self.entries@[0].1));
            }
            self.entries.remove(0);
            proof {
                assert(self.queue_view() =~= qcur.drop_first());
                let dropped = q0.len() - qcur.len();
                assert(q0[dropped] == qcur[0]);
                assert(self.queue_view() =~= q0.skip(q0.len() - self.queue_view().len()));
            }
        }
        proof {
            let n = q0.len() - self.queue_view().len();
            if self.entries@.len() > 0 {
                assert(self.queue_view()[0] == (self.entries@[0].0@, self.entries@[0].1));
                assert(self.queue_view()[0].1 >= cull_spec);
            }
            assert(cull_count(self.queue_view(), cull_spec) == 0);
            assert(n == cull_count(q0, cull_spec));
            assert forall|i: int| n <= i < q0.len() implies (#[trigger] q0[i]).1 >= cull_spec by {
                assert(q0[i] == self.queue_view()[i - n]);
                if i > n {
                    assert(self.queue_view()[0].1 < self.queue_view()[i - n].1);
                }
            }
            lemma_assoc_map_cull(q0, n, cull_spec);
        }
    }

    /// Clears the index entirely.
    pub fn reset(&mut self)
        ensures
            final(self).wf(),
            final(self).queue_view() == Seq::<(Seq<u8>, usize)>::empty(),
            final(self).map_view() == Map::<Seq<u8>, usize>::empty(),
            final(self).max_offset_spec() == old(self).max_offset_spec(),
    {
        self.entries.clear();
        proof {
            assert(self.queue_view() =~= Seq::<(Seq<u8>, usize)>::empty());
        }
    }
}

/// Freshness law: culling at position `new_position` keeps exactly the keys
/// whose most recently recorded position still lies within
/// `max_match_offset` of `new_position`, each mapped to that same position;
/// no surviving position lies before `new_position - max_match_offset`.
pub proof fn lemma_freshness(
    m: Map<Seq<u8>, usize>,
    new_position: usize,
    max_match_offset: usize,
    key: Seq<u8>,
)
    ensures
        cull_map(m, new_position - max_match_offset).dom().contains(key) <==> (m.dom().contains(
            key,
        ) && m[key] + max_match_offset >= new_position),
        cull_map(m, new_position - max_match_offset).dom().contains(key) ==> cull_map(
            m,
            new_position - max_match_offset,
        )[key] == m[key] && m[key] + max_match_offset >= new_position,
{
}

} // verus!
