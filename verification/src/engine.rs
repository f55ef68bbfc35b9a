//! The engine facade: `set`, `get` and `remove` over the segment store and
//! the index, with recovery by replay and log compaction.
//!
//! The abstract value of the engine is the finite map from live key to
//! current value.  The central invariant is that replaying the stored
//! segments, oldest first, yields exactly that map — which is why closing the
//! engine and rebuilding the index from the segments loses nothing.

use crate::codec::{
    spec_decode_record, spec_encode_record, record_encodable, decode_record_at, encode_record,
    lemma_decode_bounds, lemma_decode_exact, lemma_decode_prefix, lemma_encode_decode, Record,
    RecordModel,
};
use crate::index::{CommandInfo, Index, lemma_assoc_map_dom};
use crate::store::{
    has_seg, ids_ascending, ids_distinct, lemma_seg_data_prefix, lemma_seg_data_suffix,
    lemma_seg_lookup, seg_data, seg_datas, seg_ids, seg_views, Segment, SegmentStore,
};
use crate::KvError;
use vstd::prelude::*;

verus! {

/// Size threshold of the active segment; reaching it triggers compaction.
pub const DEFAULT_LOG_SIZE: u64 = 64 * 1024 * 1024;

/// The effect of one record on the key-value map: a put binds the key, a
/// delete erases it.
pub open spec fn apply_record(m: Map<Seq<char>, Seq<u8>>, r: RecordModel) -> Map<
    Seq<char>,
    Seq<u8>,
> {
    match r {
        RecordModel::Put { key, value } => m.insert(key, value),
        RecordModel::Delete { key } => m.remove(key),
    }
}

/// Replaying one segment's bytes over a starting map: records are decoded
/// front to back and applied in order; `None` when the bytes do not decode.
pub open spec fn replay_bytes(m: Map<Seq<char>, Seq<u8>>, data: Seq<u8>) -> Option<
    Map<Seq<char>, Seq<u8>>,
>
    decreases data.len(),
{
    if data.len() == 0 {
        Some(m)
    } else {
        match spec_decode_record(data) {
            Option::None => None,
            Option::Some(p) => if 0 < p.1 <= data.len() {
                replay_bytes(apply_record(m, p.0), data.subrange(p.1, data.len() as int))
            } else {
                None
            },
        }
    }
}

/// Replaying a sequence of segments in order.
pub open spec fn replay_segs(m: Map<Seq<char>, Seq<u8>>, v: Seq<Seq<u8>>) -> Option<
    Map<Seq<char>, Seq<u8>>,
>
    decreases v.len(),
{
    if v.len() == 0 {
        Some(m)
    } else {
        match replay_bytes(m, v[0]) {
            Option::None => None,
            Option::Some(m2) => replay_segs(m2, v.drop_first()),
        }
    }
}

/// Full recovery: replaying every segment of a store, oldest first, starting
/// from the empty map.
pub open spec fn replay(v: Seq<(u64, Seq<u8>)>) -> Option<Map<Seq<char>, Seq<u8>>> {
    replay_segs(Map::empty(), seg_datas(v))
}

/// Appending one whole record to a segment extends its replay by that record:
/// the chunk must decode to the record and be consumed entirely.
pub proof fn lemma_replay_bytes_snoc(
    m: Map<Seq<char>, Seq<u8>>,
    data: Seq<u8>,
    chunk: Seq<u8>,
    r: RecordModel,
)
    requires
        replay_bytes(m, data) is Some,
        spec_decode_record(chunk) == Some((r, chunk.len() as int)),
        chunk.len() > 0,
    ensures
        replay_bytes(m, data + chunk) == Some(
            apply_record(replay_bytes(m, data)->Some_0, r),
        ),
    decreases data.len(),
{
    if data.len() == 0 {
        assert(data + chunk =~= chunk);
        lemma_decode_bounds(chunk);
        assert(chunk.subrange(chunk.len() as int, chunk.len() as int) =~= Seq::<u8>::empty());
        assert(replay_bytes(apply_record(m, r), Seq::<u8>::empty()) == Some(apply_record(m, r)));
        assert(replay_bytes(m, chunk) == Some(apply_record(m, r)));
    } else {
        let p = spec_decode_record(data)->Some_0;
        lemma_decode_bounds(data);
        lemma_decode_prefix(data, chunk);
        assert((data + chunk).subrange(p.1, (data + chunk).len() as int) =~= data.subrange(
            p.1,
            data.len() as int,
        ) + chunk);
        lemma_replay_bytes_snoc(
            apply_record(m, p.0),
            data.subrange(p.1, data.len() as int),
            chunk,
            r,
        );
    }
}

/// Appending one whole record to the last segment extends the replay of the
/// whole store by that record.
pub proof fn lemma_replay_segs_snoc_last(
    m: Map<Seq<char>, Seq<u8>>,
    v: Seq<Seq<u8>>,
    chunk: Seq<u8>,
    r: RecordModel,
)
    requires
        replay_segs(m, v) is Some,
        v.len() > 0,
        spec_decode_record(chunk) == Some((r, chunk.len() as int)),
        chunk.len() > 0,
    ensures
        replay_segs(m, v.update(v.len() - 1, v.last() + chunk)) == Some(
            apply_record(replay_segs(m, v)->Some_0, r),
        ),
    decreases v.len(),
{
    let w = v.update(v.len() - 1, v.last() + chunk);
    if v.len() == 1 {
        lemma_replay_bytes_snoc(m, v[0], chunk, r);
        assert(w[0] == v[0] + chunk);
        assert(w.drop_first() =~= Seq::<Seq<u8>>::empty());
        assert(v.drop_first() =~= Seq::<Seq<u8>>::empty());
        let m2 = replay_bytes(m, v[0])->Some_0;
        assert(replay_segs(m2, Seq::<Seq<u8>>::empty()) == Some(m2));
        assert(replay_segs(apply_record(m2, r), Seq::<Seq<u8>>::empty()) == Some(
            apply_record(m2, r),
        ));
        assert(replay_segs(m, w) == Some(apply_record(m2, r)));
    } else {
        assert(w[0] == v[0]);
        let m2 = replay_bytes(m, v[0])->Some_0;
        lemma_replay_segs_snoc_last(m2, v.drop_first(), chunk, r);
        assert(w.drop_first() =~= v.drop_first().update(v.drop_first().len() - 1, v.last() + chunk));
    }
}

/// An index entry is consistent with the stored segments: it points into a
/// segment the store holds, at a byte range that decodes as exactly one put
/// record carrying this key.
pub open spec fn entry_valid(v: Seq<(u64, Seq<u8>)>, k: Seq<char>, e: CommandInfo) -> bool {
    &&& has_seg(v, e.log_idx)
    &&& e.pos + e.len <= seg_data(v, e.log_idx).len()
    &&& match spec_decode_record(
        seg_data(v, e.log_idx).subrange(e.pos as int, e.pos as int + e.len as int),
    ) {
        Option::Some(p) => match p.0 {
            RecordModel::Put { key, value } => p.1 == e.len as int && key == k,
            RecordModel::Delete { .. } => false,
        },
        Option::None => false,
    }
}

/// The value an index entry points at.
pub open spec fn entry_value(v: Seq<(u64, Seq<u8>)>, e: CommandInfo) -> Seq<u8> {
    match spec_decode_record(
        seg_data(v, e.log_idx).subrange(e.pos as int, e.pos as int + e.len as int),
    ) {
        Option::Some(p) => match p.0 {
            RecordModel::Put { key, value } => value,
            RecordModel::Delete { .. } => Seq::empty(),
        },
        Option::None => Seq::empty(),
    }
}

/// The key-value map an index describes over a store: each indexed key bound
/// to the payload its entry points at.
pub open spec fn kv_view(v: Seq<(u64, Seq<u8>)>, m: Map<Seq<char>, CommandInfo>) -> Map<
    Seq<char>,
    Seq<u8>,
> {
    Map::new(|k: Seq<char>| m.contains_key(k), |k: Seq<char>| entry_value(v, m[k]))
}

/// An index entry only depends on its own segment: wherever that segment is
/// held with the same contents, the entry stays valid with the same value.
pub proof fn lemma_entry_transfer(
    v: Seq<(u64, Seq<u8>)>,
    w: Seq<(u64, Seq<u8>)>,
    k: Seq<char>,
    e: CommandInfo,
)
    requires
        entry_valid(v, k, e),
        has_seg(w, e.log_idx),
        seg_data(w, e.log_idx) == seg_data(v, e.log_idx),
    ensures
        entry_valid(w, k, e),
        entry_value(w, e) == entry_value(v, e),
{
}

/// What one compaction did to the segment files: which segments to delete,
/// the id and full contents of the compacted output segment, and the id of
/// the fresh, empty active segment.
pub struct CompactionEffect {
    pub stale_idxs: Vec<u64>,
    pub output_idx: u64,
    pub output_data: Vec<u8>,
    pub new_active_idx: u64,
}

/// What one write did to the segment files: the encoded record bytes appended
/// to the segment with id `log_idx` at byte offset `offset`, followed, when
/// the size threshold was reached, by a compaction.
pub struct WriteEffect {
    pub log_idx: u64,
    pub offset: u64,
    pub bytes: Vec<u8>,
    pub compaction: Option<CompactionEffect>,
}

/// What a write did to the segment files, phrased over the engine states
/// around it.  Without compaction, the store only gained the appended bytes
/// at the end of the active segment (and the threshold was not reached, save
/// when the id space is exhausted).  With compaction, exactly the reported
/// output and active segments remain, the stale ids are all the ids from
/// before, and the output segment alone replays to the engine's whole map.
pub open spec fn write_effect_ok(pre: KVDB, post: KVDB, eff: WriteEffect) -> bool {
    match eff.compaction {
        Option::None => {
            &&& post.store@ == pre.store@.update(
                pre.store@.len() - 1,
                (pre.cur_log_idx, pre.store@.last().1 + eff.bytes@),
            )
            &&& post.cur_log_idx == pre.cur_log_idx
            &&& (pre.store@.last().1.len() + eff.bytes@.len() < pre.log_size || pre.cur_log_idx
                + 2 > u64::MAX)
        },
        Option::Some(ce) => {
            &&& pre.store@.last().1.len() + eff.bytes@.len() >= pre.log_size
            &&& pre.cur_log_idx + 2 <= u64::MAX
            &&& ce.output_idx == pre.cur_log_idx + 1
            &&& ce.new_active_idx == pre.cur_log_idx + 2
            &&& post.cur_log_idx == pre.cur_log_idx + 2
            &&& ce.stale_idxs@ == seg_ids(pre.store@)
            &&& post.store@ == seq![
                (ce.output_idx, ce.output_data@),
                (ce.new_active_idx, Seq::<u8>::empty()),
            ]
            &&& replay_bytes(Map::<Seq<char>, Seq<u8>>::empty(), ce.output_data@) == Some(post@)
        },
    }
}

/// The key-value storage engine.
pub struct KVDB {
    pub store: SegmentStore,
    pub index: Index,
    pub cur_log_idx: u64,
    pub log_size: u64,
}

impl View for KVDB {
    type V = Map<Seq<char>, Seq<u8>>;

    open spec fn view(&self) -> Map<Seq<char>, Seq<u8>> {
        kv_view(self.store@, self.index@)
    }
}

impl KVDB {
    /// The engine's invariant: the store and index are well formed, every
    /// index entry points at a put record carrying its key, and replaying the
    /// stored segments yields exactly the engine's current map.
    pub open spec fn wf(&self) -> bool {
        &&& self.store.wf()
        &&& self.index.inv()
        &&& self.cur_log_idx == self.store.active_idx()
        &&& forall|k: Seq<char>| #[trigger]
            self.index@.contains_key(k) ==> entry_valid(self.store@, k, self.index@[k])
        &&& replay(self.store@) == Some(self@)
    }

    /// A fresh engine over a newly created directory: a single empty segment
    /// with id 0, an empty index, and the default compaction threshold.
    pub fn new() -> (db: KVDB)
        ensures
            db.wf(),
            db@ == Map::<Seq<char>, Seq<u8>>::empty(),
            db.store@ =~= seq![(0u64, Seq::<u8>::empty())],
            db.log_size == DEFAULT_LOG_SIZE,
    {
        let db = KVDB {
            store: SegmentStore::create(),
            index: Index::new(),
            cur_log_idx: 0,
            log_size: DEFAULT_LOG_SIZE,
        };
        proof {
            let m0 = Map::<Seq<char>, Seq<u8>>::empty();
            assert(seg_datas(db.store@) =~= seq![Seq::<u8>::empty()]);
            assert(seg_datas(db.store@).drop_first() =~= Seq::<Seq<u8>>::empty());
            assert(replay_bytes(m0, Seq::<u8>::empty()) == Some(m0));
            assert(replay_segs(m0, Seq::<Seq<u8>>::empty()) == Some(m0));
            assert(replay(db.store@) == Some(m0));
            assert(db@ =~= Map::<Seq<char>, Seq<u8>>::empty());
        }
        db
    }

    /// Inserting a segment at its ordered position keeps the ids ascending,
    /// and the witness map recording where each element came from extends by
    /// the new element's position.
    proof fn lemma_sorted_insert(
        presorted: Seq<Segment>,
        s: Segment,
        p: int,
        orig: Seq<Segment>,
        i: int,
        wit: Seq<int>,
    )
        requires
            0 <= i < orig.len(),
            0 <= p <= presorted.len(),
            presorted.len() == i,
            s == orig[i],
            ids_ascending(seg_views(presorted)),
            forall|q: int| 0 <= q < p ==> (#[trigger] presorted[q]).log_idx < s.log_idx,
            p < presorted.len() ==> presorted[p].log_idx > s.log_idx,
            wit.len() == presorted.len(),
            forall|q: int|
                0 <= q < presorted.len() ==> 0 <= #[trigger] wit[q] < i && presorted[q]
                    == orig[wit[q]],
        ensures
            ids_ascending(seg_views(presorted.insert(p, s))),
            wit.insert(p, i).len() == presorted.insert(p, s).len(),
            forall|q: int|
                0 <= q < presorted.insert(p, s).len() ==> 0 <= #[trigger] wit.insert(p, i)[q] < i
                    + 1 && presorted.insert(p, s)[q] == orig[wit.insert(p, i)[q]],
    {
        let t = presorted.insert(p, s);
        let w = wit.insert(p, i);
        assert forall|q: int| p <= q < presorted.len() implies s.log_idx < (
        #[trigger] presorted[q]).log_idx by {
            assert(seg_views(presorted)[q].0 == presorted[q].log_idx);
            if q > p {
                assert(seg_views(presorted)[p].0 == presorted[p].log_idx);
                assert(seg_views(presorted)[p].0 < seg_views(presorted)[q].0);
            }
        }
        assert forall|a: int, b: int| 0 <= a < b < t.len() implies seg_views(t)[a].0 < seg_views(
            t,
        )[b].0 by {
            assert(seg_views(t)[a].0 == t[a].log_idx);
            assert(seg_views(t)[b].0 == t[b].log_idx);
            if a < p && b < p {
                assert(seg_views(presorted)[a].0 == presorted[a].log_idx);
                assert(seg_views(presorted)[b].0 == presorted[b].log_idx);
                assert(seg_views(presorted)[a].0 < seg_views(presorted)[b].0);
            }
            if a > p && b > p {
                assert(seg_views(presorted)[a - 1].0 == presorted[a - 1].log_idx);
                assert(seg_views(presorted)[b - 1].0 == presorted[b - 1].log_idx);
                assert(seg_views(presorted)[a - 1].0 < seg_views(presorted)[b - 1].0);
            }
        }
        assert forall|q: int| 0 <= q < t.len() implies 0 <= #[trigger] w[q] < i + 1 && t[q]
            == orig[w[q]] by {
            if q < p {
                assert(w[q] == wit[q]);
                assert(t[q] == presorted[q]);
            } else if q > p {
                assert(w[q] == wit[q - 1]);
                assert(t[q] == presorted[q - 1]);
            } else {
                assert(w[q] == i);
                assert(t[q] == orig[i]);
            }
        }
    }

    /// Sorts segments into ascending id order — creation order, which is the
    /// recency order recovery depends on — refusing a duplicated id.  Every
    /// segment of the result is one of the given segments; input that is
    /// already in ascending order comes back unchanged.
    fn sort_segments(segments: Vec<Segment>) -> (r: Result<Vec<Segment>, KvError>)
        ensures
            match r {
                Result::Ok(sorted) => {
                    &&& sorted@.len() == segments@.len()
                    &&& ids_ascending(seg_views(sorted@))
                    &&& forall|p: int| #![trigger sorted@[p]]
                        0 <= p < sorted@.len() ==> exists|j: int|
                            0 <= j < segments@.len() && sorted@[p] == #[trigger] segments@[j]
                    &&& ids_ascending(seg_views(segments@)) ==> sorted@ == segments@
                },
                Result::Err(e) => e == KvError::Corrupt && !ids_distinct(seg_views(segments@)),
            },
            ids_distinct(seg_views(segments@)) ==> r is Ok,
    {
        let ghost orig = segments@;
        let mut rest = segments;
        let mut sorted: Vec<Segment> = Vec::new();
        let ghost mut i: int = 0;
        let ghost mut wit: Seq<int> = Seq::empty();
        while rest.len() > 0
            invariant
                orig == segments@,
                0 <= i <= orig.len(),
                rest@ =~= orig.subrange(i, orig.len() as int),
                sorted@.len() == i,
                ids_ascending(seg_views(sorted@)),
                wit.len() == i,
                forall|p: int|
                    0 <= p < sorted@.len() ==> 0 <= #[trigger] wit[p] < i && sorted@[p]
                        == orig[wit[p]],
                ids_ascending(seg_views(orig)) ==> sorted@ =~= orig.subrange(0, i),
            decreases rest@.len(),
        {
            let s = rest.remove(0);
            proof {
                assert(s == orig[i]);
                assert(rest@ =~= orig.subrange(i + 1, orig.len() as int));
            }
            let slen = sorted.len();
            let mut p: usize = 0;
            while p < slen && sorted[p].log_idx < s.log_idx
                invariant
                    0 <= p <= slen,
                    slen == sorted@.len(),
                    forall|q: int| 0 <= q < p ==> (#[trigger] sorted@[q]).log_idx < s.log_idx,
                decreases slen - p,
            {
                p += 1;
            }
            if p < slen && sorted[p].log_idx == s.log_idx {
                proof {
                    let j = wit[p as int];
                    assert(sorted@[p as int] == orig[j]);
                    assert(seg_views(orig)[j].0 == seg_views(orig)[i].0);
                    assert(!ids_distinct(seg_views(orig)));
                }
                return Result::Err(KvError::Corrupt);
            }
            let ghost presorted = sorted@;
            proof {
                Self::lemma_sorted_insert(presorted, s, p as int, orig, i, wit);
            }
            sorted.insert(p, s);
            proof {
                assert(sorted@ == presorted.insert(p as int, s));
                wit = wit.insert(p as int, i);
                if ids_ascending(seg_views(orig)) {
                    if p < slen {
                        let j = wit[p as int + 1];
                        assert(presorted[p as int] == orig[j]);
                        assert(seg_views(orig)[j].0 < seg_views(orig)[i].0);
                        assert(false);
                    }
                    assert(sorted@ =~= orig.subrange(0, i + 1));
                }
                i = i + 1;
            }
        }
        proof {
            assert(sorted@.len() == orig.len());
            assert(orig.subrange(0, orig.len() as int) =~= orig);
            assert forall|p: int| #![trigger sorted@[p]]
                0 <= p < sorted@.len() implies exists|j: int|
                0 <= j < orig.len() && sorted@[p] == #[trigger] orig[j] by {
                let j = wit[p];
                assert(sorted@[p] == orig[j]);
            }
        }
        Result::Ok(sorted)
    }

    /// Replays the records of one segment into the index, in file order: a
    /// put points the index at the record, a delete erases the key — last
    /// write wins.  A segment with zero records makes no index update.
    fn load(&mut self, si: usize) -> (r: Result<(), KvError>)
        requires
            old(self).store.wf(),
            old(self).index.inv(),
            si < old(self).store@.len(),
            forall|k: Seq<char>| #[trigger]
                old(self).index@.contains_key(k) ==> entry_valid(
                    old(self).store@,
                    k,
                    old(self).index@[k],
                ),
        ensures
            final(self).store == old(self).store,
            final(self).cur_log_idx == old(self).cur_log_idx,
            final(self).log_size == old(self).log_size,
            final(self).index.inv(),
            forall|k: Seq<char>| #[trigger]
                final(self).index@.contains_key(k) ==> entry_valid(
                    final(self).store@,
                    k,
                    final(self).index@[k],
                ),
            match r {
                Result::Ok(u) => replay_bytes(
                    kv_view(old(self).store@, old(self).index@),
                    old(self).store@[si as int].1,
                ) == Some(kv_view(final(self).store@, final(self).index@)),
                Result::Err(e) => e == KvError::Corrupt && replay_bytes(
                    kv_view(old(self).store@, old(self).index@),
                    old(self).store@[si as int].1,
                ) is None,
            },
    {
        let ghost sv = self.store@;
        let ghost kv0 = kv_view(sv, self.index@);
        let seg_id = self.store.segments[si].log_idx;
        proof {
            lemma_seg_lookup(sv, si as int);
        }
        let dlen = self.store.segments[si].data.len();
        let ghost dat = sv[si as int].1;
        proof {
            assert(dat.subrange(0, dlen as int) =~= dat);
        }
        let mut pos: usize = 0;
        while pos < dlen
            invariant
                0 <= pos <= dlen,
                si < sv.len(),
                self.store == old(self).store,
                self.store@ == sv,
                self.store.wf(),
                self.cur_log_idx == old(self).cur_log_idx,
                self.log_size == old(self).log_size,
                dat == sv[si as int].1,
                dlen == dat.len(),
                seg_id == sv[si as int].0,
                seg_data(sv, seg_id) == dat,
                has_seg(sv, seg_id),
                kv0 == kv_view(sv, old(self).index@),
                self.index.inv(),
                forall|k: Seq<char>| #[trigger]
                    self.index@.contains_key(k) ==> entry_valid(sv, k, self.index@[k]),
                replay_bytes(kv0, dat) == replay_bytes(
                    kv_view(sv, self.index@),
                    dat.subrange(pos as int, dlen as int),
                ),
            decreases dlen - pos,
        {
            let ghost kvc = kv_view(sv, self.index@);
            let ghost tail = dat.subrange(pos as int, dlen as int);
            match decode_record_at(&self.store.segments[si].data, pos) {
                None => {
                    proof {
                        assert(replay_bytes(kv0, dat) is None);
                    }
                    return Result::Err(KvError::Corrupt);
                },
                Some(p) => {
                    let next = p.1;
                    let ghost rm = p.0@;
                    proof {
                        lemma_decode_bounds(tail);
                        lemma_decode_exact(tail);
                        assert(tail.subrange(0, next - pos) =~= dat.subrange(
                            pos as int,
                            next as int,
                        ));
                        assert(tail.subrange(next - pos, tail.len() as int) =~= dat.subrange(
                            next as int,
                            dlen as int,
                        ));
                    }
                    match p.0 {
                        Record::Put(key, value) => {
                            let info = CommandInfo {
                                log_idx: seg_id,
                                pos: pos as u64,
                                len: (next - pos) as u64,
                            };
                            proof {
                                assert(entry_valid(sv, key@, info));
                                assert(entry_value(sv, info) == value@);
                            }
                            self.index.insert(key, info);
                            proof {
                                assert(kv_view(sv, self.index@) =~= apply_record(kvc, rm));
                            }
                        },
                        Record::Delete(key) => {
                            self.index.remove(&key);
                            proof {
                                assert(kv_view(sv, self.index@) =~= apply_record(kvc, rm));
                            }
                        },
                    }
                    proof {
                        assert(replay_bytes(kvc, tail) == replay_bytes(
                            apply_record(kvc, rm),
                            dat.subrange(next as int, dlen as int),
                        ));
                    }
                    pos = next;
                },
            }
        }
        proof {
            assert(dat.subrange(dlen as int, dlen as int) =~= Seq::<u8>::empty());
            let kvn = kv_view(sv, self.index@);
            assert(replay_bytes(kvn, Seq::<u8>::empty()) == Some(kvn));
            assert(replay_bytes(kv0, dat) == Some(kvn));
        }
        Result::Ok(())
    }

    /// Opens an engine over the segments found in an existing directory, in
    /// any order: sorts them by id, then rebuilds the index by replaying
    /// every record, oldest segment first — last write wins.  Fails when two
    /// segments carry one id or when some segment's bytes do not decode; a
    /// segment with zero records is fine.
    pub fn open(segments: Vec<Segment>) -> (r: Result<KVDB, KvError>)
        ensures
            match r {
                Result::Ok(db) => {
                    &&& db.wf()
                    &&& db.log_size == DEFAULT_LOG_SIZE
                    &&& replay(db.store@) == Some(db@)
                    &&& segments@.len() == 0 ==> db.store@ =~= seq![(0u64, Seq::<u8>::empty())]
                    &&& segments@.len() > 0 ==> {
                        &&& db.store@.len() == segments@.len()
                        &&& forall|p: int| #![trigger db.store@[p]]
                            0 <= p < db.store@.len() ==> exists|j: int|
                                0 <= j < segments@.len() && db.store@[p] == #[trigger] seg_views(
                                    segments@,
                                )[j]
                        &&& ids_ascending(seg_views(segments@)) ==> db.store@ == seg_views(
                            segments@,
                        )
                    }
                },
                Result::Err(e) => {
                    &&& e == KvError::Corrupt
                    &&& segments@.len() > 0
                    &&& (ids_distinct(seg_views(segments@)) && ids_ascending(
                        seg_views(segments@),
                    )) ==> replay(seg_views(segments@)) is None
                },
            },
            (ids_distinct(seg_views(segments@)) && ids_ascending(seg_views(segments@)) && replay(
                seg_views(segments@),
            ) is Some) ==> r is Ok,
    {
        let ghost orig = segments@;
        if segments.is_empty() {
            return Result::Ok(KVDB::new());
        }
        let sorted = match Self::sort_segments(segments) {
            Result::Ok(sorted) => sorted,
            Result::Err(e) => {
                return Result::Err(e);
            },
        };
        proof {
            assert forall|p: int| #![trigger seg_views(sorted@)[p]]
                0 <= p < seg_views(sorted@).len() implies exists|j: int|
                0 <= j < orig.len() && seg_views(sorted@)[p] == #[trigger] seg_views(orig)[j] by {
                assert(sorted@[p] == sorted@[p]);
                let j = choose|j: int| 0 <= j < orig.len() && sorted@[p] == #[trigger] orig[j];
                assert(seg_views(sorted@)[p] == seg_views(orig)[j]);
            }
        }

        // Designate the newest segment as active and rebuild the index by
        // replay.
        let last = sorted.len() - 1;
        let cur = sorted[last].log_idx;
        let mut db = KVDB {
            store: SegmentStore { segments: sorted },
            index: Index::new(),
            cur_log_idx: cur,
            log_size: DEFAULT_LOG_SIZE,
        };
        let ghost sv = db.store@;
        let ghost m0 = Map::<Seq<char>, Seq<u8>>::empty();
        proof {
            assert(db.store.wf());
            assert(seg_datas(sv).subrange(0, sv.len() as int) =~= seg_datas(sv));
            assert(kv_view(sv, db.index@) =~= m0);
        }
        let nseg = db.store.segments.len();
        let mut si: usize = 0;
        while si < nseg
            invariant
                0 <= si <= nseg,
                nseg == sv.len(),
                m0 == Map::<Seq<char>, Seq<u8>>::empty(),
                orig == segments@,
                orig.len() > 0,
                sv.len() > 0,
                db.store@ == sv,
                db.store.wf(),
                db.cur_log_idx == cur,
                cur == sv.last().0,
                db.log_size == DEFAULT_LOG_SIZE,
                db.index.inv(),
                forall|k: Seq<char>| #[trigger]
                    db.index@.contains_key(k) ==> entry_valid(sv, k, db.index@[k]),
                replay_segs(m0, seg_datas(sv)) == replay_segs(
                    kv_view(sv, db.index@),
                    seg_datas(sv).subrange(si as int, sv.len() as int),
                ),
                ids_ascending(seg_views(orig)) && ids_distinct(seg_views(orig)) ==> sv
                    == seg_views(orig),
            decreases nseg - si,
        {
            let ghost kvc = kv_view(sv, db.index@);
            let ghost tl = seg_datas(sv).subrange(si as int, sv.len() as int);
            match db.load(si) {
                Result::Ok(u) => {
                    proof {
                        let kvn = kv_view(sv, db.index@);
                        assert(tl[0] == sv[si as int].1);
                        assert(tl.drop_first() =~= seg_datas(sv).subrange(
                            si + 1,
                            sv.len() as int,
                        ));
                        assert(replay_segs(kvc, tl) == replay_segs(
                            kvn,
                            seg_datas(sv).subrange(si + 1, sv.len() as int),
                        ));
                    }
                },
                Result::Err(e) => {
                    proof {
                        assert(tl[0] == sv[si as int].1);
                        assert(replay_segs(kvc, tl) is None);
                        assert(replay(sv) is None);
                    }
                    return Result::Err(KvError::Corrupt);
                },
            }
            si += 1;
        }
        proof {
            let kvn = kv_view(sv, db.index@);
            assert(seg_datas(sv).subrange(sv.len() as int, sv.len() as int) =~= Seq::<
                Seq<u8>,
            >::empty());
            assert(replay_segs(kvn, Seq::<Seq<u8>>::empty()) == Some(kvn));
            assert(replay(sv) == Some(db@));
            assert(db.wf());
        }
        Result::Ok(db)
    }

    /// Changes the compaction threshold: once the active segment's size
    /// reaches it, the next write triggers compaction.
    pub fn set_log_size(&mut self, log_size: u64)
        requires
            old(self).wf(),
        ensures
            final(self).wf(),
            final(self)@ == old(self)@,
            final(self).log_size == log_size,
            final(self).store@ == old(self).store@,
    {
        self.log_size = log_size;
    }

    /// Appends one encoded record to the active segment, leaving the index
    /// untouched.  Every existing entry keeps pointing at the same bytes, and
    /// the replay of the store advances by exactly this record.
    fn append_record(&mut self, rec: &Record) -> (r: (u64, u64, Vec<u8>))
        requires
            old(self).wf(),
        ensures
            final(self).store.wf(),
            final(self).index == old(self).index,
            final(self).cur_log_idx == old(self).cur_log_idx,
            final(self).log_size == old(self).log_size,
            record_encodable(rec@),
            r.2@ == spec_encode_record(rec@),
            r.0 == old(self).store@.last().1.len(),
            r.1 == r.2@.len(),
            9 <= r.2@.len(),
            final(self).store.active_idx() == old(self).cur_log_idx,
            final(self).store@ =~= old(self).store@.update(
                old(self).store@.len() - 1,
                (old(self).cur_log_idx, old(self).store@.last().1 + r.2@),
            ),
            seg_data(final(self).store@, old(self).cur_log_idx) == old(self).store@.last().1
                + r.2@,
            forall|k: Seq<char>| #[trigger]
                old(self).index@.contains_key(k) ==> entry_valid(
                    final(self).store@,
                    k,
                    old(self).index@[k],
                ) && entry_value(final(self).store@, old(self).index@[k]) == entry_value(
                    old(self).store@,
                    old(self).index@[k],
                ),
            replay(final(self).store@) == Some(apply_record(old(self)@, rec@)),
    {
        let bytes = encode_record(rec);
        let (offset, blen) = self.store.append(bytes.as_slice());
        proof {
            let oldv = old(self).store@;
            let w = self.store@;
            let enc = spec_encode_record(rec@);
            let n = oldv.len() as int;
            lemma_encode_decode(rec@);
            lemma_decode_bounds(enc);
            assert(w =~= oldv.update(n - 1, (old(self).cur_log_idx, oldv.last().1 + enc)));
            lemma_seg_lookup(w, n - 1);
            assert(seg_data(w, old(self).cur_log_idx) == oldv.last().1 + enc);
            assert forall|k: Seq<char>| #[trigger]
                old(self).index@.contains_key(k) implies entry_valid(
                w,
                k,
                old(self).index@[k],
            ) && entry_value(w, old(self).index@[k]) == entry_value(
                oldv,
                old(self).index@[k],
            ) by {
                let e = old(self).index@[k];
                let i = choose|i: int| 0 <= i < oldv.len() && oldv[i].0 == e.log_idx;
                lemma_seg_lookup(oldv, i);
                lemma_seg_lookup(w, i);
                if i < n - 1 {
                    assert(w[i] == oldv[i]);
                } else {
                    assert(seg_data(w, e.log_idx) == oldv.last().1 + enc);
                    assert((oldv.last().1 + enc).subrange(
                        e.pos as int,
                        e.pos as int + e.len as int,
                    ) =~= oldv.last().1.subrange(e.pos as int, e.pos as int + e.len as int));
                }
            }
            assert(seg_datas(w) =~= seg_datas(oldv).update(n - 1, oldv.last().1 + enc));
            assert(seg_datas(oldv).last() == oldv.last().1);
            lemma_replay_segs_snoc_last(
                Map::<Seq<char>, Seq<u8>>::empty(),
                seg_datas(oldv),
                enc,
                rec@,
            );
            assert(replay(w) == Some(apply_record(old(self)@, rec@)));
        }
        (offset, blen, bytes)
    }

    /// Persists a key/value pair: appends a put record to the active segment
    /// and points the index at it, overwriting any prior entry without a read
    /// before the write.  Once this returns, a `get` of the key observes the
    /// new value.
    pub fn set(&mut self, k: String, v: Vec<u8>) -> (eff: WriteEffect)
        requires
            old(self).wf(),
        ensures
            final(self).wf(),
            final(self)@ == old(self)@.insert(k@, v@),
            eff.log_idx == old(self).cur_log_idx,
            eff.offset == old(self).store@.last().1.len(),
            eff.bytes@ == spec_encode_record(RecordModel::Put { key: k@, value: v@ }),
            write_effect_ok(*old(self), *final(self), eff),
    {
        let ghost kview = k@;
        let ghost vview = v@;
        let log_idx = self.cur_log_idx;
        let rec = Record::Put(k.clone(), v);
        let (offset, blen, bytes) = self.append_record(&rec);
        let info = CommandInfo { log_idx: self.cur_log_idx, pos: offset, len: blen };
        self.index.insert(k, info);
        proof {
            self.lemma_after_put(*old(self), rec@, info, kview, vview);
        }
        let ghost mid = *self;
        let compaction = self.check_log_size();
        proof {
            assert(seg_ids(mid.store@) =~= seg_ids(old(self).store@));
            assert(mid.store@.last().1.len() == old(self).store@.last().1.len() + bytes@.len());
        }
        WriteEffect { log_idx, offset, bytes, compaction }
    }

    /// Erases a key: appends a delete record (the tombstone recovery replays)
    /// and drops the key's index entry.  Removing an absent key is a benign
    /// no-op with no index change.
    pub fn remove(&mut self, k: &String) -> (eff: WriteEffect)
        requires
            old(self).wf(),
        ensures
            final(self).wf(),
            final(self)@ == old(self)@.remove(k@),
            eff.log_idx == old(self).cur_log_idx,
            eff.offset == old(self).store@.last().1.len(),
            eff.bytes@ == spec_encode_record(RecordModel::Delete { key: k@ }),
            write_effect_ok(*old(self), *final(self), eff),
    {
        let log_idx = self.cur_log_idx;
        let rec = Record::Delete(k.clone());
        let (offset, blen, bytes) = self.append_record(&rec);
        self.index.remove(k);
        proof {
            let w = self.store@;
            assert forall|k2: Seq<char>| #[trigger]
                self.index@.contains_key(k2) implies entry_valid(w, k2, self.index@[k2]) by {
                assert(old(self).index@.contains_key(k2));
                assert(self.index@[k2] == old(self).index@[k2]);
            }
            assert(self@ =~= old(self)@.remove(k@)) by {
                assert forall|k2: Seq<char>| #[trigger]
                    self.index@.contains_key(k2) implies entry_value(w, self.index@[k2])
                    == entry_value(old(self).store@, old(self).index@[k2]) by {
                    assert(old(self).index@.contains_key(k2));
                }
            }
            assert(replay(w) == Some(self@));
        }
        let ghost mid = *self;
        let compaction = self.check_log_size();
        proof {
            assert(seg_ids(mid.store@) =~= seg_ids(old(self).store@));
            assert(mid.store@.last().1.len() == old(self).store@.last().1.len() + bytes@.len());
        }
        WriteEffect { log_idx, offset, bytes, compaction }
    }

    /// The shared tail of `set`: with the put record appended and the index
    /// pointed at it, the engine is well formed again and its map gained the
    /// binding.
    proof fn lemma_after_put(
        &self,
        pre: KVDB,
        r: RecordModel,
        info: CommandInfo,
        kview: Seq<char>,
        vview: Seq<u8>,
    )
        requires
            pre.wf(),
            r == (RecordModel::Put { key: kview, value: vview }),
            record_encodable(r),
            self.store.wf(),
            self.cur_log_idx == pre.cur_log_idx,
            self.store.active_idx() == pre.cur_log_idx,
            self.index.inv(),
            self.index@ == pre.index@.insert(kview, info),
            info.log_idx == pre.cur_log_idx,
            info.pos == pre.store@.last().1.len(),
            info.len == spec_encode_record(r).len(),
            seg_data(self.store@, pre.cur_log_idx) == pre.store@.last().1 + spec_encode_record(r),
            forall|k: Seq<char>| #[trigger]
                pre.index@.contains_key(k) ==> entry_valid(self.store@, k, pre.index@[k])
                    && entry_value(self.store@, pre.index@[k]) == entry_value(
                    pre.store@,
                    pre.index@[k],
                ),
            replay(self.store@) == Some(apply_record(pre@, r)),
        ensures
            self.wf(),
            self@ == pre@.insert(kview, vview),
    {
        let w = self.store@;
        let enc = spec_encode_record(r);
        lemma_encode_decode(r);
        lemma_decode_bounds(enc);
        assert(seg_data(w, info.log_idx).subrange(
            info.pos as int,
            info.pos as int + info.len as int,
        ) =~= enc);
        assert(entry_valid(w, kview, info));
        assert(entry_value(w, info) == vview);
        assert forall|k2: Seq<char>| #[trigger]
            self.index@.contains_key(k2) implies entry_valid(w, k2, self.index@[k2]) by {
            if k2 != kview {
                assert(pre.index@.contains_key(k2));
                assert(self.index@[k2] == pre.index@[k2]);
            }
        }
        assert(self@ =~= pre@.insert(kview, vview)) by {
            assert forall|k2: Seq<char>| k2 != kview && #[trigger]
                self.index@.contains_key(k2) implies entry_value(w, self.index@[k2]) == entry_value(
                pre.store@,
                pre.index@[k2],
            ) by {
                assert(pre.index@.contains_key(k2));
            }
        }
        assert(replay(w) == Some(self@));
    }

    /// Compaction: rewrites every live record into a fresh output segment
    /// with id `old+1`, retargets the index at the new locations, makes a new
    /// empty segment `old+2` the active one, and deletes every segment that
    /// existed before.  The two-step id increment keeps the new active
    /// segment's id above everything recovery might still find.
    fn compact(&mut self) -> (c: CompactionEffect)
        requires
            old(self).wf(),
            old(self).cur_log_idx + 2 <= u64::MAX,
        ensures
            final(self).wf(),
            final(self)@ == old(self)@,
            final(self).log_size == old(self).log_size,
            c.output_idx == old(self).cur_log_idx + 1,
            c.new_active_idx == old(self).cur_log_idx + 2,
            final(self).cur_log_idx == old(self).cur_log_idx + 2,
            c.stale_idxs@ == seg_ids(old(self).store@),
            final(self).store@ =~= seq![
                (c.output_idx, c.output_data@),
                (c.new_active_idx, Seq::<u8>::empty()),
            ],
            replay_bytes(Map::<Seq<char>, Seq<u8>>::empty(), c.output_data@) == Some(
                old(self)@,
            ),
    {
        let ghost m0 = Map::<Seq<char>, Seq<u8>>::empty();
        let ghost v0 = old(self).store@;
        let ghost bign = v0.len() as int;
        let old_idx = self.cur_log_idx;

        // Remember which segments existed; all of them become stale.
        let nseg = self.store.segments.len();
        let mut stale_idxs: Vec<u64> = Vec::new();
        let mut si: usize = 0;
        while si < nseg
            invariant
                nseg == self.store.segments@.len(),
                0 <= si <= nseg,
                *self == *old(self),
                stale_idxs@ =~= seg_ids(self.store@).subrange(0, si as int),
            decreases nseg - si,
        {
            stale_idxs.push(self.store.segments[si].log_idx);
            proof {
                assert(stale_idxs@ =~= seg_ids(self.store@).subrange(0, si + 1));
            }
            si += 1;
        }
        proof {
            assert(stale_idxs@ =~= seg_ids(v0));
        }

        // Create the output segment and copy every live record into it,
        // rebuilding the index to point at the copies.
        self.store.rotate_to(old_idx + 1);
        let n = self.index.len();
        let mut new_index = Index::new();
        let mut i: usize = 0;
        while i < n
            invariant
                old(self).wf(),
                old(self).cur_log_idx + 2 <= u64::MAX,
                old_idx == old(self).cur_log_idx,
                v0 == old(self).store@,
                bign == v0.len() as int,
                self.index == old(self).index,
                self.cur_log_idx == old_idx,
                self.log_size == old(self).log_size,
                n == self.index.entries().len(),
                0 <= i <= n,
                self.store.wf(),
                self.store@.len() == bign + 1,
                forall|j: int| 0 <= j < bign ==> self.store@[j] == v0[j],
                self.store@.last().0 == old_idx + 1,
                new_index.inv(),
                new_index.entries().len() == i,
                forall|j: int| #![trigger new_index.entries()[j]]
                    0 <= j < i ==> new_index.entries()[j].0 == self.index.entries()[j].0,
                forall|k: Seq<char>| #[trigger]
                    new_index@.contains_key(k) ==> old(self).index@.contains_key(k)
                        && new_index@[k].log_idx == old_idx + 1 && entry_valid(
                        self.store@,
                        k,
                        new_index@[k],
                    ) && entry_value(self.store@, new_index@[k]) == old(self)@[k],
                replay_bytes(m0, self.store@.last().1) == Some(
                    kv_view(self.store@, new_index@),
                ),
            decreases n - i,
        {
            let ghost w = self.store@;
            let ghost d = w.last().1;
            let pair = self.index.pair_at(i);
            let key = pair.0.clone();
            let info = pair.1;
            proof {
                crate::index::lemma_assoc_map_index(self.index.entries(), i as int);
                assert(self.index@[key@] == info);
                assert(old(self).index@.contains_key(key@));
                assert(entry_valid(v0, key@, info));
                lemma_seg_data_prefix(v0, w, info.log_idx);
                lemma_entry_transfer(v0, w, key@, info);
            }
            let chunk = self.store.read_at(info.log_idx, info.pos, info.len);
            let ghost val = entry_value(v0, info);
            let ghost r = (RecordModel::Put { key: key@, value: val });
            proof {
                assert(spec_decode_record(chunk@) == Some((r, chunk@.len() as int)));
                lemma_decode_bounds(chunk@);
            }
            let (off, blen) = self.store.append(chunk.as_slice());
            let ninfo = CommandInfo { log_idx: old_idx + 1, pos: off, len: blen };
            proof {
                let w2 = self.store@;
                // The new index must not hold the key yet: all earlier keys differ.
                lemma_assoc_map_dom(new_index.entries(), key@);
                assert(!new_index@.contains_key(key@)) by {
                    if exists|j: int|
                        0 <= j < new_index.entries().len() && new_index.entries()[j].0@ == key@ {
                        let j = choose|j: int|
                            0 <= j < new_index.entries().len() && new_index.entries()[j].0@
                                == key@;
                        assert(self.index.entries()[j].0@ == key@);
                        assert(self.index.entries()[i as int].0@ == key@);
                    }
                }
                // Old live entries keep their bytes: their segments are in the
                // unchanged prefix.
                assert(seg_data(w2, (old_idx + 1) as u64) == d + chunk@) by {
                    lemma_seg_lookup(w2, bign);
                }
                assert forall|k: Seq<char>| #[trigger]
                    new_index@.contains_key(k) implies entry_valid(w2, k, new_index@[k])
                    && entry_value(w2, new_index@[k]) == entry_value(w, new_index@[k]) by {
                    let e = new_index@[k];
                    if e.log_idx == old_idx + 1 {
                        lemma_seg_lookup(w, bign);
                        lemma_seg_lookup(w2, bign);
                        assert(e.pos + e.len <= d.len());
                        assert((d + chunk@).subrange(e.pos as int, e.pos as int + e.len as int)
                            =~= d.subrange(e.pos as int, e.pos as int + e.len as int));
                        assert(entry_valid(w2, k, e));
                        assert(entry_value(w2, e) == entry_value(w, e));
                    } else {
                        let iw = choose|iw: int| 0 <= iw < w.len() && w[iw].0 == e.log_idx;
                        lemma_seg_lookup(w, iw);
                        assert(w2[iw] == w[iw]);
                        lemma_seg_lookup(w2, iw);
                        lemma_entry_transfer(w, w2, k, e);
                    }
                }
                // The copied record is decodable in place at its new location.
                lemma_seg_lookup(w2, bign);
                assert((d + chunk@).subrange(off as int, off as int + blen as int) =~= chunk@);
                assert(entry_valid(w2, key@, ninfo));
                assert(entry_value(w2, ninfo) == val);
                // Replay of the output segment advances by the copied record.
                lemma_replay_bytes_snoc(m0, d, chunk@, r);
            }
            let ghost prev_map = new_index@;
            new_index.push(key, ninfo);
            proof {
                let w2 = self.store@;
                assert(old(self)@[key@] == val);
                assert(kv_view(w2, new_index@) =~= kv_view(w, prev_map).insert(key@, val));
                assert(replay_bytes(m0, w2.last().1) == Some(kv_view(w2, new_index@)));
            }
            i += 1;
        }

        // Install the rebuilt index, remember the output segment's contents,
        // rotate a fresh active segment in, and delete everything stale.
        let ghost wend = self.store@;
        let ghost dfin = wend.last().1;
        proof {
            assert(kv_view(wend, new_index@) =~= old(self)@) by {
                assert forall|k: Seq<char>|
                    new_index@.contains_key(k) <==> #[trigger] old(self).index@.contains_key(
                        k,
                    ) by {
                    lemma_assoc_map_dom(new_index.entries(), k);
                    lemma_assoc_map_dom(old(self).index.entries(), k);
                    if new_index@.contains_key(k) {
                        let j = choose|j: int|
                            0 <= j < new_index.entries().len() && new_index.entries()[j].0@ == k;
                        assert(old(self).index.entries()[j].0@ == k);
                    }
                    if old(self).index@.contains_key(k) {
                        let j = choose|j: int|
                            0 <= j < old(self).index.entries().len()
                                && old(self).index.entries()[j].0@ == k;
                        assert(new_index.entries()[j].0@ == k);
                    }
                }
            }
        }
        self.index = new_index;
        let out_len = self.store.active_len();
        let output_data = self.store.read_at(old_idx + 1, 0, out_len);
        proof {
            lemma_seg_lookup(wend, bign);
            assert(output_data@ =~= dfin);
        }
        self.store.rotate_to(old_idx + 2);
        self.cur_log_idx = old_idx + 2;
        let ghost w2full = self.store@;
        proof {
            assert(self.index@.dom() =~= old(self)@.dom());
            assert forall|k: Seq<char>| #[trigger]
                self.index@.contains_key(k) implies self.index@[k].log_idx == old_idx + 1
                && entry_valid(w2full, k, self.index@[k]) && entry_value(
                w2full,
                self.index@[k],
            ) == old(self)@[k] by {
                let e = self.index@[k];
                lemma_seg_data_prefix(wend, w2full, e.log_idx);
                lemma_entry_transfer(wend, w2full, k, e);
            }
        }
        let ns = stale_idxs.len();
        let ghost idx_fin = self.index;
        let mut j: usize = 0;
        while j < ns
            invariant
                ns == bign,
                bign == v0.len() as int,
                stale_idxs@ == seg_ids(v0),
                0 <= j <= ns,
                self.store.wf(),
                self.store@ =~= w2full.subrange(j as int, w2full.len() as int),
                w2full.len() == bign + 2,
                forall|q: int| 0 <= q < bign ==> w2full[q] == v0[q],
                ids_ascending(w2full),
                self.index == idx_fin,
                self.cur_log_idx == old_idx + 2,
                self.log_size == old(self).log_size,
                self.index@.dom() == old(self)@.dom(),
                forall|k: Seq<char>| #[trigger]
                    self.index@.contains_key(k) ==> self.index@[k].log_idx == old_idx + 1
                        && entry_valid(w2full, k, self.index@[k]) && entry_value(
                        w2full,
                        self.index@[k],
                    ) == old(self)@[k],
            decreases ns - j,
        {
            proof {
                assert(self.store@[0] == w2full[j as int]);
                assert(seg_ids(v0)[j as int] == v0[j as int].0);
            }
            self.store.delete(stale_idxs[j]);
            proof {
                assert(self.store@ =~= w2full.subrange(j + 1, w2full.len() as int));
            }
            j += 1;
        }
        proof {
            let f = self.store@;
            assert(f =~= seq![
                ((old_idx + 1) as u64, dfin),
                ((old_idx + 2) as u64, Seq::<u8>::empty()),
            ]);
            assert forall|k: Seq<char>| #[trigger]
                self.index@.contains_key(k) implies entry_valid(f, k, self.index@[k])
                && entry_value(f, self.index@[k]) == old(self)@[k] by {
                let e = self.index@[k];
                assert(entry_valid(w2full, k, e));
                assert(e.log_idx == old_idx + 1);
                assert(has_seg(f, e.log_idx)) by {
                    assert(f[0].0 == e.log_idx);
                }
                lemma_seg_data_suffix(w2full, bign, e.log_idx);
                lemma_entry_transfer(w2full, f, k, e);
            }
            assert(self@ =~= old(self)@);
            // Recovery over the two remaining segments replays to the same map.
            let mfin = self@;
            assert(replay_bytes(m0, dfin) == Some(mfin));
            assert(seg_datas(f) =~= seq![dfin, Seq::<u8>::empty()]);
            assert(replay_bytes(mfin, Seq::<u8>::empty()) == Some(mfin));
            assert(seq![dfin, Seq::<u8>::empty()].drop_first() =~= seq![Seq::<u8>::empty()]);
            assert(seq![Seq::<u8>::empty()].drop_first() =~= Seq::<Seq<u8>>::empty());
            assert(replay_segs(mfin, Seq::<Seq<u8>>::empty()) == Some(mfin));
            assert(replay_segs(mfin, seq![Seq::<u8>::empty()]) == Some(mfin));
            assert(replay(f) == Some(mfin));
        }
        CompactionEffect {
            stale_idxs,
            output_idx: old_idx + 1,
            output_data,
            new_active_idx: old_idx + 2,
        }
    }

    /// Checks the compaction trigger: once the active segment's size reaches
    /// the threshold, the log is compacted.  When the segment ids are about
    /// to exhaust the id space, compaction is skipped rather than reusing an
    /// id, since recovery depends on ids growing.
    fn check_log_size(&mut self) -> (c: Option<CompactionEffect>)
        requires
            old(self).wf(),
        ensures
            final(self).wf(),
            final(self)@ == old(self)@,
            final(self).log_size == old(self).log_size,
            match c {
                Option::None => *final(self) == *old(self) && (old(self).store@.last().1.len()
                    < old(self).log_size || old(self).cur_log_idx + 2 > u64::MAX),
                Option::Some(ce) => {
                    &&& old(self).store@.last().1.len() >= old(self).log_size
                    &&& ce.output_idx == old(self).cur_log_idx + 1
                    &&& ce.new_active_idx == old(self).cur_log_idx + 2
                    &&& final(self).cur_log_idx == old(self).cur_log_idx + 2
                    &&& ce.stale_idxs@ == seg_ids(old(self).store@)
                    &&& final(self).store@ =~= seq![
                        (ce.output_idx, ce.output_data@),
                        (ce.new_active_idx, Seq::<u8>::empty()),
                    ]
                    &&& replay_bytes(Map::<Seq<char>, Seq<u8>>::empty(), ce.output_data@)
                        == Some(old(self)@)
                },
            },
    {
        let len = self.store.active_len();
        if len >= self.log_size && self.cur_log_idx <= u64::MAX - 2 {
            Some(self.compact())
        } else {
            None
        }
    }

    /// Looks a key up: the payload of its most recent put, or nothing when
    /// the key was never set or was removed since.
    pub fn get(&self, k: &String) -> (r: Option<Vec<u8>>)
        requires
            self.wf(),
        ensures
            match r {
                Some(v) => self@.contains_key(k@) && v@ == self@[k@],
                None => !self@.contains_key(k@),
            },
    {
        match self.index.get(k) {
            None => None,
            Some(info) => {
                let info = *info;
                let bytes = self.store.read_at(info.log_idx, info.pos, info.len);
                proof {
                    assert(bytes@.subrange(0, bytes@.len() as int) =~= bytes@);
                }
                match decode_record_at(&bytes, 0) {
                    Some(p) => {
                        match p.0 {
                            Record::Put(_, v) => Some(v),
                            Record::Delete(_) => unreached(),
                        }
                    },
                    None => unreached(),
                }
            },
        }
    }
}

/// Recovery completeness: whatever a well-formed engine holds, replaying its
/// stored segments from scratch yields exactly its current map — so closing
/// the engine and reopening it over the same segments loses no key, invents
/// none, and keeps the last written value of each.
pub proof fn lemma_recovery_complete(db: &KVDB)
    requires
        db.wf(),
    ensures
        replay(db.store@) == Some(db@),
{
}

} // verus!
