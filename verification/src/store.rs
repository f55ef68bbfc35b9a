//! The segment store: an ordered collection of append-only log segments,
//! identified by strictly increasing integer ids.
//!
//! Exactly one segment — the one with the greatest id — is active and accepts
//! appends; all others are read-only.  The store here keeps each segment's
//! bytes in memory; the caller mirrors them to the segment files on disk.

use vstd::prelude::*;
use vstd::string::*;

verus! {

/// One append-only log segment: its id and its full contents.
pub struct Segment {
    pub log_idx: u64,
    pub data: Vec<u8>,
}

/// The abstract value of a sequence of segments: id and contents of each.
pub open spec fn seg_views(s: Seq<Segment>) -> Seq<(u64, Seq<u8>)> {
    s.map_values(|seg: Segment| (seg.log_idx, seg.data@))
}

/// Segment contents alone, in store order; recovery replays them in this
/// order.
pub open spec fn seg_datas(v: Seq<(u64, Seq<u8>)>) -> Seq<Seq<u8>> {
    v.map_values(|p: (u64, Seq<u8>)| p.1)
}

/// Ids strictly increase with position: store order is creation order is
/// recency order.
pub open spec fn ids_ascending(v: Seq<(u64, Seq<u8>)>) -> bool {
    forall|i: int, j: int| 0 <= i < j < v.len() ==> v[i].0 < v[j].0
}

/// No two segments share an id; segment files in one directory always
/// satisfy this, since ids come from file names.
pub open spec fn ids_distinct(v: Seq<(u64, Seq<u8>)>) -> bool {
    forall|i: int, j: int| 0 <= i < j < v.len() ==> v[i].0 != v[j].0
}

/// Whether a segment with the given id is present.
pub open spec fn has_seg(v: Seq<(u64, Seq<u8>)>, id: u64) -> bool {
    exists|i: int| 0 <= i < v.len() && v[i].0 == id
}

/// The contents of the segment with the given id.
pub open spec fn seg_data(v: Seq<(u64, Seq<u8>)>, id: u64) -> Seq<u8> {
    v[choose|i: int| 0 <= i < v.len() && v[i].0 == id].1
}

/// With ascending ids, position determines identity: the segment at any
/// position holding an id is the segment `seg_data` speaks of.
pub proof fn lemma_seg_lookup(v: Seq<(u64, Seq<u8>)>, i: int)
    requires
        ids_ascending(v),
        0 <= i < v.len(),
    ensures
        has_seg(v, v[i].0),
        seg_data(v, v[i].0) == v[i].1,
{
    assert(0 <= i < v.len() && v[i].0 == v[i].0);
    let j = choose|j: int| 0 <= j < v.len() && v[j].0 == v[i].0;
    if i < j {
        assert(v[i].0 < v[j].0);
    }
    if j < i {
        assert(v[j].0 < v[i].0);
    }
}

/// The segment ids alone, in store order.
pub open spec fn seg_ids(v: Seq<(u64, Seq<u8>)>) -> Seq<u64> {
    v.map_values(|p: (u64, Seq<u8>)| p.0)
}

/// A segment keeps its contents when the store grows behind it: in a longer
/// store that agrees on a prefix, lookups of the prefix's ids are unchanged.
pub proof fn lemma_seg_data_prefix(v: Seq<(u64, Seq<u8>)>, w: Seq<(u64, Seq<u8>)>, id: u64)
    requires
        ids_ascending(v),
        ids_ascending(w),
        v.len() <= w.len(),
        forall|i: int| 0 <= i < v.len() ==> w[i] == v[i],
        has_seg(v, id),
    ensures
        has_seg(w, id),
        seg_data(w, id) == seg_data(v, id),
{
    let i = choose|i: int| 0 <= i < v.len() && v[i].0 == id;
    lemma_seg_lookup(v, i);
    assert(w[i] == v[i]);
    lemma_seg_lookup(w, i);
}

/// A segment keeps its contents when older segments are deleted in front of
/// it: lookups in a suffix of the store are unchanged.
pub proof fn lemma_seg_data_suffix(v: Seq<(u64, Seq<u8>)>, c: int, id: u64)
    requires
        ids_ascending(v),
        0 <= c <= v.len(),
        has_seg(v.subrange(c, v.len() as int), id),
    ensures
        has_seg(v, id),
        seg_data(v.subrange(c, v.len() as int), id) == seg_data(v, id),
{
    let w = v.subrange(c, v.len() as int);
    assert(ids_ascending(w)) by {
        assert forall|i: int, j: int| 0 <= i < j < w.len() implies w[i].0 < w[j].0 by {
            assert(w[i] == v[i + c]);
            assert(w[j] == v[j + c]);
        }
    }
    let j = choose|j: int| 0 <= j < w.len() && w[j].0 == id;
    assert(v[j + c] == w[j]);
    lemma_seg_lookup(v, j + c);
    lemma_seg_lookup(w, j);
}

/// The segment store.  The last segment in the vector is the active one.
pub struct SegmentStore {
    pub segments: Vec<Segment>,
}

impl View for SegmentStore {
    type V = Seq<(u64, Seq<u8>)>;

    open spec fn view(&self) -> Seq<(u64, Seq<u8>)> {
        seg_views(self.segments@)
    }
}

impl SegmentStore {
    /// Well-formed: at least one segment, ids strictly ascending.
    pub open spec fn wf(&self) -> bool {
        &&& self@.len() > 0
        &&& ids_ascending(self@)
    }

    /// The id of the active segment.
    pub open spec fn active_idx(&self) -> u64 {
        self@.last().0
    }

    /// A store holding a single empty segment with id 0, the state of a
    /// freshly created directory.
    pub fn create() -> (r: SegmentStore)
        ensures
            r.wf(),
            r@ =~= seq![(0u64, Seq::<u8>::empty())],
    {
        let mut segments: Vec<Segment> = Vec::new();
        segments.push(Segment { log_idx: 0, data: Vec::new() });
        let r = SegmentStore { segments };
        proof {
            assert(r@ =~= seq![(0u64, Seq::<u8>::empty())]);
        }
        r
    }

    /// The active segment's current size: the tracked write position at which
    /// the next append will land.
    pub fn active_len(&self) -> (r: u64)
        requires
            self.wf(),
        ensures
            r == self@.last().1.len(),
    {
        let n = self.segments.len();
        self.segments[n - 1].data.len() as u64
    }

    /// Appends bytes to the active segment, returning the byte offset at
    /// which the write began and its length.
    pub fn append(&mut self, bytes: &[u8]) -> (r: (u64, u64))
        requires
            old(self).wf(),
        ensures
            final(self).wf(),
            final(self)@ =~= old(self)@.update(
                old(self)@.len() - 1,
                (old(self).active_idx(), old(self)@.last().1 + bytes@),
            ),
            r.0 == old(self)@.last().1.len(),
            r.1 == bytes@.len(),
            final(self).active_idx() == old(self).active_idx(),
    {
        let mut seg = self.segments.pop().unwrap();
        let offset = seg.data.len() as u64;
        let mut tail = vstd::slice::slice_to_vec(bytes);
        seg.data.append(&mut tail);
        self.segments.push(seg);
        proof {
            assert(self@ =~= old(self)@.update(
                old(self)@.len() - 1,
                (old(self).active_idx(), old(self)@.last().1 + bytes@),
            ));
        }
        (offset, bytes.len() as u64)
    }

    /// Reads exactly the given byte range out of the segment with the given
    /// id.  The index must never reference a segment the store does not hold,
    /// nor a range past its end.
    pub fn read_at(&self, log_idx: u64, pos: u64, len: u64) -> (r: Vec<u8>)
        requires
            self.wf(),
            has_seg(self@, log_idx),
            pos + len <= seg_data(self@, log_idx).len(),
        ensures
            r@ == seg_data(self@, log_idx).subrange(pos as int, pos as int + len as int),
    {
        let n = self.segments.len();
        let mut i: usize = 0;
        while i < n
            invariant
                n == self.segments@.len(),
                0 <= i <= n,
                self.wf(),
                has_seg(self@, log_idx),
                pos + len <= seg_data(self@, log_idx).len(),
                forall|j: int| 0 <= j < i ==> self@[j].0 != log_idx,
            decreases n - i,
        {
            if self.segments[i].log_idx == log_idx {
                proof {
                    lemma_seg_lookup(self@, i as int);
                }
                let data = &self.segments[i].data;
                let dlen = data.len();
                assert(pos + len <= dlen);
                return vstd::slice::slice_to_vec(
                    vstd::slice::slice_subrange(
                        data.as_slice(),
                        pos as usize,
                        (pos + len) as usize,
                    ),
                );
            }
            i += 1;
        }
        proof {
            let w = choose|w: int| 0 <= w < self@.len() && self@[w].0 == log_idx;
            assert(false);
        }
        unreached()
    }

    /// Creates a new empty segment with the given id and makes it the active
    /// segment.  The id must exceed every existing id, preserving the recency
    /// ordering recovery depends on.
    pub fn rotate_to(&mut self, new_id: u64)
        requires
            old(self).wf(),
            new_id > old(self).active_idx(),
        ensures
            final(self).wf(),
            final(self)@ =~= old(self)@ + seq![(new_id, Seq::<u8>::empty())],
            final(self).active_idx() == new_id,
    {
        self.segments.push(Segment { log_idx: new_id, data: Vec::new() });
        proof {
            assert(self@ =~= old(self)@ + seq![(new_id, Seq::<u8>::empty())]);
        }
    }

    /// Deletes the oldest segment.  Only valid once no index entry references
    /// it any more, and never for the active segment.
    pub fn delete(&mut self, log_idx: u64)
        requires
            old(self).wf(),
            old(self)@.len() > 1,
            old(self)@[0].0 == log_idx,
        ensures
            final(self).wf(),
            final(self)@ =~= old(self)@.drop_first(),
    {
        self.segments.remove(0);
        proof {
            assert(self@ =~= old(self)@.drop_first());
        }
    }
}

/// Decimal digits of a number, most significant first.
pub open spec fn spec_dec_digits(n: nat) -> Seq<char>
    decreases n,
{
    if n < 10 {
        seq![spec_digit(n)]
    } else {
        spec_dec_digits(n / 10).push(spec_digit(n % 10))
    }
}

/// The character for one decimal digit.
pub open spec fn spec_digit(d: nat) -> char {
    if d == 0 {
        '0'
    } else if d == 1 {
        '1'
    } else if d == 2 {
        '2'
    } else if d == 3 {
        '3'
    } else if d == 4 {
        '4'
    } else if d == 5 {
        '5'
    } else if d == 6 {
        '6'
    } else if d == 7 {
        '7'
    } else if d == 8 {
        '8'
    } else {
        '9'
    }
}

/// The file name under which a segment with the given id is stored.
pub open spec fn spec_log_path(idx: u64) -> Seq<char> {
    "logs/"@ + spec_dec_digits(idx as nat) + ".log"@
}

fn digit_str(d: u64) -> (r: &'static str)
    requires
        d < 10,
    ensures
        r@ == seq![spec_digit(d as nat)],
{
    match d {
        0 => {
            proof {
                reveal_strlit("0");
            }
            "0"
        },
        1 => {
            proof {
                reveal_strlit("1");
            }
            "1"
        },
        2 => {
            proof {
                reveal_strlit("2");
            }
            "2"
        },
        3 => {
            proof {
                reveal_strlit("3");
            }
            "3"
        },
        4 => {
            proof {
                reveal_strlit("4");
            }
            "4"
        },
        5 => {
            proof {
                reveal_strlit("5");
            }
            "5"
        },
        6 => {
            proof {
                reveal_strlit("6");
            }
            "6"
        },
        7 => {
            proof {
                reveal_strlit("7");
            }
            "7"
        },
        8 => {
            proof {
                reveal_strlit("8");
            }
            "8"
        },
        _ => {
            proof {
                reveal_strlit("9");
            }
            "9"
        },
    }
}

fn push_dec(s: &mut String, n: u64)
    ensures
        final(s)@ == old(s)@ + spec_dec_digits(n as nat),
    decreases n,
{
    if n >= 10 {
        proof {
            assert(n / 10 < n) by (nonlinear_arith)
                requires
                    n >= 10,
            ;
        }
        push_dec(s, n / 10);
    }
    s.append(digit_str(n % 10));
    proof {
        if n >= 10 {
            assert(old(s)@ + spec_dec_digits((n / 10) as nat) + seq![
                spec_digit((n % 10) as nat),
            ] =~= old(s)@ + spec_dec_digits(n as nat));
        } else {
            assert(old(s)@ + seq![spec_digit(n as nat)] =~= old(s)@ + spec_dec_digits(n as nat));
        }
    }
}

/// The path of a segment's log file: the segment id in decimal, inside the
/// `logs` directory, with the `.log` extension.
pub fn build_log_path(idx: u64) -> (r: String)
    ensures
        r@ == spec_log_path(idx),
{
    let mut s = String::from_str("logs/");
    push_dec(&mut s, idx);
    s.append(".log");
    proof {
        assert(s@ =~= spec_log_path(idx));
    }
    s
}

} // verus!
