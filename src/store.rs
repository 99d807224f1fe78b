use vstd::prelude::*;
use crate::clock::{get_sortable_id, next_id, now_secs};
use crate::keydir::{KeyDir, KeyDirValue};
use crate::record::lemma_record_round_trip;
use crate::laws::{lemma_replay_after_append, lemma_replay_truncated, lemma_replay_upto_prefix};
use crate::record::{
    header_cut, header_cut_at, lemma_parse_empty, lemma_parse_lens, parse_record, record_bytes,
    CodecError, Record,
};
use crate::segment::{
    contents_of, data_of, entry_ok, has_segment, ids_ascending, index_ok, lemma_data_of,
    lemma_extend_keeps_index, lemma_parse_extend_at, lemma_point_at_record, lemma_push_ascending,
    lemma_point_at, lemma_same_referenced, lemma_truncate_keeps_index,
    lemma_seg_map_ext, lemma_seg_map_remove, lemma_seg_map_set, lemma_records_live_append, located, records_live, scans_clean_from,
    seg_map, seg_views, Segment,
};
use crate::tombstone::{
    escape_tombstone, escaped, lemma_escape_round_trip, tombstone, tombstone_value,
    unescape_tombstone, unescaped,
};

verus! {

/// A change to the files on disk that mirrors a change to the segments.
pub enum DiskOp {
    /// Create an empty segment file.
    Create { id: u64 },
    /// Append bytes at the end of a segment file.
    Append { id: u64, bytes: Vec<u8> },
    /// Cut a segment file down to `len` bytes.
    Truncate { id: u64, len: usize },
    /// Delete a segment file.
    Remove { id: u64 },
}

impl DiskOp {
    /// The write as (kind, id, bytes, length), kind 0 to 3 for create,
    /// append, truncate and remove.
    pub open spec fn view(&self) -> (nat, u64, Seq<u8>, nat) {
        match self {
            DiskOp::Create { id } => (0, *id, Seq::empty(), 0),
            DiskOp::Append { id, bytes } => (1, *id, bytes@, 0),
            DiskOp::Truncate { id, len } => (2, *id, Seq::empty(), *len as nat),
            DiskOp::Remove { id } => (3, *id, Seq::empty(), 0),
        }
    }
}

/// The writes as tuples, in order.
pub open spec fn ops_view(ops: Seq<DiskOp>) -> Seq<(nat, u64, Seq<u8>, nat)> {
    ops.map_values(|o: DiskOp| o.view())
}

/// The segment files after one disk write.
pub open spec fn apply_op(disk: Map<u64, Seq<u8>>, op: (nat, u64, Seq<u8>, nat)) -> Map<u64, Seq<u8>> {
    if op.0 == 0 {
        disk.insert(op.1, Seq::empty())
    } else if op.0 == 1 {
        disk.insert(op.1, disk[op.1] + op.2)
    } else if op.0 == 2 {
        disk.insert(op.1, disk[op.1].take(op.3 as int))
    } else {
        disk.remove(op.1)
    }
}

/// The segment files after the disk writes, oldest first.
pub open spec fn apply_ops(disk: Map<u64, Seq<u8>>, ops: Seq<(nat, u64, Seq<u8>, nat)>) -> Map<
    u64,
    Seq<u8>,
>
    decreases ops.len(),
{
    if ops.len() == 0 {
        disk
    } else {
        apply_op(apply_ops(disk, ops.drop_last()), ops.last())
    }
}

proof fn lemma_apply_push(disk: Map<u64, Seq<u8>>, ops: Seq<DiskOp>, op: DiskOp)
    ensures
        ops_view(ops.push(op)) == ops_view(ops).push(op.view()),
        apply_ops(disk, ops_view(ops.push(op))) == apply_op(apply_ops(disk, ops_view(ops)), op.view()),
{
    assert(ops_view(ops.push(op)) =~= ops_view(ops).push(op.view()));
    assert(ops_view(ops.push(op)).drop_last() =~= ops_view(ops));
}

/// Why a store operation failed.
#[derive(Clone, Copy, Debug, PartialEq, Eq, Structural)]
pub enum StoreError {
    /// Keys must not be empty.
    EmptyKey,
    /// A key or a stored value is longer than a 32-bit length can say.
    TooLarge,
    /// A malformed varint in a segment.
    Encoding,
    /// A record cut off before the end of its declared lengths.
    Truncated,
    /// A record whose checksum does not match its fields.
    ChecksumMismatch,
    /// The record an index entry names no longer decodes.
    DataCorruption,
    /// Segment ids given out of order or twice.
    SegmentOrder,
    /// No segment id is left on the side that is needed.
    IdExhausted,
    /// Compaction found a sealed segment that does not decode to its end,
    /// and kept it.
    SegmentCorrupt,
}

pub open spec fn codec_error(e: CodecError) -> StoreError {
    match e {
        CodecError::Encoding => StoreError::Encoding,
        CodecError::Truncated => StoreError::Truncated,
        CodecError::ChecksumMismatch => StoreError::ChecksumMismatch,
    }
}

/// Whether a record of `len` bytes goes to a fresh segment: appending it
/// to the active one would pass the threshold.
pub open spec fn rotates(used: nat, len: nat, threshold: u64) -> bool {
    used + len > threshold
}

/// The timestamp a record gets from a clock reading in seconds.
pub open spec fn stamp(now: u64) -> u32 {
    (now % 0x1_0000_0000) as u32
}

/// `new` is `old` with the record bytes `rec` written whole at the end of
/// one segment: the active one, or a fresh one with the next id when the
/// active one would pass `threshold`.
pub open spec fn appended(
    old: Seq<(u64, Seq<u8>)>,
    new: Seq<(u64, Seq<u8>)>,
    rec: Seq<u8>,
    threshold: u64,
    now: u64,
) -> bool {
    if rotates(old.last().1.len(), rec.len(), threshold) {
        &&& next_id(now, old.last().0) is Some
        &&& new == old.push((next_id(now, old.last().0)->Some_0, rec))
    } else {
        new == old.update(old.len() - 1, (old.last().0, old.last().1 + rec))
    }
}

/// The disk writes that mirror [`appended`].
pub open spec fn appended_ops(
    old_segs: Seq<(u64, Seq<u8>)>,
    rec: Seq<u8>,
    threshold: u64,
    now: u64,
) -> Seq<(nat, u64, Seq<u8>, nat)> {
    if rotates(old_segs.last().1.len(), rec.len(), threshold) {
        let id = next_id(now, old_segs.last().0)->Some_0;
        seq![(0nat, id, Seq::<u8>::empty(), 0nat), (1nat, id, rec, 0nat)]
    } else {
        seq![(1nat, old_segs.last().0, rec, 0nat)]
    }
}

/// Whether writing `rec` fails for want of a segment id.
pub open spec fn ids_run_out(old: Seq<(u64, Seq<u8>)>, rec: Seq<u8>, threshold: u64, now: u64) -> bool {
    rotates(old.last().1.len(), rec.len(), threshold) && next_id(now, old.last().0) is None
}

/// How a write of `value` under `key` at clock reading `now` ends: refused
/// for an empty key, for a length over 32 bits, or for want of a segment id.
pub open spec fn put_outcome(
    segs: Seq<(u64, Seq<u8>)>,
    key: Seq<u8>,
    value: Seq<u8>,
    threshold: u64,
    now: u64,
) -> Result<(), StoreError> {
    if key.len() == 0 {
        Err(StoreError::EmptyKey)
    } else if key.len() > u32::MAX || escaped(value).len() > u32::MAX {
        Err(StoreError::TooLarge)
    } else if ids_run_out(segs, record_bytes(stamp(now), key, escaped(value)), threshold, now) {
        Err(StoreError::IdExhausted)
    } else {
        Ok(())
    }
}

/// The segments as compaction sees them: the merged one in front.
pub open spec fn with_merged(mid: u64, merged: Seq<u8>, segs: Seq<(u64, Seq<u8>)>) -> Seq<
    (u64, Seq<u8>),
> {
    seq![(mid, merged)] + segs
}

pub proof fn lemma_with_merged_ascending(mid: u64, merged: Seq<u8>, segs: Seq<(u64, Seq<u8>)>)
    requires
        ids_ascending(segs),
        segs.len() > 0,
        mid < segs[0].0,
    ensures
        ids_ascending(with_merged(mid, merged, segs)),
{
    let v = with_merged(mid, merged, segs);
    assert forall|a: int, b: int| 0 <= a < b < v.len() implies v[a].0 < v[b].0 by {
        if a == 0 && b > 1 {
            assert(segs[0].0 < segs[b - 1].0);
        }
    }
}

/// The logical state after one record is replayed: a tombstone deletes its
/// key, any other record sets its key to the unescaped value.
pub open spec fn apply_record(m: Map<Seq<u8>, Seq<u8>>, key: Seq<u8>, value: Seq<u8>) -> Map<
    Seq<u8>,
    Seq<u8>,
> {
    if value == tombstone() {
        m.remove(key)
    } else {
        m.insert(key, unescaped(value))
    }
}

/// Replays the records of `d` from `pos` onto `m`: the resulting state, the
/// position where replay stopped, and the decoding error that stopped it
/// before the end, if any.
pub open spec fn replay_from(m: Map<Seq<u8>, Seq<u8>>, d: Seq<u8>, pos: nat) -> (
    Map<Seq<u8>, Seq<u8>>,
    nat,
    Option<CodecError>,
)
    decreases d.len() - pos,
{
    if pos >= d.len() {
        (m, pos, None)
    } else {
        match parse_record(d.skip(pos as int)) {
            Ok((_ts, k, v, n)) => if 0 < n && pos + n <= d.len() {
                replay_from(apply_record(m, k, v), d, pos + n)
            } else {
                (m, pos, None)
            },
            Err(e) => (m, pos, Some(e)),
        }
    }
}

/// Whether a decoding error at `stop` in `d` comes from a record cut off by
/// the end of the bytes: its key and value, or its header, run past the end.
pub open spec fn tail_cut(e: CodecError, d: Seq<u8>, stop: nat) -> bool {
    e == CodecError::Truncated || (e == CodecError::Encoding && header_cut(d.skip(stop as int)))
}

/// Replays the first `i` segments in order, from an empty state. A record
/// cut off by the end of the last segment ends its replay; any other
/// decoding error fails the whole replay. Gives the state and where the `i`-th segment's
/// replay stopped.
pub open spec fn replay_upto(segs: Seq<(u64, Seq<u8>)>, i: nat) -> Result<
    (Map<Seq<u8>, Seq<u8>>, nat),
    StoreError,
>
    decreases i,
{
    if i == 0 {
        Ok((Map::empty(), 0))
    } else {
        match replay_upto(segs, (i - 1) as nat) {
            Err(e) => Err(e),
            Ok((m, _stop)) => {
                let (m2, stop, err) = replay_from(m, segs[i - 1].1, 0);
                match err {
                    None => Ok((m2, stop)),
                    Some(e) => if i == segs.len() && tail_cut(e, segs[i - 1].1, stop) {
                        Ok((m2, stop))
                    } else {
                        Err(codec_error(e))
                    },
                }
            },
        }
    }
}

/// Once replay fails, replaying more segments fails the same way.
pub proof fn lemma_replay_err_persists(segs: Seq<(u64, Seq<u8>)>, i: nat, j: nat)
    requires
        i <= j,
        replay_upto(segs, i) is Err,
    ensures
        replay_upto(segs, j) == replay_upto(segs, i),
    decreases j - i,
{
    if i < j {
        lemma_replay_err_persists(segs, i, (j - 1) as nat);
    }
}

/// Segment ids of a well-formed store increase along its list.
pub proof fn lemma_wf_ascending(s: Store)
    requires
        s.wf(),
    ensures
        ids_ascending(s.segments()),
        s.segments().len() >= 1,
{
}

proof fn lemma_seg_map_prepend(mid: u64, merged: Seq<u8>, segs: Seq<(u64, Seq<u8>)>)
    requires
        ids_ascending(segs),
        segs.len() > 0,
        mid < segs[0].0,
    ensures
        seg_map(with_merged(mid, merged, segs)) == seg_map(segs).insert(mid, merged),
{
    let v = with_merged(mid, merged, segs);
    let mm = seg_map(segs).insert(mid, merged);
    lemma_with_merged_ascending(mid, merged, segs);
    assert forall|a: int| 0 <= a < v.len() implies mm.contains_key(#[trigger] v[a].0) && mm[v[a].0]
        == v[a].1 by {
        if a > 0 {
            lemma_data_of(segs, a - 1);
            assert(v[a] == segs[a - 1]);
            if a > 1 {
                assert(segs[0].0 < segs[a - 1].0);
            }
            assert(segs[a - 1].0 != mid);
        }
    }
    assert forall|id: u64| #[trigger] mm.contains_key(id) implies has_segment(v, id) by {
        if id != mid {
            assert(seg_map(segs).contains_key(id));
            let t = choose|t: int| 0 <= t < segs.len() && segs[t].0 == id;
            assert(v[t + 1] == segs[t]);
            assert(v[t + 1].0 == id);
        } else {
            assert(v[0].0 == mid);
        }
    }
    lemma_seg_map_ext(v, mm);
}

/// The key-value store: segments in id order, the last one active, an index
/// of the current record of each key, and the disk writes not yet handed out.
pub struct Store {
    key_dir: KeyDir,
    files: Vec<Segment>,
    segment_size_threshold: u64,
    pending: Vec<DiskOp>,
    disk: Ghost<Map<u64, Seq<u8>>>,
}

impl Store {
    /// The segments as (id, bytes), in id order.
    pub closed spec fn segments(&self) -> Seq<(u64, Seq<u8>)> {
        seg_views(self.files@)
    }

    /// The index from key to location.
    pub closed spec fn index(&self) -> Map<Seq<u8>, KeyDirValue> {
        self.key_dir.view()
    }

    pub closed spec fn threshold(&self) -> u64 {
        self.segment_size_threshold
    }

    /// Disk writes not yet handed out, oldest first.
    pub closed spec fn disk_ops(&self) -> Seq<(nat, u64, Seq<u8>, nat)> {
        ops_view(self.pending@)
    }

    /// The segment files as they stood when the disk writes were last handed
    /// out, or when the store was opened.
    pub closed spec fn on_disk(&self) -> Map<u64, Seq<u8>> {
        self.disk@
    }

    /// The logical state: each live key and its value.
    pub open spec fn contents(&self) -> Map<Seq<u8>, Seq<u8>> {
        contents_of(self.segments(), self.index())
    }

    /// A restart that replays the segments from scratch would rebuild
    /// exactly these contents, reading the active segment to its end.
    pub open spec fn replays_cleanly(&self) -> bool {
        replay_upto(self.segments(), self.segments().len()) == Ok::<_, StoreError>(
            (self.contents(), self.active_data().len()),
        )
    }

    pub open spec fn active_id(&self) -> u64 {
        self.segments().last().0
    }

    pub open spec fn active_data(&self) -> Seq<u8> {
        self.segments().last().1
    }

    /// At least one segment, ids ascending, and every index entry names a
    /// valid record for its key.
    pub closed spec fn wf(&self) -> bool {
        &&& self.key_dir.wf()
        &&& self.files@.len() >= 1
        &&& ids_ascending(self.segments())
        &&& index_ok(self.segments(), self.index())
        &&& apply_ops(self.disk@, self.disk_ops()) == seg_map(self.segments())
    }

    /// Hands out the disk writes gathered so far, oldest first.
    pub fn take_disk_ops(&mut self) -> (r: Vec<DiskOp>)
        requires
            old(self).wf(),
        ensures
            final(self).wf(),
            ops_view(r@) == old(self).disk_ops(),
            final(self).disk_ops() == Seq::<(nat, u64, Seq<u8>, nat)>::empty(),
            apply_ops(old(self).on_disk(), ops_view(r@)) == seg_map(old(self).segments()),
            final(self).on_disk() == seg_map(old(self).segments()),
            final(self).segments() == old(self).segments(),
            final(self).index() == old(self).index(),
            final(self).threshold() == old(self).threshold(),
            old(self).replays_cleanly() ==> final(self).replays_cleanly(),
    {
        let mut out: Vec<DiskOp> = Vec::new();
        std::mem::swap(&mut out, &mut self.pending);
        self.disk = Ghost(seg_map(self.segments()));
        assert(ops_view(self.pending@) =~= Seq::<(nat, u64, Seq<u8>, nat)>::empty());
        out
    }

    fn segment_index(&self, id: u64) -> (r: Option<usize>)
        ensures
            match r {
                Some(i) => i < self.files@.len() && self.segments()[i as int].0 == id,
                None => !has_segment(self.segments(), id),
            },
    {
        let mut i: usize = 0;
        while i < self.files.len()
            invariant
                i <= self.files@.len(),
                forall|j: int| 0 <= j < i ==> self.segments()[j].0 != id,
            decreases self.files@.len() - i,
        {
            if self.files[i].id == id {
                return Some(i);
            }
            i = i + 1;
        }
        None
    }

    /// The current value of `key`, if it has one.
    pub fn get(&self, key: Vec<u8>) -> (r: Result<Option<Vec<u8>>, StoreError>)
        requires
            self.wf(),
        ensures
            match r {
                Ok(Some(v)) => self.contents().contains_key(key@) && v@ == self.contents()[key@],
                Ok(None) => !self.contents().contains_key(key@),
                Err(_) => false,
            },
    {
        match self.key_dir.get(key.as_slice()) {
            None => Ok(None),
            Some(e) => {
                assert(entry_ok(self.segments(), key@, e));
                let i = match self.segment_index(e.file_id) {
                    Some(i) => i,
                    None => return Err(StoreError::DataCorruption),
                };
                proof {
                    lemma_data_of(self.segments(), i as int);
                }
                let seg = &self.files[i];
                if e.value_posi > seg.data.len() {
                    return Err(StoreError::DataCorruption);
                }
                match Record::from_reader(seg.data.as_slice(), e.value_posi) {
                    Ok((rec, _n)) => Ok(Some(unescape_tombstone(rec.value))),
                    Err(_) => Err(StoreError::DataCorruption),
                }
            },
        }
    }

    /// Writes record bytes at the end of the active segment, or of a fresh
    /// one when the active one would pass the threshold; tells the segment
    /// and the offset they start at.
    fn append_bytes(&mut self, bytes: Vec<u8>, now: u64) -> (r: Result<(u64, usize), StoreError>)
        requires
            old(self).wf(),
        ensures
            final(self).key_dir == old(self).key_dir,
            final(self).threshold() == old(self).threshold(),
            match r {
                Ok((id, off)) => {
                    &&& !ids_run_out(old(self).segments(), bytes@, old(self).threshold(), now)
                    &&& appended(
                        old(self).segments(),
                        final(self).segments(),
                        bytes@,
                        old(self).threshold(),
                        now,
                    )
                    &&& final(self).disk_ops() == old(self).disk_ops() + appended_ops(
                        old(self).segments(),
                        bytes@,
                        old(self).threshold(),
                        now,
                    )
                    &&& final(self).wf()
                    &&& final(self).contents() == old(self).contents()
                    &&& id == final(self).active_id()
                    &&& off + bytes@.len() == final(self).active_data().len()
                    &&& final(self).active_data().skip(off as int) == bytes@
                },
                Err(e) => {
                    &&& ids_run_out(old(self).segments(), bytes@, old(self).threshold(), now)
                    &&& e == StoreError::IdExhausted
                    &&& final(self).segments() == old(self).segments()
                    &&& final(self).disk_ops() == old(self).disk_ops()
                    &&& final(self).wf()
                },
            },
    {
        let ghost old_segs = self.segments();
        let ghost p0 = self.pending@;
        let last = self.files.len() - 1;
        let used = self.files[last].data.len();
        let active = self.files[last].id;
        let rot = (used as u64 > self.segment_size_threshold
            || bytes.len() as u64 > self.segment_size_threshold - used as u64);
        assert(rot == rotates(used as nat, bytes@.len(), self.segment_size_threshold));
        if rot {
            let id = match get_sortable_id(now, active) {
                Some(id) => id,
                None => return Err(StoreError::IdExhausted),
            };
            let n = bytes.len();
            let copy = bytes.clone();
            assert(copy@ == bytes@);
            self.files.push(Segment { id, data: bytes });
            self.pending.push(DiskOp::Create { id });
            self.pending.push(DiskOp::Append { id, bytes: copy });
            assert(self.segments() =~= old_segs.push((id, copy@)));
            proof {
                let c = DiskOp::Create { id };
                lemma_apply_push(self.disk@, p0, c);
                lemma_apply_push(self.disk@, p0.push(c), DiskOp::Append { id, bytes: copy });
                assert(self.pending@ == p0.push(c).push(DiskOp::Append { id, bytes: copy }));
                assert(Seq::<u8>::empty() + copy@ =~= copy@);
                lemma_push_ascending(old_segs, (id, copy@));
                assert(self.segments().drop_last() =~= old_segs);
                lemma_seg_map_set(old_segs, self.segments(), old_segs.len() as int);
                assert(apply_ops(self.disk@, self.disk_ops()) == seg_map(self.segments()));
            }
            assert(self.disk_ops() =~= ops_view(old(self).pending@) + appended_ops(
                old_segs,
                copy@,
                self.segment_size_threshold,
                now,
            ));
            assert forall|j: int| 0 <= j < old_segs.len() implies #[trigger] self.segments()[j].0
                == old_segs[j].0 && self.segments()[j].1.len() >= old_segs[j].1.len()
                && self.segments()[j].1.take(old_segs[j].1.len() as int) == old_segs[j].1 by {
                assert(old_segs[j].1.take(old_segs[j].1.len() as int) =~= old_segs[j].1);
            }
            proof {
                lemma_extend_keeps_index(old_segs, self.segments(), self.key_dir.view());
            }
            assert(self.active_data().skip(0) =~= copy@);
            Ok((id, 0))
        } else {
            let copy = bytes.clone();
            assert(copy@ == bytes@);
            let mut seg = self.files.pop().unwrap();
            let mut b = bytes;
            seg.data.append(&mut b);
            self.files.push(seg);
            self.pending.push(DiskOp::Append { id: active, bytes: copy });
            assert(self.segments() =~= old_segs.update(
                old_segs.len() - 1,
                (active, old_segs.last().1 + copy@),
            ));
            proof {
                lemma_apply_push(self.disk@, p0, DiskOp::Append { id: active, bytes: copy });
                lemma_data_of(old_segs, old_segs.len() - 1);
                assert(ids_ascending(self.segments()));
                lemma_seg_map_set(old_segs, self.segments(), old_segs.len() - 1);
                assert(apply_ops(self.disk@, self.disk_ops()) == seg_map(self.segments()));
            }
            assert(self.disk_ops() =~= ops_view(old(self).pending@) + appended_ops(
                old_segs,
                copy@,
                self.segment_size_threshold,
                now,
            ));
            assert forall|j: int| 0 <= j < old_segs.len() implies #[trigger] self.segments()[j].0
                == old_segs[j].0 && self.segments()[j].1.len() >= old_segs[j].1.len()
                && self.segments()[j].1.take(old_segs[j].1.len() as int) == old_segs[j].1 by {
                if j == old_segs.len() - 1 {
                    assert((old_segs.last().1 + copy@).take(old_segs[j].1.len() as int)
                        =~= old_segs[j].1);
                }
            }
            proof {
                lemma_extend_keeps_index(old_segs, self.segments(), self.key_dir.view());
            }
            assert(self.active_data().skip(used as int) =~= copy@);
            Ok((active, used))
        }
    }

    /// Stores `value` under `key`, the record stamped with the clock reading
    /// `now`.
    pub fn put_at(&mut self, key: Vec<u8>, value: Vec<u8>, now: u64) -> (r: Result<(), StoreError>)
        requires
            old(self).wf(),
        ensures
            final(self).wf(),
            final(self).threshold() == old(self).threshold(),
            r == put_outcome(old(self).segments(), key@, value@, old(self).threshold(), now),
            old(self).replays_cleanly() ==> final(self).replays_cleanly(),
            r is Ok ==> {
                let rec = record_bytes(stamp(now), key@, escaped(value@));
                &&& final(self).index() == old(self).index().insert(
                    key@,
                    (KeyDirValue {
                        file_id: final(self).active_id(),
                        value_posi: (final(self).active_data().len() - rec.len()) as usize,
                        value_sz: escaped(value@).len() as u32,
                    }),
                )
                &&& final(self).contents() == old(self).contents().insert(key@, value@)
                &&& appended(old(self).segments(), final(self).segments(), rec, old(self).threshold(), now)
                &&& final(self).disk_ops() == old(self).disk_ops() + appended_ops(
                    old(self).segments(),
                    rec,
                    old(self).threshold(),
                    now,
                )
            },
            r is Err ==> {
                &&& final(self).segments() == old(self).segments()
                &&& final(self).contents() == old(self).contents()
                &&& final(self).disk_ops() == old(self).disk_ops()
            },
    {
        if key.len() == 0 {
            return Err(StoreError::EmptyKey);
        }
        let ghost v = value@;
        let value = escape_tombstone(value);
        if key.len() > 0xFFFF_FFFF || value.len() > 0xFFFF_FFFF {
            return Err(StoreError::TooLarge);
        }
        proof {
            lemma_escape_round_trip(v);
        }
        let ts = (now % 0x1_0000_0000) as u32;
        let value_sz = value.len() as u32;
        let record = Record { timestamp: ts, key: key.clone(), value };
        let serialized = record.serialize();
        let (id, off) = match self.append_bytes(serialized, now) {
            Ok(p) => p,
            Err(e) => return Err(e),
        };
        let entry = KeyDirValue { file_id: id, value_posi: off, value_sz };
        proof {
            let segs = self.segments();
            lemma_point_at_record(
                segs,
                self.index(),
                segs.len() - 1,
                key@,
                record.value@,
                ts,
                entry,
            );
        }
        self.key_dir.insert(key, entry);
        proof {
            if old(self).replays_cleanly() {
                lemma_replay_after_append(
                    old(self).segments(),
                    self.segments(),
                    ts,
                    key@,
                    record.value@,
                    self.segment_size_threshold,
                    now,
                    old(self).contents(),
                );
            }
        }
        Ok(())
    }

    /// Stores `value` under `key`, stamped with the current time.
    pub fn put(&mut self, key: Vec<u8>, value: Vec<u8>) -> (r: Result<(), StoreError>)
        requires
            old(self).wf(),
        ensures
            final(self).wf(),
            final(self).threshold() == old(self).threshold(),
            key@.len() == 0 ==> r == Err::<(), StoreError>(StoreError::EmptyKey),
            key@.len() > 0 && (key@.len() > u32::MAX || escaped(value@).len() > u32::MAX) ==> r
                == Err::<(), StoreError>(StoreError::TooLarge),
            exists|now: u64|
                r == put_outcome(old(self).segments(), key@, value@, old(self).threshold(), now),
            key@.len() > 0 && key@.len() <= u32::MAX && escaped(value@).len() <= u32::MAX
                && old(self).active_id() < u64::MAX ==> r is Ok,
            r is Ok ==> final(self).contents() == old(self).contents().insert(key@, value@),
            old(self).replays_cleanly() ==> final(self).replays_cleanly(),
            r is Ok ==> exists|now: u64|
                appended(
                    old(self).segments(),
                    final(self).segments(),
                    #[trigger] record_bytes(stamp(now), key@, escaped(value@)),
                    old(self).threshold(),
                    now,
                ),
            r is Err ==> final(self).segments() == old(self).segments() && final(self).contents()
                == old(self).contents(),
    {
        let now = now_secs();
        let ghost k = key@;
        let ghost v = value@;
        let r = self.put_at(key, value, now);
        assert(r == put_outcome(old(self).segments(), k, v, old(self).threshold(), now));
        assert(r is Ok ==> appended(
            old(self).segments(),
            self.segments(),
            record_bytes(stamp(now), k, escaped(v)),
            old(self).threshold(),
            now,
        ));
        r
    }

    /// Deletes `key`, the tombstone stamped with the clock reading `now`.
    /// Deleting an absent key does nothing.
    pub fn delete_at(&mut self, key: Vec<u8>, now: u64) -> (r: Result<(), StoreError>)
        requires
            old(self).wf(),
        ensures
            final(self).wf(),
            final(self).threshold() == old(self).threshold(),
            !old(self).contents().contains_key(key@) ==> {
                &&& r is Ok
                &&& final(self).segments() == old(self).segments()
                &&& final(self).index() == old(self).index()
                &&& final(self).disk_ops() == old(self).disk_ops()
            },
            old(self).contents().contains_key(key@) ==> {
                let rec = record_bytes(stamp(now), key@, tombstone());
                &&& r is Ok <==> !ids_run_out(old(self).segments(), rec, old(self).threshold(), now)
                &&& r is Ok ==> appended(
                    old(self).segments(),
                    final(self).segments(),
                    rec,
                    old(self).threshold(),
                    now,
                ) && final(self).disk_ops() == old(self).disk_ops() + appended_ops(
                    old(self).segments(),
                    rec,
                    old(self).threshold(),
                    now,
                )
                &&& r is Err ==> r == Err::<(), StoreError>(StoreError::IdExhausted)
                    && final(self).segments() == old(self).segments() && final(self).disk_ops()
                    == old(self).disk_ops()
            },
            r is Ok ==> final(self).contents() == old(self).contents().remove(key@),
            r is Ok ==> final(self).index() == old(self).index().remove(key@),
            r is Err ==> final(self).contents() == old(self).contents(),
            old(self).replays_cleanly() ==> final(self).replays_cleanly(),
    {
        let e = match self.key_dir.get(key.as_slice()) {
            None => {
                assert(old(self).contents().remove(key@) =~= old(self).contents());
                return Ok(());
            },
            Some(e) => e,
        };
        proof {
            assert(entry_ok(self.segments(), key@, e));
            lemma_parse_lens(data_of(self.segments(), e.file_id).skip(e.value_posi as int));
        }
        let ts = (now % 0x1_0000_0000) as u32;
        let record = Record { timestamp: ts, key: key.clone(), value: tombstone_value() };
        let serialized = record.serialize();
        match self.append_bytes(serialized, now) {
            Ok(_) => {},
            Err(e) => return Err(e),
        }
        let ghost segs = self.segments();
        let ghost idx = self.key_dir.view();
        self.key_dir.remove(key.as_slice());
        assert(index_ok(segs, idx.remove(key@)));
        assert(contents_of(segs, idx.remove(key@)) =~= contents_of(segs, idx).remove(key@));
        proof {
            if old(self).replays_cleanly() {
                lemma_replay_after_append(
                    old(self).segments(),
                    self.segments(),
                    ts,
                    key@,
                    tombstone(),
                    self.segment_size_threshold,
                    now,
                    old(self).contents(),
                );
            }
        }
        Ok(())
    }

    /// Deletes `key`, the tombstone stamped with the current time.
    pub fn delete(&mut self, key: Vec<u8>) -> (r: Result<(), StoreError>)
        requires
            old(self).wf(),
        ensures
            final(self).wf(),
            final(self).threshold() == old(self).threshold(),
            !old(self).contents().contains_key(key@) ==> r is Ok && final(self).segments() == old(
                self,
            ).segments(),
            r is Ok || r == Err::<(), StoreError>(StoreError::IdExhausted),
            old(self).contents().contains_key(key@) && old(self).active_id() < u64::MAX ==> r is Ok,
            r is Ok ==> final(self).contents() == old(self).contents().remove(key@),
            old(self).replays_cleanly() ==> final(self).replays_cleanly(),
            r is Ok && old(self).contents().contains_key(key@) ==> exists|now: u64|
                appended(
                    old(self).segments(),
                    final(self).segments(),
                    #[trigger] record_bytes(stamp(now), key@, tombstone()),
                    old(self).threshold(),
                    now,
                ),
            r is Err ==> final(self).contents() == old(self).contents(),
    {
        let now = now_secs();
        let ghost k = key@;
        let r = self.delete_at(key, now);
        assert(r is Ok && old(self).contents().contains_key(k) ==> appended(
            old(self).segments(),
            self.segments(),
            record_bytes(stamp(now), k, tombstone()),
            old(self).threshold(),
            now,
        ));
        r
    }

    /// Copies the current record of every key whose location lies in a
    /// sealed segment to the end of `merged`, and points the key there.
    fn move_entries(&mut self, mid: u64, merged: &mut Vec<u8>)
        requires
            old(self).key_dir.wf(),
            old(self).files@.len() >= 1,
            ids_ascending(old(self).segments()),
            mid < old(self).segments()[0].0,
            old(merged)@.len() == 0,
            index_ok(with_merged(mid, old(merged)@, old(self).segments()), old(self).index()),
            forall|k: Seq<u8>| #[trigger]
                old(self).index().contains_key(k) ==> old(self).index()[k].file_id != mid,
        ensures
            final(self).files == old(self).files,
            final(self).segment_size_threshold == old(self).segment_size_threshold,
            final(self).pending == old(self).pending,
            final(self).disk == old(self).disk,
            final(self).key_dir.wf(),
            index_ok(with_merged(mid, final(merged)@, final(self).segments()), final(self).index()),
            contents_of(with_merged(mid, final(merged)@, final(self).segments()), final(self).index())
                == contents_of(with_merged(mid, old(merged)@, old(self).segments()), old(self).index()),
            final(self).index().dom() == old(self).index().dom(),
            records_live(final(merged)@, 0, mid, final(self).index()),
            forall|k: Seq<u8>| #[trigger]
                old(self).index().contains_key(k) ==> if old(self).index()[k].file_id
                    == old(self).active_id() {
                    final(self).index()[k] == old(self).index()[k]
                } else {
                    final(self).index()[k].file_id == mid
                },
    {
        let ghost segs = self.segments();
        let ghost idx0 = self.index();
        let ghost c0 = contents_of(with_merged(mid, merged@, segs), idx0);
        let ghost keys0 = self.key_dir.keys();
        let active = self.files[self.files.len() - 1].id;
        let nk = self.key_dir.num_keys();
        proof {
            self.key_dir.lemma_keys();
        }
        let mut j: usize = 0;
        while j < nk
            invariant
                self.files == old(self).files,
                self.segment_size_threshold == old(self).segment_size_threshold,
                self.pending == old(self).pending,
                self.disk == old(self).disk,
                segs == self.segments(),
                segs == old(self).segments(),
                idx0 == old(self).index(),
                ids_ascending(segs),
                segs.len() >= 1,
                active == segs.last().0,
                mid < segs[0].0,
                nk == keys0.len(),
                j <= nk,
                self.key_dir.wf(),
                self.key_dir.keys() == keys0,
                forall|i: int| 0 <= i < keys0.len() ==> #[trigger] idx0.contains_key(keys0[i]),
                forall|k: Seq<u8>| #[trigger]
                    idx0.contains_key(k) ==> exists|i: int| 0 <= i < keys0.len() && keys0[i] == k,
                index_ok(with_merged(mid, merged@, segs), self.index()),
                contents_of(with_merged(mid, merged@, segs), self.index()) == c0,
                c0 == contents_of(with_merged(mid, old(merged)@, old(self).segments()), old(self).index()),
                self.index().dom() == idx0.dom(),
                forall|k: Seq<u8>| #[trigger]
                    idx0.contains_key(k) ==> (self.index()[k] == idx0[k] || (self.index()[k].file_id
                        == mid && idx0[k].file_id != active)),
                forall|i: int| 0 <= i < j ==> #[trigger] self.index()[keys0[i]].file_id == mid
                    || idx0[keys0[i]].file_id == active,
                forall|k: Seq<u8>| #[trigger]
                    idx0.contains_key(k) ==> idx0[k].file_id != mid,
                records_live(merged@, 0, mid, self.index()),
            decreases nk - j,
        {
            let ghost v0 = with_merged(mid, merged@, segs);
            proof {
                lemma_with_merged_ascending(mid, merged@, segs);
            }
            let (key, e) = self.key_dir.entry_at(j);
            let ghost k = key@;
            assert(idx0.contains_key(k));
            if e.file_id != active && e.file_id != mid {
                assert(e == idx0[k]);
                assert(entry_ok(v0, k, e));
                let si = match self.segment_index(e.file_id) {
                    Some(si) => si,
                    None => {
                        proof {
                            let t = choose|t: int| 0 <= t < v0.len() && v0[t].0 == e.file_id;
                            assert(t > 0);
                            assert(segs[t - 1].0 == e.file_id);
                        }
                        return;
                    },
                };
                proof {
                    lemma_data_of(v0, si + 1);
                }
                let rec = match Record::from_reader(self.files[si].data.as_slice(), e.value_posi) {
                    Ok((rec, _n)) => rec,
                    Err(_) => {
                        proof {
                            assert(false);
                        }
                        return;
                    },
                };
                let off = merged.len();
                let value_sz = rec.value.len() as u32;
                let mut bytes = rec.serialize();
                let ghost b = bytes@;
                let ghost m_before = merged@;
                merged.append(&mut bytes);
                let ghost v1 = with_merged(mid, merged@, segs);
                proof {
                    lemma_with_merged_ascending(mid, merged@, segs);
                    assert forall|a: int| 0 <= a < v0.len() implies #[trigger] v1[a].0 == v0[a].0
                        && v1[a].1.len() >= v0[a].1.len() && v1[a].1.take(v0[a].1.len() as int)
                        == v0[a].1 by {
                        assert(v0[a].1.take(v0[a].1.len() as int) =~= v0[a].1);
                        if a == 0 {
                            assert(v1[0].1.take(v0[0].1.len() as int) =~= v0[0].1);
                        }
                    }
                    lemma_extend_keeps_index(v0, v1, self.index());
                    assert(v1[0].1.skip(off as int) =~= b);
                }
                let entry = KeyDirValue { file_id: mid, value_posi: off, value_sz };
                proof {
                    lemma_point_at_record(v1, self.index(), 0, k, rec.value@, rec.timestamp, entry);
                    assert(c0.insert(k, unescaped(rec.value@)) =~= c0);
                    lemma_parse_lens(self.files@[si as int].data@.skip(e.value_posi as int));
                    lemma_record_round_trip(rec.timestamp, k, rec.value@, Seq::<u8>::empty());
                    assert(b + Seq::<u8>::empty() =~= b);
                    lemma_records_live_append(m_before, b, 0, mid, self.index(), k, entry);
                }
                self.key_dir.insert(key, entry);
                proof {
                    assert(self.index().dom() =~= idx0.dom());
                }
            }
            j = j + 1;
        }
        proof {
            assert forall|k: Seq<u8>| #[trigger] idx0.contains_key(k) implies (if idx0[k].file_id
                == active {
                self.index()[k] == idx0[k]
            } else {
                self.index()[k].file_id == mid
            }) by {
                let i = choose|i: int| 0 <= i < keys0.len() && keys0[i] == k;
                assert(self.index()[keys0[i]].file_id == mid || idx0[keys0[i]].file_id == active);
            }
        }
    }

    /// Whether the bytes decode as whole, valid records to their end.
    fn scans_clean(d: &Vec<u8>) -> (r: bool)
        ensures
            r == scans_clean_from(d@, 0),
    {
        let len = d.len();
        let mut pos: usize = 0;
        while pos < len
            invariant
                pos <= len,
                len == d@.len(),
                scans_clean_from(d@, 0) == scans_clean_from(d@, pos as nat),
            decreases len - pos,
        {
            match Record::from_reader(d.as_slice(), pos) {
                Err(_) => {
                    return false;
                },
                Ok((_rec, n)) => {
                    proof {
                        lemma_parse_extend_at(d@, pos as nat);
                    }
                    pos = pos + n;
                },
            }
        }
        true
    }

    #[verifier::rlimit(60)]
    /// Merges the sealed segments into one that sorts before them and holds
    /// the current record of every key whose location lay in them, then
    /// drops every sealed segment that decodes cleanly to its end. A sealed
    /// segment that does not is kept, and the call reports it. The active
    /// segment and the locations in it are left as they are.
    pub fn merge_and_compact(&mut self) -> (r: Result<(), StoreError>)
        requires
            old(self).wf(),
        ensures
            final(self).wf(),
            final(self).threshold() == old(self).threshold(),
            final(self).contents() == old(self).contents(),
            final(self).segments().last() == old(self).segments().last(),
            old(self).segments().len() <= 1 ==> r is Ok && final(self).segments() == old(
                self,
            ).segments(),
            old(self).segments().len() > 1 && old(self).segments()[0].0 == 0 ==> r == Err::<
                (),
                StoreError,
            >(StoreError::IdExhausted) && final(self).segments() == old(self).segments(),
            old(self).segments().len() > 1 && old(self).segments()[0].0 > 0 ==> {
                let olds = old(self).segments();
                let news = final(self).segments();
                let mid = (olds[0].0 - 1) as u64;
                let oldi = old(self).index();
                let newi = final(self).index();
                &&& (r is Ok <==> forall|t: int|
                    0 <= t < olds.len() - 1 ==> scans_clean_from(#[trigger] olds[t].1, 0))
                &&& r is Err ==> r == Err::<(), StoreError>(StoreError::SegmentCorrupt)
                &&& forall|j: int| 0 <= j < news.len() ==> news[j].0 == mid || exists|t: int|
                    0 <= t < olds.len() && olds[t] == #[trigger] news[j]
                &&& forall|t: int| 0 <= t < olds.len() - 1 ==> (has_segment(news, #[trigger] olds[t].0)
                    <==> !scans_clean_from(olds[t].1, 0))
                &&& newi.dom() == oldi.dom()
                &&& has_segment(news, mid) ==> records_live(data_of(news, mid), 0, mid, newi)
                &&& forall|k: Seq<u8>| #[trigger]
                    oldi.contains_key(k) ==> if oldi[k].file_id == old(self).active_id() {
                        newi[k] == oldi[k]
                    } else {
                        newi[k].file_id == mid
                    }
            },
    {
        if self.files.len() <= 1 {
            return Ok(());
        }
        let first = self.files[0].id;
        if first == 0 {
            return Err(StoreError::IdExhausted);
        }
        let mid = first - 1;
        let ghost segs = self.segments();
        let ghost c0 = self.contents();
        let mut merged: Vec<u8> = Vec::new();
        let mut clean: Vec<bool> = Vec::new();
        let last = self.files.len() - 1;
        proof {
            let v0 = with_merged(mid, merged@, segs);
            lemma_with_merged_ascending(mid, merged@, segs);
            assert forall|k: Seq<u8>| #[trigger] self.index().contains_key(k) implies exists|
                j: int,
                t: int,
            |
                0 <= j < v0.len() && 0 <= t < segs.len() && v0[j] == segs[t] && v0[j].0
                    == self.index()[k].file_id by {
                assert(entry_ok(segs, k, self.index()[k]));
                let t = choose|t: int| 0 <= t < segs.len() && segs[t].0 == self.index()[k].file_id;
                assert(v0[t + 1] == segs[t]);
            }
            lemma_same_referenced(segs, v0, self.index());
        }
        proof {
            assert forall|k: Seq<u8>| #[trigger] self.index().contains_key(k) implies self.index()[k].file_id
                != mid by {
                assert(entry_ok(segs, k, self.index()[k]));
                let t = choose|t: int| 0 <= t < segs.len() && segs[t].0 == self.index()[k].file_id;
                if t > 0 {
                    assert(segs[0].0 < segs[t].0);
                }
            }
        }
        let ghost idx0 = self.index();
        self.move_entries(mid, &mut merged);
        let mut all_clean = true;
        let mut i: usize = 0;
        while i < last
            invariant
                segs == self.segments(),
                self.files@.len() == last + 1,
                i <= last,
                clean@.len() == i,
                forall|t: int| 0 <= t < i ==> clean@[t] == scans_clean_from(segs[t].1, 0),
                all_clean == forall|t: int| 0 <= t < i ==> #[trigger] clean@[t],
            decreases last - i,
        {
            let ok = Store::scans_clean(&self.files[i].data);
            let ghost cb = clean@;
            let ghost ab = all_clean;
            clean.push(ok);
            all_clean = all_clean && ok;
            i = i + 1;
            proof {
                assert(clean@ == cb.push(ok));
                if all_clean {
                    assert forall|t: int| 0 <= t < i implies #[trigger] clean@[t] by {
                        if t < i - 1 {
                            assert(cb[t]);
                        }
                    }
                } else {
                    if !ok {
                        assert(!clean@[i - 1]);
                    } else {
                        assert(!ab);
                        let t = choose|t: int| 0 <= t < i - 1 && !#[trigger] cb[t];
                        assert(!clean@[t]);
                    }
                }
            }
        }
        let ghost v = with_merged(mid, merged@, segs);
        let ghost m = merged@;
        let ghost idx = self.index();
        proof {
            lemma_with_merged_ascending(mid, merged@, segs);
        }
        let ghost p0 = self.pending@;
        let mut out: Vec<Segment> = Vec::new();
        if merged.len() > 0 {
            let copy = merged.clone();
            self.pending.push(DiskOp::Create { id: mid });
            self.pending.push(DiskOp::Append { id: mid, bytes: copy });
            out.push(Segment { id: mid, data: merged });
            assert(seg_views(out@)[0] == (mid, m));
            proof {
                let c = DiskOp::Create { id: mid };
                lemma_apply_push(self.disk@, p0, c);
                lemma_apply_push(self.disk@, p0.push(c), DiskOp::Append { id: mid, bytes: copy });
                assert(self.pending@ == p0.push(c).push(DiskOp::Append { id: mid, bytes: copy }));
                assert(Seq::<u8>::empty() + m =~= m);
                lemma_seg_map_prepend(mid, m, segs);
                assert(seg_views(out@) + segs.skip(0) =~= v);
            }
        } else {
            assert(seg_views(out@) + segs.skip(0) =~= segs);
        }
        proof {
            if m.len() == 0 {
                assert forall|k: Seq<u8>| #[trigger] idx.contains_key(k) implies idx[k].file_id != mid by {
                    assert(entry_ok(v, k, idx[k]));
                    if idx[k].file_id == mid {
                        lemma_data_of(v, 0);
                        assert(v[0].1.skip(idx[k].value_posi as int) =~= Seq::<u8>::empty());
                        lemma_parse_empty();
                    }
                }
            }
        }
        let mut j: usize = 0;
        while j <= last
            invariant
                segs == self.segments(),
                self.files@.len() == last + 1,
                ids_ascending(segs),
                mid + 1 == segs[0].0,
                j <= last + 1,
                v == with_merged(mid, m, segs),
                ids_ascending(v),
                last < usize::MAX,
                idx == self.index(),
                self.key_dir.wf(),
                index_ok(v, idx),
                clean@.len() == last,
                forall|t: int| 0 <= t < last ==> clean@[t] == scans_clean_from(segs[t].1, 0),
                ids_ascending(seg_views(out@)),
                out@.len() > 0 ==> (j <= last ==> seg_views(out@).last().0 < segs[j as int].0),
                forall|a: int| 0 <= a < out@.len() ==> seg_views(out@)[a].0 == mid || exists|t: int|
                    0 <= t < j && segs[t] == #[trigger] seg_views(out@)[a],
                forall|a: int| 0 <= a < out@.len() && seg_views(out@)[a].0 == mid ==> seg_views(out@)[a] == v[0],
                m.len() > 0 ==> has_segment(seg_views(out@), mid),
                forall|t: int| 0 <= t < j ==> (has_segment(seg_views(out@), #[trigger] segs[t].0)
                    <==> (t == last || !clean@[t])),
                forall|k: Seq<u8>| #[trigger] idx.contains_key(k) ==> idx[k].file_id == mid
                    || idx[k].file_id == segs[last as int].0,
                forall|t: int| 0 <= t < j && has_segment(seg_views(out@), #[trigger] segs[t].0) ==> exists|a: int|
                    0 <= a < out@.len() && seg_views(out@)[a] == segs[t],
                self.segment_size_threshold == old(self).segment_size_threshold,
                self.disk == old(self).disk,
                ids_ascending(seg_views(out@) + segs.skip(j as int)),
                apply_ops(self.disk@, ops_view(self.pending@)) == seg_map(seg_views(out@) + segs.skip(j as int)),
            decreases last + 1 - j,
        {
            let sid = self.files[j].id;
            let keep = j == last || !clean[j];
            let ghost before = seg_views(out@);
            let ghost pb = self.pending@;
            proof {
                assert(segs.skip(j as int) =~= seq![segs[j as int]] + segs.skip(j + 1));
            }
            if keep {
                let data = self.files[j].data.clone();
                out.push(Segment { id: sid, data });
                proof {
                    assert(seg_views(out@) =~= before.push(segs[j as int]));
                    lemma_push_ascending(before, segs[j as int]);
                    assert(seg_views(out@) + segs.skip(j + 1) =~= before + segs.skip(j as int));
                    assert(has_segment(seg_views(out@), sid)) by {
                        assert(seg_views(out@)[before.len() as int].0 == sid);
                    }
                }
            } else {
                self.pending.push(DiskOp::Remove { id: sid });
                proof {
                    lemma_apply_push(self.disk@, pb, DiskOp::Remove { id: sid });
                    assert(before + seq![segs[j as int]] + segs.skip(j + 1) =~= before + segs.skip(j as int));
                    lemma_seg_map_remove(before, segs[j as int], segs.skip(j + 1));
                    assert(seg_views(out@) == before);
                    if has_segment(before, sid) {
                        let a = choose|a: int| 0 <= a < before.len() && before[a].0 == sid;
                        if before[a].0 == mid {
                            assert(mid < segs[j as int].0);
                        } else {
                            let t = choose|t: int| 0 <= t < j && segs[t] == before[a];
                            assert(segs[t].0 < segs[j as int].0);
                        }
                    }
                }
            }
            proof {
                if m.len() > 0 {
                    let a = choose|a: int| 0 <= a < before.len() && before[a].0 == mid;
                    assert(seg_views(out@)[a] == before[a]);
                }
                assert forall|t: int| 0 <= t < j + 1 implies (has_segment(seg_views(out@), #[trigger] segs[t].0)
                    <==> (t == last || !clean@[t])) by {
                    if t < j {
                        if has_segment(seg_views(out@), segs[t].0) && !has_segment(before, segs[t].0) {
                            assert(keep);
                            let a = choose|a: int| 0 <= a < seg_views(out@).len() && seg_views(out@)[a].0 == segs[t].0;
                            assert(a == before.len());
                            assert(segs[t].0 < segs[j as int].0);
                        }
                        if has_segment(before, segs[t].0) {
                            let a = choose|a: int| 0 <= a < before.len() && before[a].0 == segs[t].0;
                            assert(seg_views(out@)[a] == before[a]);
                        }
                    }
                }
            }
            j = j + 1;
        }
        proof {
            let news = seg_views(out@);
            assert forall|k: Seq<u8>| #[trigger] idx.contains_key(k) implies exists|a: int, t: int|
                0 <= a < news.len() && 0 <= t < v.len() && news[a] == v[t] && news[a].0 == idx[k].file_id by {
                assert(entry_ok(v, k, idx[k]));
                let id = idx[k].file_id;
                let t = choose|t: int| 0 <= t < v.len() && v[t].0 == id;
                if t == 0 {
                    assert(m.len() > 0);
                    let a = choose|a: int| 0 <= a < news.len() && news[a].0 == mid;
                    assert(news[a] == v[0]);
                } else {
                    assert(t - 1 == last);
                    assert(has_segment(news, segs[t - 1].0));
                    let a = choose|a: int| 0 <= a < news.len() && news[a] == segs[t - 1];
                    assert(news[a] == v[t]);
                }
            }
            assert(ids_ascending(v));
            lemma_same_referenced(v, news, idx);
            assert(has_segment(news, segs[last as int].0));
            let a = choose|a: int| 0 <= a < news.len() && news[a] == segs[last as int];
            if a < news.len() - 1 {
                let b = news.len() - 1;
                assert(news[a].0 < news[b].0);
                if news[b].0 != mid {
                    let t = choose|t: int| 0 <= t < last + 1 && segs[t] == news[b];
                    if t < last {
                        assert(segs[t].0 < segs[last as int].0);
                    }
                }
            }
            assert(news.last() == segs.last());
            assert(news + segs.skip(last + 1) =~= news);
            if has_segment(news, mid) {
                let a = choose|a: int| 0 <= a < news.len() && news[a].0 == mid;
                assert(news[a] == v[0]);
                lemma_data_of(news, a);
            }
        }
        self.files = out;
        if all_clean {
            Ok(())
        } else {
            Err(StoreError::SegmentCorrupt)
        }
    }

    /// Replays segment `i` into the index, from its first byte to its last
    /// record that decodes.
    fn replay_segment(key_dir: &mut KeyDir, files: &Vec<Segment>, i: usize) -> (r: (
        usize,
        Option<CodecError>,
    ))
        requires
            old(key_dir).wf(),
            ids_ascending(seg_views(files@)),
            i < files@.len(),
            index_ok(seg_views(files@), old(key_dir).view()),
            forall|k: Seq<u8>| #[trigger]
                old(key_dir).view().contains_key(k) ==> exists|t: int|
                    0 <= t < i && seg_views(files@)[t].0 == old(key_dir).view()[k].file_id,
        ensures
            final(key_dir).wf(),
            index_ok(seg_views(files@), final(key_dir).view()),
            (contents_of(seg_views(files@), final(key_dir).view()), r.0 as nat, r.1) == replay_from(
                contents_of(seg_views(files@), old(key_dir).view()),
                seg_views(files@)[i as int].1,
                0,
            ),
            r.0 <= files@[i as int].data@.len(),
            r.1 is None ==> r.0 == files@[i as int].data@.len(),
            forall|k: Seq<u8>| #[trigger]
                final(key_dir).view().contains_key(k) ==> exists|t: int|
                    0 <= t <= i && seg_views(files@)[t].0 == final(key_dir).view()[k].file_id,
            forall|k: Seq<u8>| #[trigger]
                final(key_dir).view().contains_key(k) && final(key_dir).view()[k].file_id
                    == seg_views(files@)[i as int].0 ==> final(key_dir).view()[k].value_posi
                    + located(seg_views(files@), final(key_dir).view()[k])->Ok_0.3 <= r.0,
    {
        let ghost segs = seg_views(files@);
        let ghost m0 = contents_of(segs, key_dir.view());
        let ghost d = segs[i as int].1;
        let sid = files[i].id;
        let len = files[i].data.len();
        let mut pos: usize = 0;
        proof {
            assert forall|k: Seq<u8>| #[trigger] key_dir.view().contains_key(k) implies key_dir.view()[k].file_id != sid by {
                let t = choose|t: int| 0 <= t < i && segs[t].0 == key_dir.view()[k].file_id;
                assert(segs[t].0 < segs[i as int].0);
            }
        }
        while pos < len
            invariant
                segs == seg_views(files@),
                ids_ascending(segs),
                i < segs.len(),
                d == segs[i as int].1,
                d == files@[i as int].data@,
                m0 == contents_of(segs, old(key_dir).view()),
                sid == segs[i as int].0,
                len == d.len(),
                pos <= len,
                key_dir.wf(),
                index_ok(segs, key_dir.view()),
                replay_from(m0, d, 0) == replay_from(contents_of(segs, key_dir.view()), d, pos as nat),
                forall|k: Seq<u8>| #[trigger]
                    key_dir.view().contains_key(k) ==> exists|t: int|
                        0 <= t <= i && segs[t].0 == key_dir.view()[k].file_id,
                forall|k: Seq<u8>| #[trigger]
                    key_dir.view().contains_key(k) && key_dir.view()[k].file_id == sid
                        ==> key_dir.view()[k].value_posi + located(segs, key_dir.view()[k])->Ok_0.3
                        <= pos,
            decreases len - pos,
        {
            match Record::from_reader(files[i].data.as_slice(), pos) {
                Err(e) => {
                    return (pos, Some(e));
                },
                Ok((rec, n)) => {
                    let ghost c = contents_of(segs, key_dir.view());
                    let ghost idx = key_dir.view();
                    proof {
                        lemma_parse_extend_at(d, pos as nat);
                        lemma_parse_lens(d.skip(pos as int));
                        lemma_data_of(segs, i as int);
                    }
                    if crate::tombstone::is_tombstone(rec.value.as_slice()) {
                        key_dir.remove(rec.key.as_slice());
                        proof {
                            assert(contents_of(segs, idx.remove(rec.key@)) =~= c.remove(rec.key@));
                        }
                    } else {
                        let entry = KeyDirValue {
                            file_id: sid,
                            value_posi: pos,
                            value_sz: rec.value.len() as u32,
                        };
                        proof {
                            lemma_point_at(segs, idx, i as int, rec.key@, entry);
                        }
                        key_dir.insert(rec.key, entry);
                        proof {
                            assert(exists|t: int| 0 <= t <= i && segs[t].0 == entry.file_id) by {
                                assert(segs[i as int].0 == entry.file_id);
                            }
                        }
                    }
                    pos = pos + n;
                    proof {
                        assert forall|k: Seq<u8>| #[trigger] key_dir.view().contains_key(k) implies exists|
                            t: int,
                        | 0 <= t <= i && segs[t].0 == key_dir.view()[k].file_id by {
                            if idx.contains_key(k) && key_dir.view()[k] == idx[k] {
                            } else {
                                assert(segs[i as int].0 == key_dir.view()[k].file_id);
                            }
                        }
                    }
                },
            }
        }
        (pos, None)
    }

    #[verifier::rlimit(100)]
    /// Opens a store over existing segments, given in id order, by replaying
    /// every record oldest to newest. A record cut short at the end of the
    /// last segment is dropped and the segment cut back to its last whole
    /// record; any other decoding error fails the open. With no segments, an
    /// empty one is started.
    pub fn new(segments: Vec<Segment>, segment_size_threshold: u64) -> (r: Result<Store, StoreError>)
        ensures
            !ids_ascending(seg_views(segments@)) ==> r is Err && r->Err_0 == StoreError::SegmentOrder,
            ids_ascending(seg_views(segments@)) && segments@.len() == 0 ==> {
                &&& r is Ok
                &&& r->Ok_0.wf()
                &&& r->Ok_0.threshold() == segment_size_threshold
                &&& r->Ok_0.contents() == Map::<Seq<u8>, Seq<u8>>::empty()
                &&& r->Ok_0.replays_cleanly()
                &&& r->Ok_0.segments().len() == 1
                &&& r->Ok_0.active_data().len() == 0
            },
            ids_ascending(seg_views(segments@)) && segments@.len() > 0 ==> {
                let segs = seg_views(segments@);
                match replay_upto(segs, segs.len()) {
                    Ok((m, stop)) => {
                        &&& r is Ok
                        &&& r->Ok_0.wf()
                        &&& r->Ok_0.threshold() == segment_size_threshold
                        &&& r->Ok_0.contents() == m
                        &&& r->Ok_0.on_disk() == seg_map(segs)
                        &&& r->Ok_0.replays_cleanly()
                        &&& r->Ok_0.segments() == segs.update(
                            segs.len() - 1,
                            (segs.last().0, segs.last().1.take(stop as int)),
                        )
                    },
                    Err(e) => r is Err && r->Err_0 == e,
                }
            },
    {
        let ghost disk0 = seg_map(seg_views(segments@));
        let n = segments.len();
        let mut k: usize = 1;
        while k < n
            invariant
                n == segments@.len(),
                1 <= k,
                forall|a: int, b: int| 0 <= a < b < k && b < n ==> segments@[a].id < segments@[b].id,
            decreases n - k,
        {
            if segments[k - 1].id >= segments[k].id {
                proof {
                    let segs = seg_views(segments@);
                    assert(segs[k - 1].0 >= segs[k as int].0);
                }
                return Err(StoreError::SegmentOrder);
            }
            proof {
                assert forall|a: int, b: int| 0 <= a < b < k + 1 && b < n implies segments@[a].id
                    < segments@[b].id by {
                    if b == k && a < k - 1 {
                        assert(segments@[a].id < segments@[k - 1].id);
                    }
                }
            }
            k = k + 1;
        }
        proof {
            let segs = seg_views(segments@);
            assert forall|a: int, b: int| 0 <= a < b < segs.len() implies segs[a].0 < segs[b].0 by {
                assert(segments@[a].id < segments@[b].id);
            }
        }
        let mut files = segments;
        let mut pending: Vec<DiskOp> = Vec::new();
        let mut key_dir = KeyDir::new();
        if n == 0 {
            let id = now_secs();
            files.push(Segment { id, data: Vec::new() });
            pending.push(DiskOp::Create { id });
            let store = Store { key_dir, files, segment_size_threshold, pending, disk: Ghost(disk0) };
            proof {
                assert(seg_views(segments@) =~= Seq::<(u64, Seq<u8>)>::empty());
                assert(seg_map(Seq::<(u64, Seq<u8>)>::empty()) =~= Map::<u64, Seq<u8>>::empty());
                assert(disk0 =~= Map::<u64, Seq<u8>>::empty());
                assert(store.disk_ops() =~= seq![(0nat, id, Seq::<u8>::empty(), 0nat)]);
                assert(store.disk_ops().drop_last() =~= Seq::<(nat, u64, Seq<u8>, nat)>::empty());
                assert(store.segments() =~= seq![(id, Seq::<u8>::empty())]);
                assert(store.segments().drop_last() =~= Seq::<(u64, Seq<u8>)>::empty());
                lemma_seg_map_set(Seq::<(u64, Seq<u8>)>::empty(), store.segments(), 0);
                assert(replay_upto(store.segments(), 0) == Ok::<_, StoreError>(
                    (Map::<Seq<u8>, Seq<u8>>::empty(), 0nat),
                ));
                assert(replay_from(Map::<Seq<u8>, Seq<u8>>::empty(), Seq::<u8>::empty(), 0) == (
                    Map::<Seq<u8>, Seq<u8>>::empty(),
                    0nat,
                    None::<CodecError>,
                ));
                lemma_apply_push(disk0, Seq::<DiskOp>::empty(), DiskOp::Create { id });
                assert(store.pending@ =~= Seq::<DiskOp>::empty().push(DiskOp::Create { id }));
                assert(ops_view(Seq::<DiskOp>::empty()) =~= Seq::<(nat, u64, Seq<u8>, nat)>::empty());
                assert(index_ok(store.segments(), store.index()));
                assert(store.contents() =~= Map::<Seq<u8>, Seq<u8>>::empty());
            }
            return Ok(store);
        }
        let ghost segs = seg_views(files@);
        proof {
            assert(contents_of(segs, key_dir.view()) =~= Map::<Seq<u8>, Seq<u8>>::empty());
        }
        assert(segs == seg_views(segments@));
        let mut i: usize = 0;
        while i < n
            invariant
                n == files@.len(),
                n > 0,
                segs == seg_views(files@),
                segs == seg_views(segments@),
                i > 0 ==> replay_upto(segs, i as nat)->Ok_0.1 == segs[i - 1].1.len(),
                ids_ascending(segs),
                i <= n,
                key_dir.wf(),
                index_ok(segs, key_dir.view()),
                replay_upto(segs, i as nat) is Ok,
                replay_upto(segs, i as nat)->Ok_0.0 == contents_of(segs, key_dir.view()),
                pending@ == Seq::<DiskOp>::empty(),
                disk0 == seg_map(segs),
                forall|k: Seq<u8>| #[trigger]
                    key_dir.view().contains_key(k) ==> exists|t: int|
                        0 <= t < i && segs[t].0 == key_dir.view()[k].file_id,
            decreases n - i,
        {
            let ghost m_prev = contents_of(segs, key_dir.view());
            let (stop, err) = Store::replay_segment(&mut key_dir, &files, i);
            match err {
                None => {},
                Some(e) => {
                    let cut = e == CodecError::Truncated || (e == CodecError::Encoding
                        && header_cut_at(files[i].data.as_slice(), stop));
                    if i + 1 < n || !cut {
                        let se = match e {
                            CodecError::Encoding => StoreError::Encoding,
                            CodecError::Truncated => StoreError::Truncated,
                            CodecError::ChecksumMismatch => StoreError::ChecksumMismatch,
                        };
                        proof {
                            lemma_replay_err_persists(segs, (i + 1) as nat, n as nat);
                        }
                        return Err(se);
                    }
                    let ghost idx = key_dir.view();
                    proof {
                        lemma_truncate_keeps_index(segs, idx, stop as nat);
                    }
                    let mut seg = files.pop().unwrap();
                    let id = seg.id;
                    seg.data.truncate(stop);
                    files.push(seg);
                    pending.push(DiskOp::Truncate { id, len: stop });
                    let store = Store {
                        key_dir,
                        files,
                        segment_size_threshold,
                        pending,
                        disk: Ghost(disk0),
                    };
                    assert(store.segments() =~= segs.update(
                        segs.len() - 1,
                        (segs.last().0, segs.last().1.take(stop as int)),
                    ));
                    proof {
                        assert(store.disk_ops() =~= seq![(2nat, id, Seq::<u8>::empty(), stop as nat)]);
                        assert(store.disk_ops().drop_last() =~= Seq::<(nat, u64, Seq<u8>, nat)>::empty());
                        assert(apply_ops(disk0, Seq::<(nat, u64, Seq<u8>, nat)>::empty()) == disk0);
                        lemma_data_of(segs, segs.len() - 1);
                        lemma_seg_map_set(segs, store.segments(), segs.len() - 1);
                        let segs2 = store.segments();
                        let d = segs[i as int].1;
                        lemma_replay_truncated(m_prev, d, 0);
                        lemma_replay_upto_prefix(segs, segs2, i as nat);
                        assert(segs2[i as int].1 == d.take(stop as int));
                        assert(replay_upto(segs2, (i + 1) as nat) == Ok::<_, StoreError>(
                            (contents_of(segs, idx), stop as nat),
                        ));
                    }
                    return Ok(store);
                },
            }
            i = i + 1;
        }
        let store = Store { key_dir, files, segment_size_threshold, pending, disk: Ghost(disk0) };
        proof {
            assert(store.disk_ops() =~= Seq::<(nat, u64, Seq<u8>, nat)>::empty());
            let stop = replay_upto(segs, n as nat)->Ok_0.1;
            assert(segs.last().1.take(stop as int) =~= segs.last().1);
            assert(segs.update(segs.len() - 1, (segs.last().0, segs.last().1.take(stop as int))) =~= segs);
        }
        Ok(store)
    }

    /// Where the current record of `key` lies, if the key has a value: the
    /// host reads the record's bytes from that segment file at that offset
    /// and checks them with [`Store::decode_value`].
    pub fn locate(&self, key: &Vec<u8>) -> (r: Option<KeyDirValue>)
        requires
            self.wf(),
        ensures
            r == (if self.index().contains_key(key@) {
                Some(self.index()[key@])
            } else {
                None::<KeyDirValue>
            }),
            r is Some <==> self.contents().contains_key(key@),
    {
        self.key_dir.get(key.as_slice())
    }

    /// Checks the bytes read at a key's location and gives its value: a
    /// record that does not decode, fails its checksum, or belongs to
    /// another key, or a tombstone, is reported as corruption.
    pub fn decode_value(key: &Vec<u8>, bytes: &Vec<u8>) -> (r: Result<Vec<u8>, StoreError>)
        ensures
            match parse_record(bytes@) {
                Ok((_ts, k, v, _n)) => if k == key@ && v != tombstone() {
                    r is Ok && r->Ok_0@ == unescaped(v)
                } else {
                    r == Err::<Vec<u8>, StoreError>(StoreError::DataCorruption)
                },
                Err(_) => r == Err::<Vec<u8>, StoreError>(StoreError::DataCorruption),
            },
    {
        match Record::from_bytes(bytes.as_slice()) {
            Ok((rec, _n)) => {
                if crate::keydir::bytes_eq(rec.key.as_slice(), key.as_slice())
                    && !crate::tombstone::is_tombstone(rec.value.as_slice()) {
                    Ok(unescape_tombstone(rec.value))
                } else {
                    Err(StoreError::DataCorruption)
                }
            },
            Err(_) => Err(StoreError::DataCorruption),
        }
    }
}

/// Reading a key's value from intact segment bytes at the location the
/// store gives yields the value the store holds.
pub proof fn lemma_located_value(s: Store, key: Seq<u8>)
    requires
        s.wf(),
        s.index().contains_key(key),
    ensures
        ({
            let e = s.index()[key];
            let bytes = data_of(s.segments(), e.file_id).skip(e.value_posi as int);
            &&& parse_record(bytes) is Ok
            &&& parse_record(bytes)->Ok_0.1 == key
            &&& parse_record(bytes)->Ok_0.2 != tombstone()
            &&& unescaped(parse_record(bytes)->Ok_0.2) == s.contents()[key]
        }),
{
    assert(entry_ok(s.segments(), key, s.index()[key]));
}

} // verus!
