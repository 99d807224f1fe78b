use vstd::prelude::*;
use crate::keydir::KeyDirValue;
use crate::record::{
    lemma_parse_agree, lemma_parse_extend, lemma_record_round_trip, parse_record, record_bytes,
    CodecError,
};
use crate::tombstone::{tombstone, unescaped};

verus! {

/// An append-only run of records, named by a sortable id.
pub struct Segment {
    pub id: u64,
    pub data: Vec<u8>,
}

/// Segments as (id, bytes) pairs.
pub open spec fn seg_views(v: Seq<Segment>) -> Seq<(u64, Seq<u8>)> {
    v.map_values(|s: Segment| (s.id, s.data@))
}

/// Ids strictly increase along the list.
pub open spec fn ids_ascending(segs: Seq<(u64, Seq<u8>)>) -> bool {
    forall|i: int, j: int| 0 <= i < j < segs.len() ==> segs[i].0 < segs[j].0
}

pub open spec fn has_segment(segs: Seq<(u64, Seq<u8>)>, id: u64) -> bool {
    exists|i: int| 0 <= i < segs.len() && segs[i].0 == id
}

/// The bytes of the segment named `id`.
pub open spec fn data_of(segs: Seq<(u64, Seq<u8>)>, id: u64) -> Seq<u8> {
    segs[choose|i: int| 0 <= i < segs.len() && segs[i].0 == id].1
}

/// What decodes at the location an index entry names.
pub open spec fn located(segs: Seq<(u64, Seq<u8>)>, e: KeyDirValue) -> Result<
    (u32, Seq<u8>, Seq<u8>, nat),
    CodecError,
> {
    parse_record(data_of(segs, e.file_id).skip(e.value_posi as int))
}

/// The entry for `k` names a segment that exists and an offset at which a
/// valid, non-tombstone record for `k` starts.
pub open spec fn entry_ok(segs: Seq<(u64, Seq<u8>)>, k: Seq<u8>, e: KeyDirValue) -> bool {
    &&& has_segment(segs, e.file_id)
    &&& e.value_posi <= data_of(segs, e.file_id).len()
    &&& located(segs, e) is Ok
    &&& located(segs, e)->Ok_0.1 == k
    &&& located(segs, e)->Ok_0.2 != tombstone()
    &&& e.value_sz == located(segs, e)->Ok_0.2.len()
}

pub open spec fn index_ok(segs: Seq<(u64, Seq<u8>)>, index: Map<Seq<u8>, KeyDirValue>) -> bool {
    forall|k: Seq<u8>| #[trigger] index.contains_key(k) ==> entry_ok(segs, k, index[k])
}

/// The key-value pairs that an index over these segments stands for.
pub open spec fn contents_of(segs: Seq<(u64, Seq<u8>)>, index: Map<Seq<u8>, KeyDirValue>) -> Map<
    Seq<u8>,
    Seq<u8>,
> {
    Map::new(
        |k: Seq<u8>| index.contains_key(k),
        |k: Seq<u8>| unescaped(located(segs, index[k])->Ok_0.2),
    )
}

pub proof fn lemma_data_of(segs: Seq<(u64, Seq<u8>)>, j: int)
    requires
        ids_ascending(segs),
        0 <= j < segs.len(),
    ensures
        has_segment(segs, segs[j].0),
        data_of(segs, segs[j].0) == segs[j].1,
{
    assert(segs[j].0 == segs[j].0);
    let i = choose|i: int| 0 <= i < segs.len() && segs[i].0 == segs[j].0;
    assert(i == j);
}

/// `new` holds the same segments as `old`, each with the same bytes or with
/// bytes added at its end, plus possibly more segments.
pub open spec fn extends(old: Seq<(u64, Seq<u8>)>, new: Seq<(u64, Seq<u8>)>) -> bool {
    &&& old.len() <= new.len()
    &&& forall|j: int|
        0 <= j < old.len() ==> #[trigger] new[j].0 == old[j].0 && new[j].1.len() >= old[j].1.len()
            && new[j].1.take(old[j].1.len() as int) == old[j].1
}

/// Adding bytes to segments keeps every index entry valid, with the same
/// record at its location.
pub proof fn lemma_extend_keeps_index(
    old: Seq<(u64, Seq<u8>)>,
    new: Seq<(u64, Seq<u8>)>,
    index: Map<Seq<u8>, KeyDirValue>,
)
    requires
        ids_ascending(old),
        ids_ascending(new),
        extends(old, new),
        index_ok(old, index),
    ensures
        index_ok(new, index),
        contents_of(new, index) == contents_of(old, index),
        forall|k: Seq<u8>| #[trigger]
            index.contains_key(k) ==> located(new, index[k]) == located(old, index[k]),
{
    assert forall|k: Seq<u8>| #[trigger] index.contains_key(k) implies entry_ok(new, k, index[k])
        && located(new, index[k]) == located(old, index[k]) by {
        lemma_extend_keeps_entry(old, new, k, index[k]);
    }
    assert(contents_of(new, index) =~= contents_of(old, index));
}

pub proof fn lemma_extend_keeps_entry(
    old: Seq<(u64, Seq<u8>)>,
    new: Seq<(u64, Seq<u8>)>,
    k: Seq<u8>,
    e: KeyDirValue,
)
    requires
        ids_ascending(old),
        ids_ascending(new),
        extends(old, new),
        entry_ok(old, k, e),
    ensures
        entry_ok(new, k, e),
        located(new, e) == located(old, e),
{
    let j = choose|j: int| 0 <= j < old.len() && old[j].0 == e.file_id;
    lemma_data_of(old, j);
    lemma_data_of(new, j);
    let d = old[j].1;
    let d2 = new[j].1;
    let p = e.value_posi as int;
    let t = d2.skip(d.len() as int);
    assert(d2 =~= d + t);
    assert(d2.skip(p) =~= d.skip(p) + t);
    lemma_parse_extend(d.skip(p), t);
}

/// Whether the bytes decode as a run of whole, valid records from `pos` to
/// the end.
pub open spec fn scans_clean_from(d: Seq<u8>, pos: nat) -> bool
    decreases d.len() - pos,
{
    if pos >= d.len() {
        true
    } else {
        match parse_record(d.skip(pos as int)) {
            Ok((_ts, _k, _v, n)) => 0 < n && pos + n <= d.len() && scans_clean_from(d, pos + n),
            Err(_) => false,
        }
    }
}

/// A record that decodes at `pos` is followed, for a clean scan, by what
/// follows it.
pub proof fn lemma_parse_extend_at(d: Seq<u8>, pos: nat)
    requires
        pos < d.len(),
        parse_record(d.skip(pos as int)) is Ok,
    ensures
        0 < parse_record(d.skip(pos as int))->Ok_0.3,
        pos + parse_record(d.skip(pos as int))->Ok_0.3 <= d.len(),
        scans_clean_from(d, pos) == scans_clean_from(d, pos + parse_record(d.skip(pos as int))->Ok_0.3),
{
    lemma_parse_extend(d.skip(pos as int), Seq::<u8>::empty());
}

/// Adding one segment with a larger id keeps the ids ascending.
pub proof fn lemma_push_ascending(segs: Seq<(u64, Seq<u8>)>, s: (u64, Seq<u8>))
    requires
        ids_ascending(segs),
        segs.len() > 0 ==> segs.last().0 < s.0,
    ensures
        ids_ascending(segs.push(s)),
{
    assert forall|i: int, j: int| 0 <= i < j < segs.push(s).len() implies segs.push(s)[i].0 < segs.push(
        s,
    )[j].0 by {
        if j == segs.len() {
            if i < segs.len() - 1 {
                assert(segs[i].0 < segs[segs.len() - 1].0);
            }
        }
    }
}

/// Pointing `key` at a valid record for it in segment `j` keeps the index
/// valid and gives `key` that record's value.
pub proof fn lemma_point_at(
    segs: Seq<(u64, Seq<u8>)>,
    index: Map<Seq<u8>, KeyDirValue>,
    j: int,
    key: Seq<u8>,
    e: KeyDirValue,
)
    requires
        ids_ascending(segs),
        index_ok(segs, index),
        0 <= j < segs.len(),
        e.file_id == segs[j].0,
        e.value_posi <= segs[j].1.len(),
        parse_record(segs[j].1.skip(e.value_posi as int)) is Ok,
        parse_record(segs[j].1.skip(e.value_posi as int))->Ok_0.1 == key,
        parse_record(segs[j].1.skip(e.value_posi as int))->Ok_0.2 != tombstone(),
        e.value_sz == parse_record(segs[j].1.skip(e.value_posi as int))->Ok_0.2.len(),
    ensures
        entry_ok(segs, key, e),
        index_ok(segs, index.insert(key, e)),
        contents_of(segs, index.insert(key, e)) == contents_of(segs, index).insert(
            key,
            unescaped(parse_record(segs[j].1.skip(e.value_posi as int))->Ok_0.2),
        ),
{
    lemma_data_of(segs, j);
    let idx = index.insert(key, e);
    assert forall|k: Seq<u8>| #[trigger] idx.contains_key(k) implies entry_ok(segs, k, idx[k]) by {
        if k != key {
            assert(index.contains_key(k));
        }
    }
    assert(contents_of(segs, idx) =~= contents_of(segs, index).insert(
        key,
        unescaped(parse_record(segs[j].1.skip(e.value_posi as int))->Ok_0.2),
    ));
}

/// Cutting the last segment short keeps every index entry whose record
/// ends before the cut.
pub proof fn lemma_truncate_keeps_index(
    segs: Seq<(u64, Seq<u8>)>,
    index: Map<Seq<u8>, KeyDirValue>,
    stop: nat,
)
    requires
        ids_ascending(segs),
        segs.len() > 0,
        index_ok(segs, index),
        stop <= segs.last().1.len(),
        forall|k: Seq<u8>| #[trigger]
            index.contains_key(k) && index[k].file_id == segs.last().0 ==> index[k].value_posi
                + located(segs, index[k])->Ok_0.3 <= stop,
    ensures
        ids_ascending(segs.update(segs.len() - 1, (segs.last().0, segs.last().1.take(stop as int)))),
        index_ok(segs.update(segs.len() - 1, (segs.last().0, segs.last().1.take(stop as int))), index),
        contents_of(segs.update(segs.len() - 1, (segs.last().0, segs.last().1.take(stop as int))), index)
            == contents_of(segs, index),
{
    let last = segs.len() - 1;
    let d = segs.last().1;
    let segs2 = segs.update(last, (segs.last().0, d.take(stop as int)));
    assert(ids_ascending(segs2));
    assert forall|k: Seq<u8>| #[trigger] index.contains_key(k) implies entry_ok(segs2, k, index[k])
        && located(segs2, index[k]) == located(segs, index[k]) by {
        let e = index[k];
        let t = choose|t: int| 0 <= t < segs.len() && segs[t].0 == e.file_id;
        lemma_data_of(segs, t);
        lemma_data_of(segs2, t);
        if t == last {
            let p = e.value_posi as int;
            let n = located(segs, e)->Ok_0.3;
            lemma_parse_extend(d.skip(p), Seq::<u8>::empty());
            assert(d.skip(p) + Seq::<u8>::empty() =~= d.skip(p));
            assert(d.take(stop as int).skip(p).take(n as int) =~= d.skip(p).take(n as int));
            lemma_parse_agree(d.skip(p), d.take(stop as int).skip(p));
        }
    }
    assert(contents_of(segs2, index) =~= contents_of(segs, index));
}

/// Pointing `key` at a record for it just written at the end of segment
/// `j` keeps the index valid and gives `key` that record's value.
pub proof fn lemma_point_at_record(
    segs: Seq<(u64, Seq<u8>)>,
    index: Map<Seq<u8>, KeyDirValue>,
    j: int,
    key: Seq<u8>,
    value: Seq<u8>,
    ts: u32,
    e: KeyDirValue,
)
    requires
        ids_ascending(segs),
        index_ok(segs, index),
        0 <= j < segs.len(),
        key.len() <= u32::MAX,
        value.len() <= u32::MAX,
        value != tombstone(),
        e.file_id == segs[j].0,
        e.value_posi <= segs[j].1.len(),
        segs[j].1.skip(e.value_posi as int) == record_bytes(ts, key, value),
        e.value_sz == value.len(),
    ensures
        entry_ok(segs, key, e),
        located(segs, e)->Ok_0.2 == value,
        index_ok(segs, index.insert(key, e)),
        contents_of(segs, index.insert(key, e)) == contents_of(segs, index).insert(
            key,
            unescaped(value),
        ),
{
    lemma_data_of(segs, j);
    let rec = record_bytes(ts, key, value);
    assert(rec + Seq::<u8>::empty() =~= rec);
    lemma_record_round_trip(ts, key, value, Seq::<u8>::empty());
    let idx = index.insert(key, e);
    assert forall|k: Seq<u8>| #[trigger] idx.contains_key(k) implies entry_ok(segs, k, idx[k]) by {
        if k != key {
            assert(index.contains_key(k));
        }
    }
    assert(contents_of(segs, idx) =~= contents_of(segs, index).insert(key, unescaped(value)));
}

/// Two segment lists that hold the same segment for every id the index
/// refers to give the index the same validity and the same contents.
pub proof fn lemma_same_referenced(
    segs: Seq<(u64, Seq<u8>)>,
    other: Seq<(u64, Seq<u8>)>,
    index: Map<Seq<u8>, KeyDirValue>,
)
    requires
        ids_ascending(segs),
        ids_ascending(other),
        index_ok(segs, index),
        forall|k: Seq<u8>| #[trigger]
            index.contains_key(k) ==> exists|j: int, t: int|
                0 <= j < other.len() && 0 <= t < segs.len() && other[j] == segs[t] && other[j].0
                    == index[k].file_id,
    ensures
        index_ok(other, index),
        contents_of(other, index) == contents_of(segs, index),
{
    assert forall|k: Seq<u8>| #[trigger] index.contains_key(k) implies entry_ok(other, k, index[k])
        && located(other, index[k]) == located(segs, index[k]) by {
        let id = index[k].file_id;
        let (j, t) = choose|j: int, t: int|
            0 <= j < other.len() && 0 <= t < segs.len() && other[j] == segs[t] && other[j].0 == id;
        lemma_data_of(other, j);
        lemma_data_of(segs, t);
    }
    assert(contents_of(other, index) =~= contents_of(segs, index));
}

/// The segments as a map from id to bytes: what a directory of segment
/// files named by id holds.
pub open spec fn seg_map(segs: Seq<(u64, Seq<u8>)>) -> Map<u64, Seq<u8>> {
    Map::new(|id: u64| has_segment(segs, id), |id: u64| data_of(segs, id))
}

/// Two id-ascending lists whose segments are the same, position for
/// position, have the same map.
pub proof fn lemma_seg_map_ext(a: Seq<(u64, Seq<u8>)>, m: Map<u64, Seq<u8>>)
    requires
        ids_ascending(a),
        forall|i: int| 0 <= i < a.len() ==> m.contains_key(#[trigger] a[i].0) && m[a[i].0] == a[i].1,
        forall|id: u64| #[trigger] m.contains_key(id) ==> has_segment(a, id),
    ensures
        seg_map(a) == m,
{
    assert forall|id: u64| #[trigger] seg_map(a).contains_key(id) implies seg_map(a)[id] == m[id] by {
        let i = choose|i: int| 0 <= i < a.len() && a[i].0 == id;
        lemma_data_of(a, i);
    }
    assert(seg_map(a) =~= m);
}

/// Dropping one segment from an id-ascending list drops its id from the map.
pub proof fn lemma_seg_map_remove(a: Seq<(u64, Seq<u8>)>, x: (u64, Seq<u8>), b: Seq<(u64, Seq<u8>)>)
    requires
        ids_ascending(a + seq![x] + b),
    ensures
        ids_ascending(a + b),
        seg_map(a + b) == seg_map(a + seq![x] + b).remove(x.0),
{
    let l = a + seq![x] + b;
    let r = a + b;
    assert forall|i: int, j: int| 0 <= i < j < r.len() implies r[i].0 < r[j].0 by {
        let i2 = if i < a.len() { i } else { i + 1 };
        let j2 = if j < a.len() { j } else { j + 1 };
        assert(r[i] == l[i2]);
        assert(r[j] == l[j2]);
    }
    let m = seg_map(l).remove(x.0);
    assert forall|i: int| 0 <= i < r.len() implies m.contains_key(#[trigger] r[i].0) && m[r[i].0] == r[i].1 by {
        let i2 = if i < a.len() { i } else { i + 1 };
        assert(r[i] == l[i2]);
        lemma_data_of(l, i2);
        lemma_data_of(l, a.len() as int);
        assert(l[a.len() as int] == x);
    }
    assert forall|id: u64| #[trigger] m.contains_key(id) implies has_segment(r, id) by {
        let i = choose|i: int| 0 <= i < l.len() && l[i].0 == id;
        assert(l[a.len() as int] == x);
        let i2 = if i < a.len() { i } else { i - 1 };
        assert(r[i2] == l[i]);
    }
    lemma_seg_map_ext(r, m);
}

/// Adding or replacing one segment, in place or at the end, of an
/// id-ascending list sets its id in the map.
pub proof fn lemma_seg_map_set(a: Seq<(u64, Seq<u8>)>, b: Seq<(u64, Seq<u8>)>, j: int)
    requires
        ids_ascending(a),
        ids_ascending(b),
        0 <= j < b.len(),
        b.len() == a.len() || b.len() == a.len() + 1,
        b.len() == a.len() + 1 ==> j == a.len() && b.drop_last() == a,
        b.len() == a.len() ==> b == a.update(j, (a[j].0, b[j].1)),
    ensures
        seg_map(b) == seg_map(a).insert(b[j].0, b[j].1),
{
    let m = seg_map(a).insert(b[j].0, b[j].1);
    assert forall|i: int| 0 <= i < b.len() implies m.contains_key(#[trigger] b[i].0) && m[b[i].0] == b[i].1 by {
        if i != j {
            assert(b[i] == a[i]);
            lemma_data_of(a, i);
            assert(b[i].0 != b[j].0);
        }
    }
    assert forall|id: u64| #[trigger] m.contains_key(id) implies has_segment(b, id) by {
        if id != b[j].0 {
            let i = choose|i: int| 0 <= i < a.len() && a[i].0 == id;
            if b.len() == a.len() {
                assert(b[i].0 == a[i].0);
            } else {
                assert(b[i] == b.drop_last()[i]);
            }
        }
    }
    lemma_seg_map_ext(b, m);
}
/// Whether the bytes of segment `id`, from `pos`, decode cleanly to their
/// end as records each of which is the current one of its key: the key's
/// index entry names this segment and this record's offset.
pub open spec fn records_live(d: Seq<u8>, pos: nat, id: u64, index: Map<Seq<u8>, KeyDirValue>) -> bool
    decreases d.len() - pos,
{
    if pos >= d.len() {
        true
    } else {
        match parse_record(d.skip(pos as int)) {
            Ok((_ts, k, _v, n)) => 0 < n && pos + n <= d.len() && index.contains_key(k)
                && index[k].file_id == id && index[k].value_posi == pos && records_live(
                d,
                pos + n,
                id,
                index,
            ),
            Err(_) => false,
        }
    }
}

/// Appending the record of a key that had no record in the segment, and
/// pointing the key at it, keeps every record of the segment current.
pub proof fn lemma_records_live_append(
    d: Seq<u8>,
    t: Seq<u8>,
    pos: nat,
    id: u64,
    index: Map<Seq<u8>, KeyDirValue>,
    k: Seq<u8>,
    e: KeyDirValue,
)
    requires
        pos <= d.len(),
        records_live(d, pos, id, index),
        parse_record(t) is Ok,
        parse_record(t)->Ok_0.1 == k,
        parse_record(t)->Ok_0.3 == t.len(),
        !(index.contains_key(k) && index[k].file_id == id),
        e.file_id == id,
        e.value_posi == d.len(),
    ensures
        records_live(d + t, pos, id, index.insert(k, e)),
    decreases d.len() - pos,
{
    let idx2 = index.insert(k, e);
    lemma_parse_extend(t, Seq::<u8>::empty());
    if pos == d.len() {
        assert((d + t).skip(pos as int) =~= t);
        let end = pos + t.len();
        assert(records_live(d + t, end, id, idx2));
    } else {
        let w = d.skip(pos as int);
        lemma_parse_extend(w, t);
        assert((d + t).skip(pos as int) =~= w + t);
        let n = parse_record(w)->Ok_0.3;
        lemma_records_live_append(d, t, pos + n, id, index, k, e);
    }
}

} // verus!
