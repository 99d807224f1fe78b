use vstd::prelude::*;
use crate::record::{
    lemma_parse_agree, lemma_parse_extend, lemma_record_round_trip, parse_record, record_bytes,
    CodecError,
};
use crate::store::{apply_record, appended, replay_from, replay_upto, Store};
use crate::tombstone::{escaped, lemma_escape_round_trip, tombstone, unescaped};

verus! {

/// A value written through the store's escaping and read back decodes to
/// the same key and the same value, including a value equal to the
/// tombstone marker, and is never read as a tombstone.
pub proof fn lemma_stored_value_round_trip(ts: u32, key: Seq<u8>, value: Seq<u8>, rest: Seq<u8>)
    requires
        key.len() <= u32::MAX,
        escaped(value).len() <= u32::MAX,
    ensures
        parse_record(record_bytes(ts, key, escaped(value)) + rest) is Ok,
        parse_record(record_bytes(ts, key, escaped(value)) + rest)->Ok_0.1 == key,
        unescaped(parse_record(record_bytes(ts, key, escaped(value)) + rest)->Ok_0.2) == value,
        parse_record(record_bytes(ts, key, escaped(value)) + rest)->Ok_0.2 != tombstone(),
{
    lemma_record_round_trip(ts, key, escaped(value), rest);
    lemma_escape_round_trip(value);
}

/// Two writes to one key: the later value is the one the store holds.
pub proof fn lemma_last_write_wins(
    s0: Store,
    s1: Store,
    s2: Store,
    key: Seq<u8>,
    v1: Seq<u8>,
    v2: Seq<u8>,
)
    requires
        s1.contents() == s0.contents().insert(key, v1),
        s2.contents() == s1.contents().insert(key, v2),
    ensures
        s2.contents().contains_key(key),
        s2.contents()[key] == v2,
{
}

/// A write and then a delete of one key: the store no longer holds it.
pub proof fn lemma_delete_then_miss(s0: Store, s1: Store, s2: Store, key: Seq<u8>, v: Seq<u8>)
    requires
        s1.contents() == s0.contents().insert(key, v),
        s2.contents() == s1.contents().remove(key),
    ensures
        !s2.contents().contains_key(key),
{
}

proof fn lemma_replay_stop(m: Map<Seq<u8>, Seq<u8>>, d: Seq<u8>, pos: nat)
    ensures
        replay_from(m, d, pos).2 is Some ==> replay_from(m, d, pos).1 < d.len(),
    decreases d.len() - pos,
{
    if pos < d.len() {
        match parse_record(d.skip(pos as int)) {
            Ok((_ts, k, v, n)) => {
                if 0 < n && pos + n <= d.len() {
                    lemma_replay_stop(apply_record(m, k, v), d, pos + n);
                }
            },
            Err(_) => {},
        }
    }
}

proof fn lemma_replay_from_extend(m: Map<Seq<u8>, Seq<u8>>, d: Seq<u8>, t: Seq<u8>, pos: nat)
    requires
        pos <= d.len(),
        replay_from(m, d, pos).1 == d.len(),
        replay_from(m, d, pos).2 is None,
    ensures
        replay_from(m, d + t, pos) == replay_from(replay_from(m, d, pos).0, d + t, d.len()),
    decreases d.len() - pos,
{
    if pos < d.len() {
        let r = parse_record(d.skip(pos as int));
        match r {
            Ok((_ts, k, v, n)) => {
                lemma_parse_extend(d.skip(pos as int), t);
                assert((d + t).skip(pos as int) =~= d.skip(pos as int) + t);
                lemma_replay_from_extend(apply_record(m, k, v), d, t, pos + n);
            },
            Err(_) => {},
        }
    }
}

proof fn lemma_replay_record(m: Map<Seq<u8>, Seq<u8>>, d: Seq<u8>, ts: u32, key: Seq<u8>, value: Seq<u8>)
    requires
        key.len() <= u32::MAX,
        value.len() <= u32::MAX,
    ensures
        replay_from(m, d + record_bytes(ts, key, value), d.len()) == (
            apply_record(m, key, value),
            d.len() + record_bytes(ts, key, value).len(),
            None::<crate::record::CodecError>,
        ),
{
    let rec = record_bytes(ts, key, value);
    lemma_record_round_trip(ts, key, value, Seq::<u8>::empty());
    assert(rec + Seq::<u8>::empty() =~= rec);
    assert((d + rec).skip(d.len() as int) =~= rec);
    lemma_parse_extend(rec, Seq::<u8>::empty());
    let end = d.len() + rec.len();
    assert(replay_from(apply_record(m, key, value), d + rec, end) == (
        apply_record(m, key, value),
        end,
        None::<crate::record::CodecError>,
    ));
}

pub proof fn lemma_replay_upto_prefix(segs: Seq<(u64, Seq<u8>)>, segs2: Seq<(u64, Seq<u8>)>, i: nat)
    requires
        i < segs.len(),
        i < segs2.len(),
        forall|t: int| 0 <= t < i ==> segs2[t] == segs[t],
    ensures
        replay_upto(segs2, i) == replay_upto(segs, i),
    decreases i,
{
    if i > 0 {
        lemma_replay_upto_prefix(segs, segs2, (i - 1) as nat);
    }
}

/// Writing a record whole at the end of the segments, as `put` and
/// `delete` do, makes a replay from scratch apply that record after the
/// others: when the segments replayed cleanly to `m`, they now replay
/// cleanly to `m` with the record applied.
pub proof fn lemma_replay_after_append(
    segs: Seq<(u64, Seq<u8>)>,
    segs2: Seq<(u64, Seq<u8>)>,
    ts: u32,
    key: Seq<u8>,
    value: Seq<u8>,
    threshold: u64,
    now: u64,
    m: Map<Seq<u8>, Seq<u8>>,
)
    requires
        segs.len() > 0,
        key.len() <= u32::MAX,
        value.len() <= u32::MAX,
        appended(segs, segs2, record_bytes(ts, key, value), threshold, now),
        replay_upto(segs, segs.len()) == Ok::<_, crate::store::StoreError>((m, segs.last().1.len())),
    ensures
        replay_upto(segs2, segs2.len()) == Ok::<_, crate::store::StoreError>(
            (apply_record(m, key, value), segs2.last().1.len()),
        ),
{
    let n = segs.len();
    let d = segs.last().1;
    let rec = record_bytes(ts, key, value);
    let prev = replay_upto(segs, (n - 1) as nat);
    let m_prev = prev->Ok_0.0;
    lemma_replay_stop(m_prev, d, 0);
    assert(replay_from(m_prev, d, 0) == (m, d.len(), None::<crate::record::CodecError>));
    if segs2.len() == n + 1 {
        lemma_replay_upto_prefix(segs, segs2, (n - 1) as nat);
        assert(replay_upto(segs2, n) == Ok::<_, crate::store::StoreError>((m, d.len())));
        lemma_replay_record(m, Seq::<u8>::empty(), ts, key, value);
        assert(Seq::<u8>::empty() + rec =~= rec);
    } else {
        lemma_replay_upto_prefix(segs, segs2, (n - 1) as nat);
        lemma_replay_from_extend(m_prev, d, rec, 0);
        lemma_replay_record(m, d, ts, key, value);
    }
}

/// Replay that a cut-off record stopped at `stop` runs cleanly to the end
/// of the bytes cut back to `stop`, with the same result.
pub proof fn lemma_replay_truncated(m: Map<Seq<u8>, Seq<u8>>, d: Seq<u8>, pos: nat)
    requires
        pos <= d.len(),
        replay_from(m, d, pos).2 is Some,
    ensures
        replay_from(m, d, pos).1 <= d.len(),
        replay_from(m, d.take(replay_from(m, d, pos).1 as int), pos) == (
            replay_from(m, d, pos).0,
            replay_from(m, d, pos).1,
            None::<CodecError>,
        ),
    decreases d.len() - pos,
{
    let stop = replay_from(m, d, pos).1;
    lemma_replay_stop(m, d, pos);
    lemma_replay_stop_bounds(m, d, pos);
    let t = d.take(stop as int);
    if pos < d.len() {
        match parse_record(d.skip(pos as int)) {
            Ok((_ts, k, v, n)) => {
                if 0 < n && pos + n <= d.len() {
                    lemma_replay_truncated(apply_record(m, k, v), d, pos + n);
                    lemma_replay_stop_bounds(apply_record(m, k, v), d, pos + n);
                    lemma_parse_extend(d.skip(pos as int), Seq::<u8>::empty());
                    assert(d.skip(pos as int) + Seq::<u8>::empty() =~= d.skip(pos as int));
                    assert(t.skip(pos as int).take(n as int) =~= d.skip(pos as int).take(n as int));
                    lemma_parse_agree(d.skip(pos as int), t.skip(pos as int));
                }
            },
            Err(_) => {},
        }
    }
}

proof fn lemma_replay_stop_bounds(m: Map<Seq<u8>, Seq<u8>>, d: Seq<u8>, pos: nat)
    requires
        pos <= d.len(),
    ensures
        pos <= replay_from(m, d, pos).1 <= d.len(),
    decreases d.len() - pos,
{
    if pos < d.len() {
        match parse_record(d.skip(pos as int)) {
            Ok((_ts, k, v, n)) => {
                if 0 < n && pos + n <= d.len() {
                    lemma_replay_stop_bounds(apply_record(m, k, v), d, pos + n);
                }
            },
            Err(_) => {},
        }
    }
}

/// A write and then a delete of one key, on a store whose segments replay
/// to its contents: a restart that replays the segments does not find the
/// key.
pub proof fn lemma_delete_then_restart_misses(
    s0: Store,
    s1: Store,
    s2: Store,
    key: Seq<u8>,
    v: Seq<u8>,
)
    requires
        s1.contents() == s0.contents().insert(key, v),
        s2.contents() == s1.contents().remove(key),
        s2.replays_cleanly(),
    ensures
        replay_upto(s2.segments(), s2.segments().len()) is Ok,
        !replay_upto(s2.segments(), s2.segments().len())->Ok_0.0.contains_key(key),
{
}
} // verus!
