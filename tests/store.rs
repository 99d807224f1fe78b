use bitcask::clock::get_sortable_id;
use bitcask::record::{CodecError, Record};
use bitcask::segment::Segment;
use bitcask::store::{DiskOp, Store, StoreError};
use bitcask::tombstone::{escape_tombstone, unescape_tombstone};

fn b(s: &str) -> Vec<u8> {
    s.as_bytes().to_vec()
}

fn open_empty(threshold: u64) -> Store {
    Store::new(Vec::new(), threshold).unwrap()
}

/// Rebuilds a store from the segments that its disk writes describe.
fn replay_ops(ops: &[DiskOp], files: &mut Vec<Segment>) {
    for op in ops {
        match op {
            DiskOp::Create { id } => files.push(Segment { id: *id, data: Vec::new() }),
            DiskOp::Append { id, bytes } => {
                let f = files.iter_mut().find(|f| f.id == *id).unwrap();
                f.data.extend_from_slice(bytes);
            }
            DiskOp::Truncate { id, len } => {
                let f = files.iter_mut().find(|f| f.id == *id).unwrap();
                f.data.truncate(*len);
            }
            DiskOp::Remove { id } => files.retain(|f| f.id != *id),
        }
    }
    files.sort_by_key(|f| f.id);
}

#[test]
fn record_round_trip() {
    let rec = Record { timestamp: 1700000000, key: b("aman"), value: b("a person") };
    let bytes = rec.serialize();
    let (back, n) = Record::from_bytes(&bytes).unwrap();
    assert_eq!(n, bytes.len());
    assert_eq!(back.key, b("aman"));
    assert_eq!(back.value, b("a person"));
    assert_eq!(back.timestamp, 1700000000);
}

#[test]
fn record_layout_is_checksum_then_header() {
    let rec = Record { timestamp: 300, key: b("k"), value: b("vv") };
    let bytes = rec.serialize();
    // body: varint(300) = [0xAC, 0x02], key length 1, value length 2, "k", "vv"
    let body = [0xACu8, 0x02, 1, 2, b'k', b'v', b'v'];
    assert_eq!(&bytes[bytes.len() - body.len()..], &body);
    let crc = crc32fast::hash(&body);
    assert!(Record::validate(crc, 300, b"k", b"vv"));
    assert!(!Record::validate(crc ^ 1, 300, b"k", b"vv"));
}

#[test]
fn round_trip_of_value_equal_to_marker() {
    let v = b("<=>");
    let escaped = escape_tombstone(v.clone());
    assert_eq!(escaped, b("<=><=>"));
    let rec = Record { timestamp: 5, key: b("k"), value: escaped };
    let (back, _) = Record::from_bytes(&rec.serialize()).unwrap();
    assert_eq!(unescape_tombstone(back.value), v);
}

#[test]
fn escape_leaves_plain_values() {
    assert_eq!(escape_tombstone(b("hello")), b("hello"));
    assert_eq!(unescape_tombstone(b("hello")), b("hello"));
    assert_eq!(escape_tombstone(b("<=>x")), b("<=><=>x"));
    assert_eq!(unescape_tombstone(b("<=><=>x")), b("<=>x"));
    assert_eq!(escape_tombstone(b("a<=>b")), b("a<=><=>b"));
    assert_eq!(unescape_tombstone(b("a<=><=>b")), b("a<=>b"));
    assert_eq!(escape_tombstone(b("<=<=>>")), b("<=<=><=>>"));
    assert_eq!(unescape_tombstone(escape_tombstone(b("<=<=>>"))), b("<=<=>>"));
}

#[test]
fn flipped_key_byte_fails_checksum() {
    let rec = Record { timestamp: 42, key: b("abc"), value: b("value") };
    let bytes = rec.serialize();
    let key_start = bytes.len() - 8;
    for i in key_start..bytes.len() {
        let mut bad = bytes.clone();
        bad[i] ^= 0x01;
        assert_eq!(Record::from_bytes(&bad).err(), Some(CodecError::ChecksumMismatch));
    }
}

#[test]
fn truncated_record_is_reported() {
    let rec = Record { timestamp: 42, key: b("abc"), value: b("value") };
    let bytes = rec.serialize();
    let cut = &bytes[..bytes.len() - 2];
    assert_eq!(Record::from_bytes(cut).err(), Some(CodecError::Truncated));
    assert_eq!(Record::from_bytes(&[]).err(), Some(CodecError::Encoding));
    assert_eq!(Record::from_bytes(&[0x80, 0x80]).err(), Some(CodecError::Encoding));
    for j in 0..bytes.len() {
        let e = Record::from_bytes(&bytes[..j]).err().unwrap();
        assert!(e == CodecError::Encoding || e == CodecError::Truncated);
    }
}

#[test]
fn malformed_varint_is_encoding_error() {
    let bad = [0xFFu8; 12];
    assert_eq!(Record::from_bytes(&bad).err(), Some(CodecError::Encoding));
}

#[test]
fn last_write_wins() {
    let mut s = open_empty(1 << 20);
    s.put(b("k"), b("v1")).unwrap();
    s.put(b("k"), b("v2")).unwrap();
    assert_eq!(s.get(b("k")).unwrap(), Some(b("v2")));
}

#[test]
fn get_missing_is_none() {
    let s = open_empty(1 << 20);
    assert_eq!(s.get(b("nope")).unwrap(), None);
}

#[test]
fn empty_key_is_rejected() {
    let mut s = open_empty(1 << 20);
    assert_eq!(s.put(Vec::new(), b("v")), Err(StoreError::EmptyKey));
}

#[test]
fn delete_then_miss_and_after_restart() {
    let mut s = open_empty(1 << 20);
    s.put(b("k"), b("v")).unwrap();
    s.delete(b("k")).unwrap();
    assert_eq!(s.get(b("k")).unwrap(), None);
    let mut files = Vec::new();
    replay_ops(&s.take_disk_ops(), &mut files);
    let reopened = Store::new(files, 1 << 20).unwrap();
    assert_eq!(reopened.get(b("k")).unwrap(), None);
}

#[test]
fn delete_absent_is_noop() {
    let mut s = open_empty(1 << 20);
    let _ = s.take_disk_ops();
    assert_eq!(s.delete(b("ghost")), Ok(()));
    assert!(s.take_disk_ops().is_empty());
}

#[test]
fn marker_value_survives_put_get() {
    let mut s = open_empty(1 << 20);
    s.put(b("k"), b("<=>")).unwrap();
    assert_eq!(s.get(b("k")).unwrap(), Some(b("<=>")));
}

#[test]
fn rotation_creates_segments_and_keeps_values() {
    let mut s = open_empty(64);
    s.put(b("a"), b("x")).unwrap();
    for i in 0..10u8 {
        s.put(vec![b'k', b'0' + i], b("value")).unwrap();
    }
    let ops = s.take_disk_ops();
    let creates = ops.iter().filter(|o| matches!(o, DiskOp::Create { .. })).count();
    assert!(creates >= 2);
    assert_eq!(s.get(b("a")).unwrap(), Some(b("x")));
    for i in 0..10u8 {
        assert_eq!(s.get(vec![b'k', b'0' + i]).unwrap(), Some(b("value")));
    }
    let mut files = Vec::new();
    replay_ops(&ops, &mut files);
    assert!(files.len() >= 2);
    for f in &files {
        let mut pos = 0;
        while pos < f.data.len() {
            let (_, n) = Record::from_reader(&f.data, pos).unwrap();
            pos += n;
        }
        assert!(f.data.len() <= 64 || Record::from_bytes(&f.data).unwrap().1 == f.data.len());
    }
    let reopened = Store::new(files, 64).unwrap();
    assert_eq!(reopened.get(b("a")).unwrap(), Some(b("x")));
    assert_eq!(reopened.get(b("k9")).unwrap(), Some(b("value")));
}

#[test]
fn compaction_keeps_live_data_and_removes_old_segments() {
    let mut s = open_empty(48);
    for round in 0..5u8 {
        for i in 0..6u8 {
            s.put(vec![b'k', b'0' + i], vec![b'v', b'0' + round]).unwrap();
        }
    }
    s.delete(b("k0")).unwrap();
    s.delete(b("k3")).unwrap();
    s.put(b("k5"), b("last")).unwrap();
    let mut files = Vec::new();
    replay_ops(&s.take_disk_ops(), &mut files);
    let before = files.len();
    assert!(before > 2);
    s.merge_and_compact().unwrap();
    replay_ops(&s.take_disk_ops(), &mut files);
    assert!(files.len() < before);
    assert_eq!(files.len(), 2);
    for (i, want) in [None, Some(b("v4")), Some(b("v4")), None, Some(b("v4")), Some(b("last"))]
        .into_iter()
        .enumerate()
    {
        assert_eq!(s.get(vec![b'k', b'0' + i as u8]).unwrap(), want);
    }
    let reopened = Store::new(files, 48).unwrap();
    assert_eq!(reopened.get(b("k1")).unwrap(), Some(b("v4")));
    assert_eq!(reopened.get(b("k0")).unwrap(), None);
    assert_eq!(reopened.get(b("k5")).unwrap(), Some(b("last")));
}

#[test]
fn replay_after_compaction_before_old_segments_are_deleted() {
    let mut s = open_empty(40);
    for round in 0..4u8 {
        for i in 0..4u8 {
            s.put(vec![b'k', b'0' + i], vec![b'v', b'0' + round]).unwrap();
        }
    }
    s.delete(b("k2")).unwrap();
    let mut files = Vec::new();
    replay_ops(&s.take_disk_ops(), &mut files);
    s.merge_and_compact().unwrap();
    let ops = s.take_disk_ops();
    let first_remove = ops.iter().position(|o| matches!(o, DiskOp::Remove { .. })).unwrap();
    let removes = ops.len() - first_remove;
    assert!(removes >= 2);
    for done in 0..=removes {
        let mut files = clone_segments(&files);
        let upto = first_remove + done;
        let partial: Vec<DiskOp> = ops[..upto].iter().map(clone_op).collect();
        replay_ops(&partial, &mut files);
        let reopened = Store::new(files, 40).unwrap();
        assert_eq!(reopened.get(b("k0")).unwrap(), Some(b("v3")));
        assert_eq!(reopened.get(b("k1")).unwrap(), Some(b("v3")));
        assert_eq!(reopened.get(b("k2")).unwrap(), None);
        assert_eq!(reopened.get(b("k3")).unwrap(), Some(b("v3")));
    }
}

fn clone_segments(v: &[Segment]) -> Vec<Segment> {
    v.iter().map(|s| Segment { id: s.id, data: s.data.clone() }).collect()
}

fn clone_op(op: &DiskOp) -> DiskOp {
    match op {
        DiskOp::Create { id } => DiskOp::Create { id: *id },
        DiskOp::Append { id, bytes } => DiskOp::Append { id: *id, bytes: bytes.clone() },
        DiskOp::Truncate { id, len } => DiskOp::Truncate { id: *id, len: *len },
        DiskOp::Remove { id } => DiskOp::Remove { id: *id },
    }
}

#[test]
fn compaction_with_only_active_segment_is_noop() {
    let mut s = open_empty(1 << 20);
    s.put(b("k"), b("v")).unwrap();
    let _ = s.take_disk_ops();
    s.merge_and_compact().unwrap();
    assert!(s.take_disk_ops().is_empty());
    assert_eq!(s.get(b("k")).unwrap(), Some(b("v")));
}

#[test]
fn compaction_refuses_when_no_lower_id() {
    let r0 = Record { timestamp: 1, key: b("a"), value: b("1") }.serialize();
    let r1 = Record { timestamp: 1, key: b("b"), value: b("2") }.serialize();
    let files = vec![Segment { id: 0, data: r0 }, Segment { id: 1, data: r1 }];
    let mut s = Store::new(files, 1 << 20).unwrap();
    assert_eq!(s.merge_and_compact(), Err(StoreError::IdExhausted));
    assert_eq!(s.get(b("a")).unwrap(), Some(b("1")));
}

#[test]
fn open_rejects_unordered_ids() {
    let files = vec![Segment { id: 5, data: Vec::new() }, Segment { id: 5, data: Vec::new() }];
    assert_eq!(Store::new(files, 10).err(), Some(StoreError::SegmentOrder));
}

#[test]
fn open_drops_truncated_tail_of_active_segment() {
    let mut data = Record { timestamp: 1, key: b("a"), value: b("1") }.serialize();
    let good = data.len();
    let tail = Record { timestamp: 1, key: b("b"), value: b("2") }.serialize();
    data.extend_from_slice(&tail[..tail.len() - 1]);
    let mut s = Store::new(vec![Segment { id: 3, data }], 1 << 20).unwrap();
    assert_eq!(s.get(b("a")).unwrap(), Some(b("1")));
    assert_eq!(s.get(b("b")).unwrap(), None);
    let ops = s.take_disk_ops();
    assert!(matches!(ops.as_slice(), [DiskOp::Truncate { id: 3, len }] if *len == good));
}

#[test]
fn open_fails_on_corrupt_sealed_segment() {
    let mut data = Record { timestamp: 1, key: b("a"), value: b("1") }.serialize();
    let n = data.len();
    data[n - 1] ^= 0x10;
    let files = vec![Segment { id: 1, data }, Segment { id: 2, data: Vec::new() }];
    assert_eq!(Store::new(files, 10).err(), Some(StoreError::ChecksumMismatch));
    let cut = Record { timestamp: 1, key: b("a"), value: b("1") }.serialize();
    let files = vec![Segment { id: 1, data: cut[..3].to_vec() }, Segment { id: 2, data: Vec::new() }];
    assert_eq!(Store::new(files, 10).err(), Some(StoreError::Encoding));
    let files = vec![Segment { id: 1, data: cut[..cut.len() - 1].to_vec() }, Segment { id: 2, data: Vec::new() }];
    assert_eq!(Store::new(files, 10).err(), Some(StoreError::Truncated));
}

#[test]
fn open_drops_cut_header_at_end_of_active_segment() {
    let mut data = Record { timestamp: 1, key: b("a"), value: b("1") }.serialize();
    let good = data.len();
    let tail = Record { timestamp: 1, key: b("b"), value: b("2") }.serialize();
    data.extend_from_slice(&tail[..2]);
    let mut s = Store::new(vec![Segment { id: 3, data }], 1 << 20).unwrap();
    assert_eq!(s.get(b("a")).unwrap(), Some(b("1")));
    let ops = s.take_disk_ops();
    assert!(matches!(ops.as_slice(), [DiskOp::Truncate { id: 3, len }] if *len == good));
}

#[test]
fn malformed_tail_of_active_segment_fails_open() {
    let mut data = Record { timestamp: 1, key: b("a"), value: b("1") }.serialize();
    data.extend_from_slice(&[0xFF; 12]);
    assert_eq!(Store::new(vec![Segment { id: 3, data }], 1 << 20).err(), Some(StoreError::Encoding));
}

#[test]
fn record_larger_than_threshold_goes_to_new_segment() {
    let mut s = open_empty(4);
    s.put(b("key"), b("a long value")).unwrap();
    let ops = s.take_disk_ops();
    let creates = ops.iter().filter(|o| matches!(o, DiskOp::Create { .. })).count();
    assert_eq!(creates, 2);
    assert_eq!(s.get(b("key")).unwrap(), Some(b("a long value")));
}

#[test]
fn put_at_stamps_record_and_rotates_past_threshold() {
    let mut s = open_empty(20);
    let _ = s.take_disk_ops();
    s.put_at(b("key"), b("value"), 7).unwrap();
    let ops = s.take_disk_ops();
    let expected = Record { timestamp: 7, key: b("key"), value: b("value") }.serialize();
    assert!(matches!(ops.as_slice(), [DiskOp::Append { bytes, .. }] if *bytes == expected));
    s.put_at(b("key2"), b("value2"), 7).unwrap();
    let ops = s.take_disk_ops();
    assert_eq!(ops.len(), 2);
    assert!(matches!(ops[0], DiskOp::Create { .. }));
}

#[test]
fn sortable_ids() {
    assert_eq!(get_sortable_id(100, 50), Some(100));
    assert_eq!(get_sortable_id(100, 100), Some(101));
    assert_eq!(get_sortable_id(0, u64::MAX), None);
}

#[test]
fn located_record_is_checked_on_read() {
    let mut s = open_empty(1 << 20);
    s.put(b("k"), b("v")).unwrap();
    s.put(b("j"), b("w")).unwrap();
    let mut files = Vec::new();
    replay_ops(&s.take_disk_ops(), &mut files);
    let loc = s.locate(&b("k")).unwrap();
    let f = files.iter().find(|f| f.id == loc.file_id).unwrap();
    let bytes = f.data[loc.value_posi..].to_vec();
    assert_eq!(Store::decode_value(&b("k"), &bytes), Ok(b("v")));
    assert_eq!(Store::decode_value(&b("j"), &bytes), Err(StoreError::DataCorruption));
    let mut bad = bytes.clone();
    let n = Record::from_bytes(&bytes).unwrap().1;
    bad[n - 1] ^= 0x01;
    assert_eq!(Store::decode_value(&b("k"), &bad), Err(StoreError::DataCorruption));
    assert!(s.locate(&b("absent")).is_none());
}
