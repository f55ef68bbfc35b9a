use kvdb::codec::{decode_record_at, encode_record, Record};
use kvdb::engine::{WriteEffect, KVDB};
use kvdb::store::{build_log_path, Segment};
use kvdb::KvError;

fn key(s: &str) -> String {
    s.to_string()
}

fn val(s: &str) -> Vec<u8> {
    s.as_bytes().to_vec()
}

/// A tiny in-memory stand-in for the log directory: applies a write's effect
/// the way the shell around the library applies it to files.
fn apply_effect(files: &mut Vec<(u64, Vec<u8>)>, eff: &WriteEffect) {
    let slot = files
        .iter_mut()
        .find(|f| f.0 == eff.log_idx)
        .expect("append to unknown segment file");
    assert_eq!(slot.1.len() as u64, eff.offset);
    slot.1.extend_from_slice(&eff.bytes);
    if let Some(c) = &eff.compaction {
        files.retain(|f| !c.stale_idxs.contains(&f.0));
        files.push((c.output_idx, c.output_data.clone()));
        files.push((c.new_active_idx, Vec::new()));
    }
}

fn reopen_from(files: &[(u64, Vec<u8>)]) -> KVDB {
    let segments = files
        .iter()
        .map(|f| Segment { log_idx: f.0, data: f.1.clone() })
        .collect::<Vec<_>>();
    KVDB::open(segments).expect("reopen failed")
}

#[test]
fn set_then_get() {
    let mut db = KVDB::new();
    db.set(key("a"), val("1"));
    assert_eq!(db.get(&key("a")), Some(val("1")));
    assert_eq!(db.get(&key("b")), None);
}

#[test]
fn overwrite_returns_latest() {
    let mut db = KVDB::new();
    db.set(key("a"), val("1"));
    db.set(key("a"), val("2"));
    assert_eq!(db.get(&key("a")), Some(val("2")));
}

#[test]
fn tombstone_hides_key() {
    let mut db = KVDB::new();
    db.set(key("a"), val("1"));
    db.remove(&key("a"));
    assert_eq!(db.get(&key("a")), None);
}

#[test]
fn remove_absent_is_benign() {
    let mut db = KVDB::new();
    db.remove(&key("ghostly"));
    assert_eq!(db.get(&key("ghostly")), None);
}

#[test]
fn remove_twice_in_a_row() {
    let mut db = KVDB::new();
    db.set(key("a"), val("1"));
    db.remove(&key("a"));
    db.remove(&key("a"));
    assert_eq!(db.get(&key("a")), None);
}

#[test]
fn reopen_scenario() {
    // set("a","1"), set("b","2"), set("a","3"), remove("b"), reopen
    let mut db = KVDB::new();
    db.set(key("a"), val("1"));
    db.set(key("b"), val("2"));
    db.set(key("a"), val("3"));
    db.remove(&key("b"));
    let segments = db.store.segments;
    let db2 = KVDB::open(segments).expect("reopen failed");
    assert_eq!(db2.get(&key("a")), Some(val("3")));
    assert_eq!(db2.get(&key("b")), None);
}

#[test]
fn recovery_many_keys() {
    let mut db = KVDB::new();
    let mut names: Vec<String> = Vec::new();
    for i in 0..50u32 {
        names.push(format!("user{}", i));
    }
    for (i, n) in names.iter().enumerate() {
        db.set(n.clone(), val(&format!("v{}", i)));
    }
    let db2 = KVDB::open(db.store.segments).expect("reopen failed");
    for (i, n) in names.iter().enumerate() {
        assert_eq!(db2.get(n), Some(val(&format!("v{}", i))));
    }
    assert_eq!(db2.get(&key("user50")), None);
}

#[test]
fn compaction_preserves_live_state() {
    let mut db = KVDB::new();
    db.set_log_size(64);
    let mut compactions = 0u32;
    for round in 0..20u32 {
        for i in 0..5u32 {
            let eff = db.set(format!("k{}", i), val(&format!("r{}i{}", round, i)));
            if eff.compaction.is_some() {
                compactions += 1;
            }
        }
    }
    assert!(compactions > 0, "the size threshold was never reached");
    for i in 0..5u32 {
        assert_eq!(db.get(&format!("k{}", i)), Some(val(&format!("r19i{}", i))));
    }
    // After a compaction only the output segment and the fresh active one
    // remain.
    let eff = db.set(key("k0"), val("last"));
    if let Some(c) = &eff.compaction {
        assert_eq!(db.store.segments.len(), 2);
        assert_eq!(db.store.segments[0].log_idx, c.output_idx);
        assert_eq!(db.store.segments[1].log_idx, c.new_active_idx);
        assert_eq!(c.new_active_idx, c.output_idx + 1);
        assert!(db.store.segments[1].data.is_empty());
    }
    assert_eq!(db.get(&key("k0")), Some(val("last")));
}

#[test]
fn effects_mirror_disk() {
    // Drive an engine and a fake directory side by side through enough
    // writes to compact several times; the directory must reopen to the same
    // state.
    let mut files: Vec<(u64, Vec<u8>)> = vec![(0, Vec::new())];
    let mut db = KVDB::new();
    db.set_log_size(96);
    for round in 0..10u32 {
        for i in 0..4u32 {
            let eff = db.set(format!("key{}", i), val(&format!("value{}x{}", round, i)));
            apply_effect(&mut files, &eff);
        }
        let eff = db.remove(&format!("key{}", round % 4));
        apply_effect(&mut files, &eff);
    }
    let db2 = reopen_from(&files);
    for i in 0..4u32 {
        let k = format!("key{}", i);
        assert_eq!(db.get(&k), db2.get(&k), "mismatch for {}", k);
    }
    // The mirrored files are exactly the engine's segments.
    assert_eq!(files.len(), db.store.segments.len());
    for (f, s) in files.iter().zip(db.store.segments.iter()) {
        assert_eq!(f.0, s.log_idx);
        assert_eq!(&f.1, &s.data);
    }
}

#[test]
fn open_empty_directory() {
    let db = KVDB::open(Vec::new()).expect("open of nothing failed");
    assert_eq!(db.get(&key("a")), None);
    assert_eq!(db.store.segments.len(), 1);
    assert_eq!(db.store.segments[0].log_idx, 0);
}

#[test]
fn open_segment_without_records() {
    let db = KVDB::open(vec![Segment { log_idx: 3, data: Vec::new() }]).expect("open failed");
    assert_eq!(db.get(&key("a")), None);
    assert_eq!(db.cur_log_idx, 3);
}

#[test]
fn open_unsorted_segments() {
    let mut db = KVDB::new();
    db.set(key("a"), val("1"));
    db.set(key("b"), val("2"));
    let mut segments = db.store.segments;
    segments.push(Segment { log_idx: 7, data: Vec::new() });
    segments.reverse();
    let db2 = KVDB::open(segments).expect("open failed");
    assert_eq!(db2.get(&key("a")), Some(val("1")));
    assert_eq!(db2.get(&key("b")), Some(val("2")));
    assert_eq!(db2.cur_log_idx, 7);
}

#[test]
fn open_rejects_duplicate_ids() {
    let r = KVDB::open(vec![
        Segment { log_idx: 1, data: Vec::new() },
        Segment { log_idx: 1, data: Vec::new() },
    ]);
    assert_eq!(r.err(), Some(KvError::Corrupt));
}

#[test]
fn open_rejects_corrupt_bytes() {
    let r = KVDB::open(vec![Segment { log_idx: 0, data: vec![9, 9, 9] }]);
    assert_eq!(r.err(), Some(KvError::Corrupt));
}

#[test]
fn open_rejects_truncated_record() {
    let mut db = KVDB::new();
    db.set(key("abc"), val("payload"));
    let mut segments = db.store.segments;
    let whole = segments[0].data.clone();
    segments[0].data = whole[..whole.len() - 1].to_vec();
    let r = KVDB::open(segments);
    assert_eq!(r.err(), Some(KvError::Corrupt));
}

#[test]
fn codec_round_trip_put() {
    let rec = Record::Put(key("könig"), val("wert")); // non-ASCII key
    let bytes = encode_record(&rec);
    let (back, used) = decode_record_at(&bytes, 0).expect("decode failed");
    assert_eq!(used, bytes.len());
    match back {
        Record::Put(k, v) => {
            assert_eq!(k, key("könig"));
            assert_eq!(v, val("wert"));
        }
        Record::Delete(_) => panic!("wrong record kind"),
    }
}

#[test]
fn codec_round_trip_delete() {
    let rec = Record::Delete(key("gone"));
    let bytes = encode_record(&rec);
    let (back, used) = decode_record_at(&bytes, 0).expect("decode failed");
    assert_eq!(used, bytes.len());
    match back {
        Record::Delete(k) => assert_eq!(k, key("gone")),
        Record::Put(_, _) => panic!("wrong record kind"),
    }
}

#[test]
fn codec_rejects_garbage() {
    assert!(decode_record_at(&vec![2, 0, 0, 0, 0, 0, 0, 0, 0, 0], 0).is_none());
    assert!(decode_record_at(&vec![0, 1], 0).is_none());
}

#[test]
fn codec_is_self_delimiting() {
    let mut bytes = encode_record(&Record::Put(key("a"), val("1")));
    let first_len = bytes.len();
    let second = encode_record(&Record::Delete(key("a")));
    bytes.extend_from_slice(&second);
    let (_, used) = decode_record_at(&bytes, 0).expect("decode failed");
    assert_eq!(used, first_len);
    let (back, used2) = decode_record_at(&bytes, used).expect("second decode failed");
    assert_eq!(used2, bytes.len());
    assert!(matches!(back, Record::Delete(_)));
}

#[test]
fn log_path_names() {
    assert_eq!(build_log_path(0), "logs/0.log");
    assert_eq!(build_log_path(7), "logs/7.log");
    assert_eq!(build_log_path(1234), "logs/1234.log");
    assert_eq!(build_log_path(u64::MAX), format!("logs/{}.log", u64::MAX));
}

#[test]
fn write_effect_reports_append() {
    let mut db = KVDB::new();
    let e1 = db.set(key("a"), val("1"));
    assert_eq!(e1.log_idx, 0);
    assert_eq!(e1.offset, 0);
    assert!(e1.compaction.is_none());
    let e2 = db.remove(&key("a"));
    assert_eq!(e2.log_idx, 0);
    assert_eq!(e2.offset, e1.bytes.len() as u64);
    // The appended bytes are exactly what the segment gained.
    let data = &db.store.segments[0].data;
    assert_eq!(&data[..e1.bytes.len()], &e1.bytes[..]);
    assert_eq!(&data[e1.bytes.len()..], &e2.bytes[..]);
}
