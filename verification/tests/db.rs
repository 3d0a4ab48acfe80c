use n2::db::{decode_log, decode_record, encode_record, last_hash_for, Record};

fn rec(paths: &[&str], h: u64) -> Record {
    Record {
        outs: paths.iter().map(|p| p.as_bytes().to_vec()).collect(),
        hash: n2::graph::Hash::from_stored(h),
    }
}

#[test]
fn record_roundtrip() {
    let r = rec(&["out", "subdir/out2"], 0xdead_beef_cafe_f00d);
    let bytes = encode_record(&r);
    let (back, used) = decode_record(&bytes, 0).expect("frame must decode");
    assert_eq!(used, bytes.len());
    assert_eq!(back.outs, r.outs);
    assert_eq!(back.hash, r.hash);
}

#[test]
fn record_frame_layout() {
    // one path "a", fingerprint 2: count word, length word, byte, hash word
    let r = rec(&["a"], 2);
    let bytes = encode_record(&r);
    let mut expected = vec![1u8, 0, 0, 0, 0, 0, 0, 0];
    expected.extend_from_slice(&[1, 0, 0, 0, 0, 0, 0, 0]);
    expected.push(b'a');
    expected.extend_from_slice(&[2, 0, 0, 0, 0, 0, 0, 0]);
    assert_eq!(bytes, expected);
}

#[test]
fn log_replay_last_record_wins() {
    let mut log = Vec::new();
    log.extend_from_slice(&encode_record(&rec(&["out"], 1)));
    log.extend_from_slice(&encode_record(&rec(&["other"], 7)));
    log.extend_from_slice(&encode_record(&rec(&["out"], 3)));
    let records = decode_log(&log);
    assert_eq!(records.len(), 3);
    let outs = vec![b"out".to_vec()];
    let last = last_hash_for(&records, &outs).expect("out was logged");
    assert_eq!(last, n2::graph::Hash::from_stored(3));
    assert_eq!(last_hash_for(&records, &vec![b"other".to_vec()]), Some(n2::graph::Hash::from_stored(7)));
    assert_eq!(last_hash_for(&records, &vec![b"absent".to_vec()]), None);
}

#[test]
fn corrupt_tail_is_ignored() {
    let mut log = Vec::new();
    log.extend_from_slice(&encode_record(&rec(&["out"], 9)));
    log.extend_from_slice(&[0xff, 0x01, 0x02]);
    let records = decode_log(&log);
    assert_eq!(records.len(), 1);
    assert_eq!(records[0].hash, n2::graph::Hash::from_stored(9));
}

#[test]
fn empty_log_has_no_records() {
    assert_eq!(decode_log(&[]).len(), 0);
    assert!(decode_record(&[], 0).is_none());
}
