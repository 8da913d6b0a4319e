use std::collections::BTreeMap;

use rust_mq::broker::partition_log::{key_to_offset, number_to_save, offset_to_key, LogError, PartitionLog};

const NOW: i64 = 1_700_000_000_000;

fn temp_log() -> PartitionLog {
    PartitionLog::open(Vec::new(), None, None)
}

#[test]
fn append_assigns_sequential_offsets() {
    let mut log = temp_log();
    assert_eq!(log.append(None, b"a".to_vec(), NOW), 0);
    assert_eq!(log.append(None, b"b".to_vec(), NOW), 1);
    assert_eq!(log.append(None, b"c".to_vec(), NOW), 2);
    assert_eq!(log.log_end_offset(), 3);
}

#[test]
fn read_respects_high_watermark() {
    let mut log = temp_log();
    log.append(None, b"m0".to_vec(), NOW);
    log.append(None, b"m1".to_vec(), NOW);
    log.append(None, b"m2".to_vec(), NOW);

    // HW = 0: nothing visible yet
    assert!(log.read(0, 1024).unwrap().is_empty());

    // Advance HW to 2: offsets 0 and 1 are visible
    log.advance_hw(2);
    let msgs = log.read(0, 1024).unwrap();
    assert_eq!(msgs.len(), 2);
    assert_eq!(msgs[0].offset, 0);
    assert_eq!(msgs[1].offset, 1);

    // Read starting at offset 1: only offset 1
    let msgs = log.read(1, 1024).unwrap();
    assert_eq!(msgs.len(), 1);
    assert_eq!(msgs[0].offset, 1);
}

#[test]
fn hw_only_advances_forward() {
    let mut log = temp_log();
    log.append(None, b"x".to_vec(), NOW);
    log.advance_hw(1);
    assert_eq!(log.high_watermark(), 1);
    log.advance_hw(0); // attempt to move backwards
    assert_eq!(log.high_watermark(), 1); // unchanged
}

#[test]
fn truncate_before_removes_old_entries() {
    let mut log = temp_log();
    for i in 0..5 {
        log.append(None, format!("m{i}").into_bytes(), NOW);
    }
    log.advance_hw(5);
    log.truncate_before(3);

    let msgs = log.read(0, 10240).unwrap();
    assert_eq!(msgs.len(), 2);
    assert_eq!(msgs[0].offset, 3);
    assert_eq!(msgs[1].offset, 4);
}

#[test]
fn leo_and_hw_recovered_after_reopen() {
    let mut tree: BTreeMap<Vec<u8>, Vec<u8>> = BTreeMap::new();
    let mut saved_hw: Option<Vec<u8>> = None;
    {
        let mut log = temp_log();
        for value in [b"a".to_vec(), b"b".to_vec()] {
            let offset = log.append(None, value, NOW);
            tree.insert(offset_to_key(offset), log.stored_bytes(offset).unwrap().clone());
        }
        if log.advance_hw(2) {
            saved_hw = Some(log.high_watermark().to_le_bytes().to_vec());
        }
    }
    // Reopen the same tree — LEO and HW must be restored
    let log = PartitionLog::open(tree.into_iter().collect(), saved_hw, None);
    assert_eq!(log.log_end_offset(), 2);
    assert_eq!(log.high_watermark(), 2);
}

#[test]
fn emptied_log_goes_on_where_it_ended() {
    let mut log = temp_log();
    log.append(None, b"a".to_vec(), NOW);
    log.append(None, b"b".to_vec(), NOW);
    log.advance_hw(2);
    assert_eq!(log.truncate_before(2), vec![0, 1]);
    assert_eq!((log.log_end_offset(), log.high_watermark()), (2, 2));

    let saved_hw = Some(2i64.to_le_bytes().to_vec());
    let mut again = PartitionLog::open(Vec::new(), saved_hw.clone(), None);
    assert_eq!((again.log_end_offset(), again.high_watermark()), (2, 2));
    assert_eq!(again.append(None, b"c".to_vec(), NOW), 2);

    // The end was further than the watermark, and both were saved.
    let saved_leo = Some(5i64.to_le_bytes().to_vec());
    let again = PartitionLog::open(Vec::new(), saved_hw, saved_leo);
    assert_eq!((again.log_end_offset(), again.high_watermark()), (5, 2));
}

#[test]
fn read_max_bytes_limits_results() {
    let mut log = temp_log();
    // Three messages of 100 bytes each
    for i in 0..3 {
        log.append(None, vec![i as u8; 100], NOW);
    }
    log.advance_hw(3);
    // 150-byte budget: first message (100 bytes) fits; second would exceed
    let msgs = log.read(0, 150).unwrap();
    assert_eq!(msgs.len(), 1);
    assert_eq!(msgs[0].offset, 0);
}

#[test]
fn read_empty_range_returns_empty() {
    let mut log = temp_log();
    log.append(None, b"x".to_vec(), NOW);
    // HW still 0 — nothing committed
    assert!(log.read(0, 1024).unwrap().is_empty());
}

#[test]
fn append_preserves_key_and_value() {
    let mut log = temp_log();
    let key = Some(b"my-key".to_vec());
    let value = b"my-value".to_vec();
    log.append(key.clone(), value.clone(), NOW);
    log.advance_hw(1);
    let msgs = log.read(0, 1024).unwrap();
    assert_eq!(msgs.len(), 1);
    assert_eq!(msgs[0].key, key);
    assert_eq!(msgs[0].value, value);
}

#[test]
fn keys_sort_like_offsets_and_read_back() {
    assert_eq!(offset_to_key(258), vec![0, 0, 0, 0, 0, 0, 1, 2]);
    assert!(offset_to_key(255) < offset_to_key(256));
    assert_eq!(key_to_offset(&offset_to_key(77)).unwrap(), 77);
}

#[test]
fn key_of_wrong_length_is_refused() {
    let err = key_to_offset(&[1, 2, 3]).unwrap_err();
    assert!(matches!(err, LogError::InvalidKeyLength { len: 3 }));
    assert_eq!(err.to_string(), "invalid key length 3");
}

#[test]
fn malformed_entry_is_reported() {
    let mut log = PartitionLog::open(vec![(offset_to_key(0), vec![1, 2, 3])], None, None);
    log.advance_hw(1);
    let err = log.read(0, 1024).unwrap_err();
    assert!(matches!(err, LogError::Malformed { offset: 0, .. }));
    assert_eq!(err.to_string(), "io error: unexpected end of file");
}

#[test]
fn stored_entry_has_its_fields_in_order() {
    let mut log = temp_log();
    let offset = log.append(Some(b"k".to_vec()), b"v".to_vec(), 5);
    let bytes = log.stored_bytes(offset).unwrap().clone();
    let expected = bincode::serialize(&(0i64, Some(b"k".to_vec()), b"v".to_vec(), 5i64)).unwrap();
    assert_eq!(bytes, expected);
}

#[test]
fn truncation_reports_what_it_removed_and_keeps_the_next_offset() {
    let mut log = temp_log();
    for _ in 0..4 {
        log.append(None, b"m".to_vec(), NOW);
    }
    assert_eq!(log.truncate_before(2), vec![0, 1]);
    assert_eq!(log.first_offset(), Some(2));
    assert_eq!(log.log_end_offset(), 4);
    assert_eq!(log.truncate_before(9), vec![2, 3]);
    assert_eq!(log.first_offset(), None);
    assert_eq!(log.append(None, b"m".to_vec(), NOW), 4);
}

#[test]
fn message_is_first_from_its_offset_on() {
    let mut log = temp_log();
    log.append(None, b"old".to_vec(), NOW);
    let offset = log.append(Some(b"k".to_vec()), b"mine".to_vec(), NOW);
    log.append(None, b"later".to_vec(), NOW);
    log.advance_hw(1);
    assert!(log.read(offset, 1024).unwrap().is_empty());
    log.truncate_before(1);
    log.advance_hw(2);
    assert_eq!(log.append(None, b"latest".to_vec(), NOW), 3);
    log.advance_hw(4);
    let all = log.read(offset, 1024).unwrap();
    assert_eq!(all.len(), 3);
    let one = log.read(offset, 1).unwrap();
    assert_eq!(one.len(), 1);
    for read in [&all, &one] {
        assert_eq!(read[0].offset, 1);
        assert_eq!(read[0].key, Some(b"k".to_vec()));
        assert_eq!(read[0].value, b"mine".to_vec());
    }
    assert_eq!(log.log_end_offset(), 4);
}

#[test]
fn saved_numbers_come_back_when_a_log_is_opened() {
    assert_eq!(number_to_save(258), vec![2, 1, 0, 0, 0, 0, 0, 0]);
    let log = PartitionLog::open(Vec::new(), Some(number_to_save(3)), Some(number_to_save(5)));
    assert_eq!(log.high_watermark(), 3);
    assert_eq!(log.log_end_offset(), 5);
    let log = PartitionLog::open(Vec::new(), Some(vec![3, 0, 0, 0, 0, 0, 0]), None);
    assert_eq!(log.high_watermark(), 0);
    assert_eq!(log.log_end_offset(), 0);
}
