use chunklog::opfs::{
    append_record, delete_record, file_header, parse_log, put_record, transaction_record, LogError,
    BEGIN, COMMIT, DELETE, HASH_LEN, PUT,
};
use chunklog::opfs_cache::{validate_file_name, OpfsError, OpfsLog};

#[test]
fn committed_batches_are_indexed_and_incomplete_tail_is_ignored() {
    let data = b"canonical object";
    let hash = chunklog::hash::Hash::digest(data);
    let mut log = file_header().to_vec();
    log.extend(transaction_record(BEGIN, 1));
    log.extend(put_record(hash, data));
    log.extend(transaction_record(COMMIT, 1));
    let committed_len = log.len() as u64;
    log.extend(transaction_record(BEGIN, 2));
    log.extend(delete_record(hash));

    let parsed = parse_log(&log).unwrap();
    assert_eq!(parsed.valid_len, committed_len);
    assert_eq!(parsed.next_transaction, 3);
    assert_eq!(parsed.entries.len(), 1);
    let entry = parsed.entries[&hash.to_u64()];
    assert_eq!(&log[entry.offset as usize..][..entry.len as usize], data);
}

#[test]
fn documented_layout_gives_exact_offsets() {
    let data = b"canonical object";
    let hash = chunklog::hash::Hash::digest(data);
    let mut log = file_header().to_vec();
    log.extend(transaction_record(BEGIN, 1));
    log.extend(put_record(hash, data));
    log.extend(transaction_record(COMMIT, 1));
    log.extend(transaction_record(BEGIN, 2));
    log.extend(delete_record(hash));
    assert_eq!(log.len(), 157);
    let parsed = parse_log(&log).unwrap();
    assert_eq!(parsed.valid_len, 99);
    let entry = parsed.entries[&hash.to_u64()];
    assert_eq!(entry.offset, 66);
    assert_eq!(entry.len, 16);
    assert_eq!(&log[66..82], data);
    assert_eq!(log[66 - 41], PUT);
    assert_eq!(&log[66 - 32..66 - 24], &hash.to_u64().to_le_bytes()[..]);
    assert!(log[66 - 24..66].iter().all(|b| *b == 0));
}

#[test]
fn put_and_delete_records_carry_a_padded_address_field() {
    assert_eq!(HASH_LEN, 32);
    let hash = chunklog::hash::Hash::digest(b"abc");
    let put = put_record(hash, b"abc");
    assert_eq!(put.len(), 9 + 32 + 3);
    assert_eq!(put[0], PUT);
    assert_eq!(&put[1..9], &35u64.to_be_bytes()[..]);
    assert_eq!(&put[9..17], &hash.to_u64().to_le_bytes()[..]);
    assert_eq!(&put[17..41], &[0u8; 24][..]);
    assert_eq!(&put[41..], b"abc");
    let delete = delete_record(hash);
    assert_eq!(delete.len(), 9 + 32);
    assert_eq!(delete[0], DELETE);
    assert_eq!(&delete[1..9], &32u64.to_be_bytes()[..]);
    assert_eq!(&delete[9..17], &hash.to_u64().to_le_bytes()[..]);
    assert_eq!(&delete[17..], &[0u8; 24][..]);
}

#[test]
fn short_address_fields_are_rejected_inside_a_transaction() {
    let hash = chunklog::hash::Hash::digest(b"value");
    let address = hash.to_u64().to_le_bytes();

    let mut short_delete = file_header().to_vec();
    short_delete.extend(transaction_record(BEGIN, 1));
    append_record(&mut short_delete, DELETE, &address);
    short_delete.extend(transaction_record(COMMIT, 1));
    assert_eq!(parse_log(&short_delete).unwrap_err(), LogError::InvalidDelete);

    let mut short_put = file_header().to_vec();
    short_put.extend(transaction_record(BEGIN, 1));
    let mut payload = address.to_vec();
    payload.extend_from_slice(b"value");
    append_record(&mut short_put, PUT, &payload);
    short_put.extend(transaction_record(COMMIT, 1));
    assert_eq!(parse_log(&short_put).unwrap_err(), LogError::TruncatedPut);

    let mut dirty_padding = file_header().to_vec();
    dirty_padding.extend(transaction_record(BEGIN, 1));
    let mut record = delete_record(hash);
    let last = record.len() - 1;
    record[last] = 1;
    dirty_padding.extend(record);
    dirty_padding.extend(transaction_record(COMMIT, 1));
    assert_eq!(parse_log(&dirty_padding).unwrap_err(), LogError::InvalidDelete);
}

#[test]
fn corruption_and_unframed_operations_are_rejected() {
    assert!(parse_log(b"not an object log").is_err());
    let hash = chunklog::hash::Hash::digest(b"value");
    let mut unframed = file_header().to_vec();
    unframed.extend(put_record(hash, b"value"));
    assert!(parse_log(&unframed).is_err());

    let mut corrupt = file_header().to_vec();
    corrupt.extend(transaction_record(BEGIN, 1));
    corrupt.extend(put_record(hash, b"value"));
    *corrupt.last_mut().unwrap() ^= 1;
    assert!(parse_log(&corrupt).is_err());
}

#[test]
fn rejected_logs_name_their_fault() {
    assert_eq!(parse_log(b"short").unwrap_err(), LogError::InvalidHeader);
    let hash = chunklog::hash::Hash::digest(b"value");
    let mut unframed = file_header().to_vec();
    unframed.extend(put_record(hash, b"value"));
    assert_eq!(parse_log(&unframed).unwrap_err(), LogError::PutOutsideTransaction);
    let mut corrupt = file_header().to_vec();
    corrupt.extend(transaction_record(BEGIN, 1));
    corrupt.extend(put_record(hash, b"value"));
    *corrupt.last_mut().unwrap() ^= 1;
    assert_eq!(parse_log(&corrupt).unwrap_err(), LogError::CorruptPut);
}

#[test]
fn empty_file_opens_with_a_header() {
    let store = OpfsLog::from_file_bytes(Vec::new()).unwrap();
    assert_eq!(store.durable_len(), 8);
    assert!(store.unpublished().is_empty());
    assert!(store.list().is_empty());
}

#[test]
fn truncated_record_is_a_crash_tail() {
    let data = b"chunk";
    let hash = chunklog::hash::Hash::digest(data);
    let mut log = file_header().to_vec();
    log.extend(transaction_record(BEGIN, 1));
    log.extend(put_record(hash, data));
    log.extend(transaction_record(COMMIT, 1));
    let committed_len = log.len() as u64;
    let second = put_record(chunklog::hash::Hash::digest(b"other"), b"other");
    log.extend(transaction_record(BEGIN, 2));
    log.extend(&second[..second.len() - 3]);
    let parsed = parse_log(&log).unwrap();
    assert_eq!(parsed.valid_len, committed_len);
    assert_eq!(parsed.entries.len(), 1);
}

/// Writes the prepared transaction "to the file" and settles it.
fn publish(store: &mut OpfsLog, file: &mut Vec<u8>) {
    assert_eq!(store.prepare_commit(), Ok(true));
    assert_eq!(file.len() as u64, store.durable_len());
    file.extend_from_slice(store.unpublished());
    store.finish_commit(true).unwrap();
}

#[test]
fn batch_write_commit_and_reopen() {
    let mut file = Vec::new();
    let mut store = OpfsLog::from_file_bytes(file.clone()).unwrap();
    file = chunklog::opfs::file_header().to_vec();
    store.begin().unwrap();
    let a = store.put(b"first").unwrap();
    let b = store.put(b"second").unwrap();
    assert_eq!(a, chunklog::hash::Hash::digest(b"first"));
    assert_eq!(store.read(b).unwrap(), b"second".to_vec());
    publish(&mut store, &mut file);
    assert_eq!(store.durable_len(), file.len() as u64);

    let reopened = OpfsLog::from_file_bytes(file.clone()).unwrap();
    assert_eq!(reopened.read(a).unwrap(), b"first".to_vec());
    assert_eq!(reopened.read(b).unwrap(), b"second".to_vec());
    let mut listed = reopened.list();
    listed.sort();
    let mut expected = vec![a, b];
    expected.sort();
    assert_eq!(listed, expected);
}

#[test]
fn put_outside_a_batch_and_double_begin_fail() {
    let mut store = OpfsLog::from_file_bytes(Vec::new()).unwrap();
    assert_eq!(store.put(b"x"), Err(OpfsError::NoBatch));
    assert_eq!(store.remove(chunklog::hash::Hash::digest(b"x")), Err(OpfsError::NoBatch));
    assert_eq!(store.prepare_commit(), Err(OpfsError::NoBatch));
    store.begin().unwrap();
    assert_eq!(store.begin(), Err(OpfsError::BatchActive));
}

#[test]
fn rollback_discards_staged_changes() {
    let mut store = OpfsLog::from_file_bytes(Vec::new()).unwrap();
    store.begin().unwrap();
    let h = store.put(b"staged").unwrap();
    assert!(store.read(h).is_ok());
    store.rollback().unwrap();
    assert_eq!(store.read(h), Err(OpfsError::NotFound(h)));
}

#[test]
fn delete_is_committed_and_survives_reopen() {
    let mut file = file_header().to_vec();
    let mut store = OpfsLog::from_file_bytes(file.clone()).unwrap();
    store.begin().unwrap();
    let h = store.put(b"doomed").unwrap();
    publish(&mut store, &mut file);
    store.begin().unwrap();
    store.remove(h).unwrap();
    assert_eq!(store.read(h), Err(OpfsError::NotFound(h)));
    publish(&mut store, &mut file);
    let reopened = OpfsLog::from_file_bytes(file).unwrap();
    assert_eq!(reopened.read(h), Err(OpfsError::NotFound(h)));
}

#[test]
fn empty_batch_commits_nothing() {
    let mut store = OpfsLog::from_file_bytes(Vec::new()).unwrap();
    store.begin().unwrap();
    assert_eq!(store.prepare_commit(), Ok(false));
    assert_eq!(store.durable_len(), 8);
    assert_eq!(store.finish_commit(true), Err(OpfsError::OutOfSync));
}

#[test]
fn failed_publish_keeps_the_batch_open() {
    let mut store = OpfsLog::from_file_bytes(Vec::new()).unwrap();
    store.begin().unwrap();
    let h = store.put(b"pending").unwrap();
    assert_eq!(store.prepare_commit(), Ok(true));
    assert!(!store.unpublished().is_empty());
    assert_eq!(store.prepare_commit(), Err(OpfsError::OutOfSync));
    store.finish_commit(false).unwrap();
    assert!(store.unpublished().is_empty());
    assert_eq!(store.durable_len(), 8);
    assert_eq!(store.read(h).unwrap(), b"pending".to_vec());
    assert_eq!(store.begin(), Err(OpfsError::BatchActive));
}

#[test]
fn crash_in_the_middle_of_a_publish_reopens_to_the_old_objects() {
    let mut file = file_header().to_vec();
    let mut store = OpfsLog::from_file_bytes(file.clone()).unwrap();
    store.begin().unwrap();
    let old = store.put(b"old").unwrap();
    publish(&mut store, &mut file);
    store.begin().unwrap();
    let new = store.put(b"new").unwrap();
    store.remove(old).unwrap();
    assert_eq!(store.prepare_commit(), Ok(true));
    let bytes = store.unpublished().to_vec();
    for cut in 0..bytes.len() {
        let mut crashed = file.clone();
        crashed.extend_from_slice(&bytes[..cut]);
        let reopened = OpfsLog::from_file_bytes(crashed).unwrap();
        assert_eq!(reopened.durable_len(), file.len() as u64);
        assert_eq!(reopened.read(old).unwrap(), b"old".to_vec());
        assert_eq!(reopened.read(new), Err(OpfsError::NotFound(new)));
    }
}

#[test]
fn rewriting_a_deleted_object_cancels_the_delete() {
    let mut file = file_header().to_vec();
    let mut store = OpfsLog::from_file_bytes(file.clone()).unwrap();
    store.begin().unwrap();
    let h = store.put(b"kept").unwrap();
    publish(&mut store, &mut file);
    store.begin().unwrap();
    store.remove(h).unwrap();
    assert_eq!(store.put(b"kept"), Ok(h));
    assert_eq!(store.prepare_commit(), Ok(false));
    assert_eq!(store.read(h).unwrap(), b"kept".to_vec());
}

#[test]
fn automatic_write_publishes_its_own_batch() {
    let mut file = file_header().to_vec();
    let mut store = OpfsLog::from_file_bytes(file.clone()).unwrap();
    let (h, pending) = store.write_object(b"solo").unwrap();
    assert!(pending);
    file.extend_from_slice(store.unpublished());
    store.finish_commit(true).unwrap();
    let (again, pending) = store.write_object(b"solo").unwrap();
    assert_eq!(again, h);
    assert!(!pending);
    let reopened = OpfsLog::from_file_bytes(file.clone()).unwrap();
    assert_eq!(reopened.read(h).unwrap(), b"solo".to_vec());

    assert_eq!(store.delete_object(h), Ok(true));
    file.extend_from_slice(store.unpublished());
    store.finish_commit(true).unwrap();
    assert_eq!(store.delete_object(h), Ok(false));
    let reopened = OpfsLog::from_file_bytes(file).unwrap();
    assert_eq!(reopened.read(h), Err(OpfsError::NotFound(h)));
}

#[test]
fn writes_inside_an_open_batch_wait_for_its_commit() {
    let mut store = OpfsLog::from_file_bytes(Vec::new()).unwrap();
    store.begin().unwrap();
    let (h, pending) = store.write_object(b"batched").unwrap();
    assert!(!pending);
    assert_eq!(store.delete_object(h), Ok(false));
    assert_eq!(store.read(h), Err(OpfsError::NotFound(h)));
    assert_eq!(store.durable_len(), 8);
}

#[test]
fn log_file_names_are_single_components() {
    assert_eq!(validate_file_name("objects.log"), Ok(()));
    assert_eq!(validate_file_name(""), Err(OpfsError::InvalidFileName));
    assert_eq!(validate_file_name("."), Err(OpfsError::InvalidFileName));
    assert_eq!(validate_file_name(".."), Err(OpfsError::InvalidFileName));
    assert_eq!(validate_file_name("a/b"), Err(OpfsError::InvalidFileName));
    assert_eq!(validate_file_name("a\\b"), Err(OpfsError::InvalidFileName));
    assert_eq!(validate_file_name("..."), Ok(()));
}
