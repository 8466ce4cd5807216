use storage_core::codec::{encode_record, read_record, RECORD_TYPE_ACTIVE, RECORD_TYPE_DELETED};
use storage_core::log::{scan_log, CollectionLog, FrameRef};

// A model stored as "<id>:<name>"; its key is the part before the colon.
fn payload(id: &str, name: &str) -> Vec<u8> {
    format!("{}:{}", id, name).into_bytes()
}

fn key_of(payload: &[u8]) -> Option<String> {
    let text = std::str::from_utf8(payload).ok()?;
    let (id, _) = text.split_once(':')?;
    Some(id.to_string())
}

fn append(log: &mut Vec<u8>, coll: &mut CollectionLog, record_type: u8, id: &str, name: &str) {
    let offset = log.len() as u64;
    log.extend(encode_record(record_type, &payload(id, name), false));
    if record_type == RECORD_TYPE_ACTIVE {
        coll.insert(id.to_string(), offset);
    } else {
        coll.delete(&id.to_string());
    }
}

fn reopen(log: &[u8]) -> CollectionLog {
    let frames: Vec<FrameRef> = scan_log(log);
    let mut keys = Vec::new();
    for f in &frames {
        let start = f.offset as usize + 32;
        let end = f.offset as usize + f.header.length as usize;
        match key_of(&log[start..end]) {
            Some(k) => keys.push(k),
            None => break,
        }
    }
    CollectionLog::replay("user".to_string(), &frames, &keys)
}

fn model_at(log: &[u8], coll: &CollectionLog, id: &str) -> Option<Vec<u8>> {
    let offset = coll.find_by_id(&id.to_string())?;
    Some(read_record(log, offset).ok()?.1)
}

fn basic_crud() -> (Vec<u8>, CollectionLog) {
    let mut log = Vec::new();
    let mut coll = CollectionLog::new("user".to_string());
    append(&mut log, &mut coll, RECORD_TYPE_ACTIVE, "1", "a");
    append(&mut log, &mut coll, RECORD_TYPE_ACTIVE, "2", "b");
    let offset = log.len() as u64;
    log.extend(encode_record(RECORD_TYPE_ACTIVE, &payload("1", "a2"), false));
    coll.update("1".to_string(), offset);
    append(&mut log, &mut coll, RECORD_TYPE_DELETED, "2", "b");
    (log, coll)
}

#[test]
fn basic_crud_scenario() {
    let (log, coll) = basic_crud();
    assert_eq!(model_at(&log, &coll, "1"), Some(payload("1", "a2")));
    assert_eq!(model_at(&log, &coll, "2"), None);
    assert_eq!(coll.find_all().len(), 1);
    assert_eq!(coll.len(), 1);
    assert_eq!(coll.name(), "user");
}

#[test]
fn persistence_scenario() {
    let (log, coll) = basic_crud();
    let reopened = reopen(&log);
    assert_eq!(model_at(&log, &reopened, "1"), Some(payload("1", "a2")));
    assert_eq!(model_at(&log, &reopened, "2"), None);
    assert_eq!(reopened.find_all().len(), 1);
    assert_eq!(reopened.find_by_id(&"1".to_string()), coll.find_by_id(&"1".to_string()));
}

#[test]
fn corruption_detection_scenario() {
    let (mut log, _) = basic_crud();
    let frames = scan_log(&log);
    assert_eq!(frames.len(), 4);
    let latest_active = frames
        .iter()
        .filter(|f| f.header.record_type == RECORD_TYPE_ACTIVE)
        .last()
        .unwrap();
    let last_byte = (latest_active.offset + latest_active.header.length - 1) as usize;
    log[last_byte] ^= 0xFF;
    assert!(read_record(&log, latest_active.offset).is_err());
    let reopened = reopen(&log);
    assert_eq!(scan_log(&log).len(), 2);
    assert_eq!(model_at(&log, &reopened, "1"), Some(payload("1", "a")));
    assert_eq!(model_at(&log, &reopened, "2"), Some(payload("2", "b")));
}

#[test]
fn separate_collections_scenario() {
    let mut user_log = Vec::new();
    let mut users = CollectionLog::new("user".to_string());
    let mut account_log = Vec::new();
    let mut accounts = CollectionLog::new("account".to_string());
    for i in 0..4 {
        append(&mut user_log, &mut users, RECORD_TYPE_ACTIVE, &format!("u{}", i), "user");
        append(&mut account_log, &mut accounts, RECORD_TYPE_ACTIVE, &format!("a{}", i), "acct");
    }
    assert_eq!(users.find_all().len(), 4);
    assert_eq!(accounts.find_all().len(), 4);
    assert_eq!(users.find_by_id(&"a0".to_string()), None);
    assert_eq!(accounts.find_by_id(&"u0".to_string()), None);
    assert_eq!(reopen(&user_log).len(), 4);
    assert_eq!(reopen(&account_log).len(), 4);
}

#[test]
fn replay_matches_write_path() {
    let mut log = Vec::new();
    let mut coll = CollectionLog::new("user".to_string());
    append(&mut log, &mut coll, RECORD_TYPE_ACTIVE, "x", "1");
    append(&mut log, &mut coll, RECORD_TYPE_DELETED, "y", "absent");
    append(&mut log, &mut coll, RECORD_TYPE_ACTIVE, "y", "2");
    append(&mut log, &mut coll, RECORD_TYPE_ACTIVE, "x", "3");
    append(&mut log, &mut coll, RECORD_TYPE_DELETED, "y", "2");
    append(&mut log, &mut coll, RECORD_TYPE_ACTIVE, "z", "4");
    let reopened = reopen(&log);
    for k in ["x", "y", "z", "w"] {
        assert_eq!(reopened.find_by_id(&k.to_string()), coll.find_by_id(&k.to_string()));
    }
    assert_eq!(reopened.len(), 2);
}

#[test]
fn truncated_log_keeps_whole_frames() {
    let (log, _) = basic_crud();
    let frames = scan_log(&log);
    let ends: Vec<u64> = frames.iter().map(|f| f.offset + f.header.length).collect();
    for cut in 0..=log.len() {
        let prefix = scan_log(&log[..cut]);
        let expected = ends.iter().filter(|e| **e <= cut as u64).count();
        assert_eq!(prefix.len(), expected);
        assert_eq!(&prefix[..], &frames[..expected]);
    }
}

#[test]
fn replay_stops_at_unknown_record_type() {
    let mut log = Vec::new();
    log.extend(encode_record(RECORD_TYPE_ACTIVE, &payload("1", "a"), false));
    log.extend(encode_record(7, &payload("2", "b"), false));
    log.extend(encode_record(RECORD_TYPE_ACTIVE, &payload("3", "c"), false));
    let reopened = reopen(&log);
    assert_eq!(reopened.len(), 1);
    assert_eq!(reopened.find_by_id(&"1".to_string()), Some(0));
    assert_eq!(reopened.find_by_id(&"3".to_string()), None);
}

#[test]
fn replay_stops_where_keys_end() {
    let mut log = Vec::new();
    log.extend(encode_record(RECORD_TYPE_ACTIVE, &payload("1", "a"), false));
    log.extend(encode_record(RECORD_TYPE_ACTIVE, b"no key here", false));
    log.extend(encode_record(RECORD_TYPE_ACTIVE, &payload("3", "c"), false));
    let reopened = reopen(&log);
    assert_eq!(reopened.len(), 1);
    assert_eq!(reopened.find_by_id(&"3".to_string()), None);
}

#[test]
fn delete_of_absent_key_changes_nothing() {
    let mut coll = CollectionLog::new("user".to_string());
    coll.insert("1".to_string(), 0);
    coll.delete(&"9".to_string());
    assert_eq!(coll.len(), 1);
    assert_eq!(coll.find_by_id(&"1".to_string()), Some(0));
}

#[test]
fn empty_log_replays_to_nothing() {
    let reopened = reopen(&[]);
    assert_eq!(reopened.len(), 0);
    assert!(reopened.find_all().is_empty());
}
