use ssb_index::{find_or_create, insert_message, Index, IngestError, SsbMessage};

fn record(key: &str, content: &str) -> SsbMessage {
    SsbMessage {
        key: key.to_string(),
        author: "@alice".to_string(),
        sequence: 3,
        asserted_time: 1000,
        received_time: 2000,
        content: content.to_string(),
    }
}

#[test]
fn find_or_create_is_idempotent() {
    let mut keys: Vec<String> = Vec::new();
    let a = find_or_create(&mut keys, "%a").unwrap();
    let b = find_or_create(&mut keys, "%b").unwrap();
    let a2 = find_or_create(&mut keys, "%a").unwrap();
    assert_eq!(a, 1);
    assert_eq!(b, 2);
    assert_eq!(a, a2);
    assert_eq!(keys.len(), 2);
}

#[test]
fn index_key_registry_is_idempotent() {
    let mut index = Index::new();
    let first = index.find_or_create_key("%k").unwrap();
    let second = index.find_or_create_key("%k").unwrap();
    assert_eq!(first, second);
    assert_eq!(index.keys.len(), 1);
}

#[test]
fn insert_resolves_forward_references() {
    let mut index = Index::new();
    let key_id = index.find_or_create_key("%reply").unwrap();
    let author_id = index.find_or_create_author("@alice").unwrap();
    let m = record("%reply", r#"{"type":"post","root":"%root","fork":"%fork","text":"hi"}"#);
    assert_eq!(insert_message(&mut index, &m, 1, key_id, true, author_id), Ok(1));
    assert_eq!(index.keys, vec!["%reply".to_string(), "%root".to_string(), "%fork".to_string()]);
    let row = &index.messages[0];
    assert_eq!(row.flume_seq, 1);
    assert_eq!(row.key_id, key_id);
    assert_eq!(row.seq, 3);
    assert_eq!(row.received_time, 2000);
    assert_eq!(row.asserted_time, Some(1000));
    assert_eq!(row.root_key_id, Some(2));
    assert_eq!(row.fork_key_id, Some(3));
    assert_eq!(row.author_id, author_id);
    assert_eq!(row.content_type, Some("post".to_string()));
    assert_eq!(row.content, Some(m.content.clone()));
    assert!(row.is_decrypted);
}

#[test]
fn insert_reuses_known_root_key() {
    let mut index = Index::new();
    let root = index.find_or_create_key("%root").unwrap();
    let key_id = index.find_or_create_key("%reply").unwrap();
    let m = record("%reply", r#"{"type":"post","root":"%root"}"#);
    insert_message(&mut index, &m, 4, key_id, false, 1).unwrap();
    assert_eq!(index.keys.len(), 2);
    assert_eq!(index.messages[0].root_key_id, Some(root));
    assert_eq!(index.messages[0].fork_key_id, None);
}

#[test]
fn opaque_content_has_no_type() {
    let mut index = Index::new();
    let key_id = index.find_or_create_key("%secret").unwrap();
    let m = record("%secret", "\"c2VjcmV0.box\"");
    insert_message(&mut index, &m, 1, key_id, false, 1).unwrap();
    let row = &index.messages[0];
    assert_eq!(row.content_type, None);
    assert_eq!(row.root_key_id, None);
    assert_eq!(index.keys.len(), 1);
    let garbage = record("%garbage", "not json at all");
    let garbage_id = index.find_or_create_key("%garbage").unwrap();
    insert_message(&mut index, &garbage, 2, garbage_id, false, 1).unwrap();
    assert_eq!(index.messages[1].content_type, None);
}

#[test]
fn non_string_fields_are_ignored() {
    let mut index = Index::new();
    let m = record("%x", r#"{"type":7,"root":null,"fork":["%a"]}"#);
    insert_message(&mut index, &m, 1, 1, false, 1).unwrap();
    assert_eq!(index.messages[0].content_type, None);
    assert_eq!(index.messages[0].root_key_id, None);
    assert_eq!(index.messages[0].fork_key_id, None);
}

#[test]
fn sequences_strictly_increase_across_errors() {
    let mut index = Index::new();
    let m = record("%a", r#"{"type":"post"}"#);
    insert_message(&mut index, &m, 5, 1, false, 1).unwrap();
    assert_eq!(
        insert_message(&mut index, &m, 5, 1, false, 1),
        Err(IngestError::SequenceNotIncreasing)
    );
    assert_eq!(
        insert_message(&mut index, &m, 3, 1, false, 1),
        Err(IngestError::SequenceNotIncreasing)
    );
    assert_eq!(index.messages.len(), 1);
    assert_eq!(insert_message(&mut index, &m, 6, 2, false, 1), Ok(1));
    let seqs: Vec<i64> = index.messages.iter().map(|m| m.flume_seq).collect();
    assert_eq!(seqs, vec![5, 6]);
}

#[test]
fn failed_insert_writes_no_keys() {
    let mut index = Index::new();
    let m = record("%a", r#"{"type":"post"}"#);
    insert_message(&mut index, &m, 5, 1, false, 1).unwrap();
    let reply = record("%b", r#"{"type":"post","root":"%new"}"#);
    assert!(insert_message(&mut index, &reply, 2, 2, false, 1).is_err());
    assert_eq!(index.keys.len(), 0);
    assert_eq!(index.messages.len(), 1);
}

#[test]
fn key_already_indexed_is_refused() {
    let mut index = Index::new();
    let m = record("%a", r#"{"type":"post","root":"%r"}"#);
    assert_eq!(insert_message(&mut index, &m, 1, 1, false, 1), Ok(1));
    let keys_before = index.keys.len();
    assert_eq!(
        insert_message(&mut index, &m, 2, 1, false, 1),
        Err(IngestError::KeyAlreadyIndexed)
    );
    assert_eq!(index.messages.len(), 1);
    assert_eq!(index.keys.len(), keys_before);
    assert_eq!(insert_message(&mut index, &m, 2, 2, false, 1), Ok(1));
}

#[test]
fn fresh_record_is_written() {
    let mut index = Index::new();
    let m = record("%a", r#"{"type":"post"}"#);
    assert_eq!(insert_message(&mut index, &m, 10, 4, false, 1), Ok(1));
    assert_eq!(insert_message(&mut index, &m, 11, 5, false, 1), Ok(1));
    assert_eq!(index.messages.len(), 2);
    assert_eq!(index.messages[1].key_id, 5);
}
