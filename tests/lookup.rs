use ssb_index::{insert_message, Author, Index, Like, Query, QueryError, SsbMessage};

fn add(index: &mut Index, key: &str, seq: i64, content: &str) -> i32 {
    let key_id = index.find_or_create_key(key).unwrap();
    let author_id = index.find_or_create_author("@a").unwrap();
    let m = SsbMessage {
        key: key.to_string(),
        author: "@a".to_string(),
        sequence: 1,
        asserted_time: seq,
        received_time: seq,
        content: content.to_string(),
    };
    insert_message(index, &m, seq, key_id, false, author_id).unwrap();
    key_id
}

#[test]
fn db_cursor_is_newest_sequence() {
    let mut index = Index::new();
    assert_eq!(Query.db_cursor(&index), None);
    add(&mut index, "%a", 7, r#"{"type":"post"}"#);
    add(&mut index, "%b", 19, r#"{"type":"post"}"#);
    assert_eq!(Query.db_cursor(&index), Some("19".to_string()));
}

#[test]
fn current_author_is_the_marked_one() {
    let mut index = Index::new();
    assert_eq!(Query.current_author(&index), None);
    index.find_or_create_author("@other").unwrap();
    let me = index.set_is_me("@me").unwrap();
    assert_eq!(me, 2);
    assert_eq!(Query.current_author(&index), Some(Author { author_id: 2 }));
    assert_eq!(Query.author(&index, "@other"), Some(Author { author_id: 1 }));
    assert_eq!(Query.author(&index, "@missing"), None);
}

#[test]
fn thread_and_post_lookup() {
    let mut index = Index::new();
    let root = add(&mut index, "%root", 1, r#"{"type":"post"}"#);
    let reply = add(&mut index, "%reply", 2, r#"{"type":"post","root":"%root"}"#);
    let forward = add(&mut index, "%orphan", 3, r#"{"type":"post","root":"%later"}"#);
    assert_eq!(Query.thread(&index, "%root").unwrap().root.key_id, root);
    assert!(Query.thread(&index, "%later").is_none());
    assert_eq!(Query.thread_for_post(&index, "%reply").unwrap().root.key_id, root);
    assert_eq!(Query.thread_for_post(&index, "%root").unwrap().root.key_id, root);
    let later = index.keys.iter().position(|k| k == "%later").unwrap() as i32 + 1;
    assert_eq!(Query.thread_for_post(&index, "%orphan").unwrap().root.key_id, later);
    assert_ne!(forward, later);
    assert_eq!(Query.post(&index, "%reply").unwrap().key_id, reply);
    assert!(Query.post(&index, "%unknown").is_none());
}

#[test]
fn message_content_lookup() {
    let mut index = Index::new();
    add(&mut index, "%m", 1, r#"{"type":"post","text":"x"}"#);
    assert_eq!(Query.message(&index, "%m"), Some(r#"{"type":"post","text":"x"}"#.to_string()));
    assert_eq!(Query.message(&index, "%none"), None);
}

#[test]
fn message_types_are_distinct() {
    let mut index = Index::new();
    add(&mut index, "%a", 1, r#"{"type":"post"}"#);
    add(&mut index, "%b", 2, r#"{"type":"vote"}"#);
    add(&mut index, "%c", 3, r#"{"type":"post"}"#);
    add(&mut index, "%d", 4, "\"private.box\"");
    assert_eq!(Query.message_types(&index), vec!["post".to_string(), "vote".to_string()]);
}

#[test]
fn unbuilt_queries_report_not_implemented() {
    let index = Index::new();
    assert_eq!(Query.authors(&index, "al", &None, false), Err(QueryError::NotImplemented));
    assert_eq!(Query.messages_by_type(&index, "post"), Err(QueryError::NotImplemented));
    assert_eq!(Query.links(&index, &None, &None), Err(QueryError::NotImplemented));
}

#[test]
fn like_author_is_default() {
    assert_eq!(Like {}.author(), Some(Author { author_id: 0 }));
}
