use ssb_index::{
    encode_cursor, insert_message, Index, OrderBy, PostsArgs, Privacy, Query, QueryError,
    SsbMessage, ThreadsArgs, FOLLOWING,
};

fn add(index: &mut Index, key: &str, author: &str, seq: i64, content: &str, decrypted: bool) -> i32 {
    add_at(index, key, author, seq, seq * 100, content, decrypted)
}

fn add_at(
    index: &mut Index,
    key: &str,
    author: &str,
    seq: i64,
    asserted: i64,
    content: &str,
    decrypted: bool,
) -> i32 {
    let key_id = index.find_or_create_key(key).unwrap();
    let author_id = index.find_or_create_author(author).unwrap();
    let m = SsbMessage {
        key: key.to_string(),
        author: author.to_string(),
        sequence: seq as i32,
        asserted_time: asserted,
        received_time: seq * 1000,
        content: content.to_string(),
    };
    insert_message(index, &m, seq, key_id, decrypted, author_id).unwrap();
    key_id
}

fn post() -> String {
    r#"{"type":"post","text":"hello"}"#.to_string()
}

fn reply_to(root: &str) -> String {
    format!(r#"{{"type":"post","root":"{}"}}"#, root)
}

fn targs() -> ThreadsArgs {
    ThreadsArgs {
        before: None,
        after: None,
        last: None,
        first: None,
        privacy: Privacy::Public,
        roots_authored_by: None,
        roots_authored_by_someone_followed_by: None,
        has_replies_authored_by: None,
        has_replies_authored_by_someone_followed_by: None,
        mentions_authors: None,
        order_by: OrderBy::Received,
    }
}

fn pargs() -> PostsArgs {
    PostsArgs {
        before: None,
        after: None,
        last: None,
        first: None,
        text_matches: None,
        privacy: Privacy::Public,
        authors: None,
        mentions_authors: None,
        order_by: OrderBy::Received,
    }
}

fn names(v: &[&str]) -> Option<Vec<String>> {
    Some(v.iter().map(|s| s.to_string()).collect())
}

/// Roots t1, t2 by @a, t3, t4 by @c; @b replies to t2 and t3; t4 mentions @b;
/// @a follows @c and blocks @b.
fn forum() -> (Index, Vec<i32>) {
    let mut index = Index::new();
    let t1 = add(&mut index, "%t1", "@a", 1, &post(), false);
    let t2 = add(&mut index, "%t2", "@a", 2, &post(), false);
    let t3 = add(&mut index, "%t3", "@c", 3, &post(), false);
    let t4 = add(&mut index, "%t4", "@c", 4, &post(), false);
    add(&mut index, "%r1", "@b", 5, &reply_to("%t2"), false);
    add(&mut index, "%r2", "@b", 6, &reply_to("%t3"), false);
    let a = index.find_or_create_author("@a").unwrap();
    let b = index.find_or_create_author("@b").unwrap();
    let c = index.find_or_create_author("@c").unwrap();
    index.add_mention(t4, b);
    index.add_contact(a, c, FOLLOWING);
    index.add_contact(a, b, -1);
    (index, vec![t1, t2, t3, t4])
}

fn thread_keys(index: &Index, args: &ThreadsArgs) -> Vec<i32> {
    let c = Query.threads(index, args).ok().unwrap();
    c.thread_keys_and_cursor.iter().map(|(k, _)| *k).collect()
}

fn post_keys(index: &Index, args: &PostsArgs) -> Vec<i32> {
    let c = Query.posts(index, args).ok().unwrap();
    c.post_keys_and_cursor.iter().map(|(k, _)| *k).collect()
}

#[test]
fn threads_without_selectors_returns_every_root() {
    let (index, t) = forum();
    assert_eq!(thread_keys(&index, &targs()), vec![t[3], t[2], t[1], t[0]]);
}

#[test]
fn thread_selectors_are_or_combined() {
    let (index, t) = forum();
    let mut a = targs();
    a.roots_authored_by = names(&["@a"]);
    assert_eq!(thread_keys(&index, &a), vec![t[1], t[0]]);
    let mut b = targs();
    b.has_replies_authored_by = names(&["@b"]);
    assert_eq!(thread_keys(&index, &b), vec![t[2], t[1]]);
    let mut both = targs();
    both.roots_authored_by = names(&["@a"]);
    both.has_replies_authored_by = names(&["@b"]);
    assert_eq!(thread_keys(&index, &both), vec![t[2], t[1], t[0]]);
}

#[test]
fn followed_selectors_use_following_contacts_only() {
    let (index, t) = forum();
    let mut a = targs();
    a.roots_authored_by_someone_followed_by = names(&["@a"]);
    assert_eq!(thread_keys(&index, &a), vec![t[3], t[2]]);
    let mut r = targs();
    r.has_replies_authored_by_someone_followed_by = names(&["@a"]);
    assert_eq!(thread_keys(&index, &r), Vec::<i32>::new());
}

#[test]
fn mention_selector_finds_mentioning_roots() {
    let (index, t) = forum();
    let mut a = targs();
    a.mentions_authors = names(&["@b"]);
    assert_eq!(thread_keys(&index, &a), vec![t[3]]);
    let mut unknown = targs();
    unknown.mentions_authors = names(&["@nobody"]);
    assert_eq!(thread_keys(&index, &unknown), Vec::<i32>::new());
}

#[test]
fn thread_privacy_filter() {
    let mut index = Index::new();
    let public = add(&mut index, "%pub", "@a", 1, &post(), false);
    let private = add(&mut index, "%priv", "@a", 2, &post(), true);
    let mut a = targs();
    assert_eq!(thread_keys(&index, &a), vec![public]);
    a.privacy = Privacy::Private;
    assert_eq!(thread_keys(&index, &a), vec![private]);
    a.privacy = Privacy::All;
    assert_eq!(thread_keys(&index, &a), vec![private, public]);
}

#[test]
fn post_privacy_filter() {
    let mut index = Index::new();
    let public = add(&mut index, "%pub", "@a", 1, &post(), false);
    let private = add(&mut index, "%priv", "@a", 2, &post(), true);
    let mut a = pargs();
    assert_eq!(post_keys(&index, &a), vec![public]);
    a.privacy = Privacy::Private;
    assert_eq!(post_keys(&index, &a), vec![private]);
    a.privacy = Privacy::All;
    assert_eq!(post_keys(&index, &a), vec![private, public]);
}

#[test]
fn post_filters_are_and_combined() {
    let (index, t) = forum();
    let r1 = index.keys.iter().position(|k| k == "%r1").unwrap() as i32 + 1;
    let r2 = index.keys.iter().position(|k| k == "%r2").unwrap() as i32 + 1;
    let mut by_a = pargs();
    by_a.authors = names(&["@a"]);
    assert_eq!(post_keys(&index, &by_a), vec![t[1], t[0]]);
    let mut text = pargs();
    text.text_matches = Some(vec![t[0], t[2], r1]);
    assert_eq!(post_keys(&index, &text), vec![r1, t[2], t[0]]);
    let mut both = pargs();
    both.authors = names(&["@a"]);
    both.text_matches = Some(vec![t[0], t[2], r1]);
    assert_eq!(post_keys(&index, &both), vec![t[0]]);
    let mut by_b = pargs();
    by_b.authors = names(&["@b"]);
    assert_eq!(post_keys(&index, &by_b), vec![r2, r1]);
    let mut mention = pargs();
    mention.mentions_authors = names(&["@b"]);
    assert_eq!(post_keys(&index, &mention), vec![t[3]]);
    mention.authors = names(&["@a"]);
    assert_eq!(post_keys(&index, &mention), Vec::<i32>::new());
}

#[test]
fn posts_only_of_type_post() {
    let mut index = Index::new();
    let p = add(&mut index, "%p", "@a", 1, &post(), false);
    add(&mut index, "%v", "@a", 2, r#"{"type":"vote"}"#, false);
    add(&mut index, "%x", "@a", 3, "\"opaque.box\"", false);
    assert_eq!(post_keys(&index, &pargs()), vec![p]);
}

fn five_posts() -> (Index, Vec<i32>) {
    let mut index = Index::new();
    let mut keys = Vec::new();
    for i in 1..=5 {
        keys.push(add(&mut index, &format!("%p{}", i), "@a", i, &post(), false));
    }
    (index, keys)
}

#[test]
fn backward_pagination_pages() {
    let (index, p) = five_posts();
    let mut a = pargs();
    a.last = Some(2);
    let c = Query.posts(&index, &a).ok().unwrap();
    let keys: Vec<i32> = c.post_keys_and_cursor.iter().map(|(k, _)| *k).collect();
    assert_eq!(keys, vec![p[4], p[3]]);
    assert_eq!(c.page_info.start_cursor, Some(encode_cursor(5)));
    assert_eq!(c.page_info.end_cursor, Some(encode_cursor(4)));
    assert_eq!(c.post_keys_and_cursor[0].1, "5");
    assert!(c.page_info.has_previous_page);
    assert!(!c.page_info.has_next_page);
    let mut b = pargs();
    b.before = Some(encode_cursor(4));
    b.last = Some(2);
    let c2 = Query.posts(&index, &b).ok().unwrap();
    let keys2: Vec<i32> = c2.post_keys_and_cursor.iter().map(|(k, _)| *k).collect();
    assert_eq!(keys2, vec![p[2], p[1]]);
    assert!(c2.page_info.has_next_page);
    let mut end = pargs();
    end.before = Some(encode_cursor(2));
    end.last = Some(2);
    let c3 = Query.posts(&index, &end).ok().unwrap();
    assert_eq!(c3.post_keys_and_cursor.len(), 1);
    assert!(!c3.page_info.has_previous_page);
}

#[test]
fn backward_pagination_pages_threads() {
    let (index, p) = five_posts();
    let mut a = targs();
    a.last = Some(2);
    let c = Query.threads(&index, &a).ok().unwrap();
    let keys: Vec<i32> = c.thread_keys_and_cursor.iter().map(|(k, _)| *k).collect();
    assert_eq!(keys, vec![p[4], p[3]]);
    assert_eq!(c.page_info.start_cursor, Some("5".to_string()));
    assert_eq!(c.page_info.end_cursor, Some("4".to_string()));
    let mut b = targs();
    b.before = Some("4".to_string());
    b.last = Some(2);
    assert_eq!(thread_keys(&index, &b), vec![p[2], p[1]]);
}

#[test]
fn forward_pagination_pages() {
    let (index, p) = five_posts();
    let mut a = pargs();
    a.first = Some(2);
    let c = Query.posts(&index, &a).ok().unwrap();
    let keys: Vec<i32> = c.post_keys_and_cursor.iter().map(|(k, _)| *k).collect();
    assert_eq!(keys, vec![p[0], p[1]]);
    assert!(c.page_info.has_next_page);
    assert!(!c.page_info.has_previous_page);
    let mut b = pargs();
    b.after = c.page_info.end_cursor.clone();
    b.first = Some(2);
    let c2 = Query.posts(&index, &b).ok().unwrap();
    let keys2: Vec<i32> = c2.post_keys_and_cursor.iter().map(|(k, _)| *k).collect();
    assert_eq!(keys2, vec![p[2], p[3]]);
    assert!(c2.page_info.has_previous_page);
    assert!(c2.page_info.has_next_page);
    let mut tail = pargs();
    tail.after = Some(encode_cursor(3));
    tail.first = Some(5);
    let c3 = Query.posts(&index, &tail).ok().unwrap();
    assert_eq!(c3.post_keys_and_cursor.len(), 2);
    assert!(!c3.page_info.has_next_page);
    assert!(c3.page_info.has_previous_page);
    let mut z = pargs();
    z.first = Some(0);
    let empty = Query.posts(&index, &z).ok().unwrap();
    assert!(empty.post_keys_and_cursor.is_empty());
    assert_eq!(empty.page_info.start_cursor, None);
    assert_eq!(empty.page_info.end_cursor, None);
}

#[test]
fn default_page_is_ten_newest() {
    let mut index = Index::new();
    let mut keys = Vec::new();
    for i in 1..=12 {
        keys.push(add(&mut index, &format!("%p{}", i), "@a", i, &post(), false));
    }
    let expected: Vec<i32> = keys.iter().rev().take(10).cloned().collect();
    assert_eq!(post_keys(&index, &pargs()), expected);
    assert_eq!(thread_keys(&index, &targs()), expected);
    let c = Query.posts(&index, &pargs()).ok().unwrap();
    assert_eq!(c.next, 10);
}

#[test]
fn asserted_order_uses_claimed_time() {
    let mut index = Index::new();
    let a = add_at(&mut index, "%a", "@a", 1, 300, &post(), false);
    let b = add_at(&mut index, "%b", "@a", 2, 100, &post(), false);
    let c = add_at(&mut index, "%c", "@a", 3, 200, &post(), false);
    let mut args = pargs();
    args.order_by = OrderBy::Asserted;
    let conn = Query.posts(&index, &args).ok().unwrap();
    let keys: Vec<i32> = conn.post_keys_and_cursor.iter().map(|(k, _)| *k).collect();
    assert_eq!(keys, vec![a, c, b]);
    assert_eq!(conn.page_info.start_cursor, Some("300".to_string()));
    assert_eq!(conn.page_info.end_cursor, Some("100".to_string()));
    let mut before = pargs();
    before.order_by = OrderBy::Asserted;
    before.before = Some("300".to_string());
    before.last = Some(5);
    assert_eq!(post_keys(&index, &before), vec![c, b]);
}

#[test]
fn both_cursors_are_refused() {
    let (index, _) = five_posts();
    let mut a = pargs();
    a.before = Some("4".to_string());
    a.after = Some("1".to_string());
    a.last = Some(2);
    assert!(matches!(Query.posts(&index, &a), Err(QueryError::BothCursors)));
    let mut t = targs();
    t.before = Some("4".to_string());
    t.after = Some("1".to_string());
    assert!(matches!(Query.threads(&index, &t), Err(QueryError::BothCursors)));
}

#[test]
fn unmatched_pagination_is_refused() {
    let (index, _) = five_posts();
    let mut a = pargs();
    a.before = Some("4".to_string());
    assert!(matches!(Query.posts(&index, &a), Err(QueryError::BadCombination)));
    let mut b = pargs();
    b.after = Some("1".to_string());
    b.last = Some(2);
    assert!(matches!(Query.posts(&index, &b), Err(QueryError::BadCombination)));
    let mut c = targs();
    c.last = Some(1);
    c.first = Some(1);
    assert!(matches!(Query.threads(&index, &c), Err(QueryError::BadCombination)));
}

#[test]
fn malformed_cursor_is_refused() {
    let (index, _) = five_posts();
    let mut a = pargs();
    a.before = Some("not a cursor".to_string());
    a.last = Some(2);
    assert!(matches!(Query.posts(&index, &a), Err(QueryError::MalformedCursor)));
    let mut t = targs();
    t.after = Some("".to_string());
    t.first = Some(2);
    assert!(matches!(Query.threads(&index, &t), Err(QueryError::MalformedCursor)));
}

#[test]
fn negative_page_size_is_refused() {
    let (index, _) = five_posts();
    let mut a = pargs();
    a.last = Some(-1);
    assert!(matches!(Query.posts(&index, &a), Err(QueryError::NegativePageSize)));
}

#[test]
fn threads_come_once_each() {
    let (index, t) = forum();
    let mut a = targs();
    a.roots_authored_by = names(&["@a", "@c"]);
    a.has_replies_authored_by = names(&["@b"]);
    a.mentions_authors = names(&["@b"]);
    a.privacy = Privacy::All;
    assert_eq!(thread_keys(&index, &a), vec![t[3], t[2], t[1], t[0]]);
}
