//! The two searches: threads (selectors OR-combined) and posts (filters
//! AND-combined), each paginated by the shared page plan.
use vstd::prelude::*;
use crate::filters::{
    author_ids, follows, followed_ids, mentioning_keys, mentions_any, named, opt_contains,
    replied_by, reply_root_keys, row_of, rows_where,
};
use crate::index::{key_ids_distinct, unique, id_of, last_seq, names, position_of, seqs_increasing, Index, Message};
use crate::ingest::opt_view;
use crate::cursor::{cursor_text, encode_cursor};
use crate::page::{
    bound_holds, edges_for, in_bound, page_edges, page_info, page_info_for, page_plan,
    plan_page, privacy_allows, distinct_keys, lemma_window_keys_distinct, privacy_ok, select_window, window_ok, Bound, OrderBy, PageInfo,
    PagePlan, Privacy, QueryError, Row, DEFAULT_PAGE_SIZE, distinct_seqs,
};

verus! {

/// The root queries over an index.
pub struct Query;

/// Arguments of a thread search.
pub struct ThreadsArgs {
    pub before: Option<String>,
    pub after: Option<String>,
    pub last: Option<i32>,
    pub first: Option<i32>,
    pub privacy: Privacy,
    /// Threads whose root is authored by one of these authors.
    pub roots_authored_by: Option<Vec<String>>,
    /// Threads whose root is authored by someone these authors follow.
    pub roots_authored_by_someone_followed_by: Option<Vec<String>>,
    /// Threads with a reply by one of these authors.
    pub has_replies_authored_by: Option<Vec<String>>,
    /// Threads with a reply by someone these authors follow.
    pub has_replies_authored_by_someone_followed_by: Option<Vec<String>>,
    /// Threads whose root mentions one of these authors.
    pub mentions_authors: Option<Vec<String>>,
    pub order_by: OrderBy,
}

/// Arguments of a post search.
pub struct PostsArgs {
    pub before: Option<String>,
    pub after: Option<String>,
    pub last: Option<i32>,
    pub first: Option<i32>,
    /// The keys that the text index matched for the query string, where one was given.
    pub text_matches: Option<Vec<i32>>,
    pub privacy: Privacy,
    /// Posts authored by one of these authors.
    pub authors: Option<Vec<String>>,
    /// Posts that mention one of these authors.
    pub mentions_authors: Option<Vec<String>>,
    pub order_by: OrderBy,
}

/// A page of threads: each root key with its cursor.
pub struct ThreadConnection {
    pub next: i32,
    pub thread_keys_and_cursor: Vec<(i32, String)>,
    pub page_info: PageInfo,
}

/// A page of posts: each key with its cursor.
pub struct PostConnection {
    pub next: i32,
    pub post_keys_and_cursor: Vec<(i32, String)>,
    pub page_info: PageInfo,
}

pub open spec fn list_names(l: Vec<String>) -> Seq<Seq<char>> {
    names(l@)
}

impl ThreadsArgs {
    pub open spec fn no_selector(&self) -> bool {
        &&& self.roots_authored_by is None
        &&& self.roots_authored_by_someone_followed_by is None
        &&& self.has_replies_authored_by is None
        &&& self.has_replies_authored_by_someone_followed_by is None
        &&& self.mentions_authors is None
    }

    pub open spec fn plan(&self) -> Result<PagePlan, QueryError> {
        page_plan(opt_view(self.before), opt_view(self.after), self.last, self.first)
    }
}

impl PostsArgs {
    pub open spec fn plan(&self) -> Result<PagePlan, QueryError> {
        page_plan(opt_view(self.before), opt_view(self.after), self.last, self.first)
    }
}


/// An author, by surrogate id.
#[derive(Clone, Copy, PartialEq, Eq, Structural, Debug)]
pub struct Author {
    pub author_id: i32,
}

/// A post, by key id, with its cursor where it came from a search.
pub struct Post {
    pub key_id: i32,
    pub cursor: Option<String>,
}

/// A thread, by its root post.
pub struct Thread {
    pub root: Post,
    pub cursor: String,
}

/// A like; its author is not recorded.
pub struct Like {}

impl Like {
    pub fn author(&self) -> (r: Option<Author>)
        ensures
            r == Some(Author { author_id: 0 }),
    {
        Some(Author { author_id: 0 })
    }
}

/// The message stored under the key string `key`.
pub open spec fn message_of_key(idx: &Index, key: Seq<char>, i: int) -> bool {
    0 <= i < idx.messages@.len() && id_of(names(idx.keys@), key, idx.messages@[i].key_id as int)
}

/// Some message is stored under the key string `key`.
pub open spec fn has_message(idx: &Index, key: Seq<char>) -> bool {
    exists|i: int| message_of_key(idx, key, i)
}

/// Whether some message has the content type `t`.
pub open spec fn has_type(idx: &Index, t: Seq<char>) -> bool {
    exists|i: int|
        0 <= i < idx.messages@.len() && opt_view((#[trigger] idx.messages@[i]).content_type)
            == Some(t)
}

/// Some message among the first `n` has the content type `t`.
pub open spec fn type_seen(idx: &Index, t: Seq<char>, n: int) -> bool {
    exists|k: int|
        0 <= k < n && opt_view((#[trigger] idx.messages@[k]).content_type) == Some(t)
}

/// The first message stored under the key string `key`.
fn find_message(index: &Index, key: &str) -> (r: Option<usize>)
    requires
        index.wf(),
    ensures
        r matches Some(i) ==> message_of_key(index, key@, i as int),
        r is None ==> !has_message(index, key@),
{
    let k = String::from_str(key);
    let pos = match position_of(&index.keys, &k) {
        Some(p) => p,
        None => {
            return None;
        },
    };
    let id = (pos + 1) as i32;
    assert(names(index.keys@)[pos as int] == key@);
    let mut i: usize = 0;
    while i < index.messages.len()
        invariant
            i <= index.messages@.len(),
            index.wf(),
            id_of(names(index.keys@), key@, id as int),
            forall|j: int| 0 <= j < i ==> (#[trigger] index.messages@[j]).key_id != id,
        decreases index.messages@.len() - i,
    {
        if index.messages[i].key_id == id {
            return Some(i);
        }
        i = i + 1;
    }
    proof {
        if has_message(index, key@) {
            let j = choose|j: int| message_of_key(index, key@, j);
            let mid = index.messages@[j].key_id as int;
            assert(names(index.keys@)[mid - 1] == names(index.keys@)[id - 1]);
        }
    }
    None
}

/// Some selector of the thread search picks the root message `m`.
pub open spec fn thread_selected(idx: &Index, a: &ThreadsArgs, m: Message) -> bool {
    ||| a.no_selector()
    ||| (a.roots_authored_by matches Some(l) && named(idx, list_names(l))(m.author_id))
    ||| (a.roots_authored_by_someone_followed_by matches Some(l) && follows(
        idx,
        named(idx, list_names(l)),
    )(m.author_id))
    ||| (a.has_replies_authored_by matches Some(l) && replied_by(
        idx,
        m.key_id,
        named(idx, list_names(l)),
    ))
    ||| (a.has_replies_authored_by_someone_followed_by matches Some(l) && replied_by(
        idx,
        m.key_id,
        follows(idx, named(idx, list_names(l))),
    ))
    ||| (a.mentions_authors matches Some(l) && mentions_any(
        idx,
        m.key_id,
        named(idx, list_names(l)),
    ))
}

/// `m` is a thread root that the search finds within `bound`.
pub open spec fn thread_candidate(idx: &Index, a: &ThreadsArgs, bound: Bound, m: Message) -> bool {
    &&& m.root_key_id is None
    &&& thread_selected(idx, a, m)
    &&& privacy_ok(a.privacy, m.is_decrypted)
    &&& in_bound(bound, a.order_by.key(row_of(m)))
}

/// `m` is a post that meets every filter of the search, within `bound`.
pub open spec fn post_candidate(idx: &Index, a: &PostsArgs, bound: Bound, m: Message) -> bool {
    &&& opt_view(m.content_type) == Some("post"@)
    &&& (a.mentions_authors matches Some(l) ==> mentions_any(
        idx,
        m.key_id,
        named(idx, list_names(l)),
    ))
    &&& (a.text_matches matches Some(t) ==> t@.contains(m.key_id))
    &&& privacy_ok(a.privacy, m.is_decrypted)
    &&& (a.authors matches Some(l) ==> named(idx, list_names(l))(m.author_id))
    &&& in_bound(bound, a.order_by.key(row_of(m)))
}

pub open spec fn thread_rows(idx: &Index, a: &ThreadsArgs, bound: Bound) -> Seq<Row> {
    rows_where(idx.messages@, |m: Message| thread_candidate(idx, a, bound, m))
}

pub open spec fn post_rows(idx: &Index, a: &PostsArgs, bound: Bound) -> Seq<Row> {
    rows_where(idx.messages@, |m: Message| post_candidate(idx, a, bound, m))
}

/// A page of `cands` under `plan`, shown as `edges` and `info`, one edge per
/// key; `outside` tells whether the cursor's bound left filtered rows out.
pub open spec fn page_of(
    cands: Seq<Row>,
    ord: OrderBy,
    plan: PagePlan,
    outside: bool,
    edges: Seq<(i32, String)>,
    info: PageInfo,
) -> bool {
    &&& forall|i: int, j: int| 0 <= i < j < edges.len() ==> edges[i].0 != edges[j].0
    &&& exists|w: Seq<Row>, more: bool|
        window_ok(cands, ord, plan.descending, plan.limit as nat, w, more) && edges_for(
            ord,
            w,
            edges,
        ) && page_info_for(ord, plan, w, more, outside, info)
}

/// Some thread root passes every filter of the search but the cursor's bound.
pub open spec fn thread_outside(idx: &Index, a: &ThreadsArgs, bound: Bound) -> bool {
    exists|i: int|
        0 <= i < idx.messages@.len() && thread_candidate(
            idx,
            a,
            Bound::Unbounded,
            #[trigger] idx.messages@[i],
        ) && !in_bound(bound, a.order_by.key(row_of(idx.messages@[i])))
}

/// Some post passes every filter of the search but the cursor's bound.
pub open spec fn post_outside(idx: &Index, a: &PostsArgs, bound: Bound) -> bool {
    exists|i: int|
        0 <= i < idx.messages@.len() && post_candidate(
            idx,
            a,
            Bound::Unbounded,
            #[trigger] idx.messages@[i],
        ) && !in_bound(bound, a.order_by.key(row_of(idx.messages@[i])))
}

/// Some message among the first `n` satisfies both `p` and `q`.
pub open spec fn some_before(
    msgs: Seq<Message>,
    n: int,
    p: spec_fn(Message) -> bool,
    q: spec_fn(Message) -> bool,
) -> bool {
    exists|k: int| 0 <= k < n && p(#[trigger] msgs[k]) && q(msgs[k])
}

proof fn lemma_outside_step(
    msgs: Seq<Message>,
    i: int,
    p: spec_fn(Message) -> bool,
    q: spec_fn(Message) -> bool,
)
    requires
        0 <= i < msgs.len(),
    ensures
        some_before(msgs, i + 1, p, q) <==> some_before(msgs, i, p, q) || (p(msgs[i]) && q(
            msgs[i],
        )),
{
    if some_before(msgs, i + 1, p, q) {
        let k = choose|k: int| 0 <= k < i + 1 && p(#[trigger] msgs[k]) && q(msgs[k]);
        if k < i {
            assert(some_before(msgs, i, p, q));
        }
    }
    if some_before(msgs, i, p, q) {
        let k = choose|k: int| 0 <= k < i && p(#[trigger] msgs[k]) && q(msgs[k]);
        assert(0 <= k < i + 1);
    }
}

/// The edges of a page of distinct keys have distinct keys.
proof fn lemma_edges_distinct(
    cands: Seq<Row>,
    ord: OrderBy,
    plan: PagePlan,
    w: Seq<Row>,
    more: bool,
    edges: Seq<(i32, String)>,
)
    requires
        window_ok(cands, ord, plan.descending, plan.limit as nat, w, more),
        distinct_keys(cands),
        edges_for(ord, w, edges),
    ensures
        forall|i: int, j: int| 0 <= i < j < edges.len() ==> edges[i].0 != edges[j].0,
{
    lemma_window_keys_distinct(cands, ord, plan.descending, plan.limit as nat, w, more);
    assert forall|i: int, j: int| 0 <= i < j < edges.len() implies edges[i].0 != edges[j].0 by {
        assert(edges[i].0 == w[i].key_id);
        assert(edges[j].0 == w[j].key_id);
    }
}

/// The rows of the messages whose flag is set, in log order.
fn collect_rows(
    msgs: &Vec<Message>,
    flags: &Vec<bool>,
    Ghost(p): Ghost<spec_fn(Message) -> bool>,
) -> (r: Vec<Row>)
    requires
        flags@.len() == msgs@.len(),
        forall|i: int| 0 <= i < msgs@.len() ==> flags@[i] == p(#[trigger] msgs@[i]),
        seqs_increasing(msgs@),
        key_ids_distinct(msgs@),
    ensures
        r@ == rows_where(msgs@, p),
        distinct_seqs(r@),
        distinct_keys(r@),
{
    let mut r: Vec<Row> = Vec::new();
    let mut i: usize = 0;
    while i < msgs.len()
        invariant
            i <= msgs@.len(),
            flags@.len() == msgs@.len(),
            forall|i: int| 0 <= i < msgs@.len() ==> flags@[i] == p(#[trigger] msgs@[i]),
            seqs_increasing(msgs@),
            r@ == rows_where(msgs@.take(i as int), p),
            forall|a: int, b: int| 0 <= a < b < r@.len() ==> r@[a].flume_seq < r@[b].flume_seq,
            r@.len() > 0 ==> i > 0 && r@.last().flume_seq <= msgs@[i - 1].flume_seq,
            key_ids_distinct(msgs@),
            distinct_keys(r@),
            forall|k: int|
                #![trigger r@[k]]
                0 <= k < r@.len() ==> exists|j: int|
                    0 <= j < i && (#[trigger] msgs@[j]).key_id == r@[k].key_id,
        decreases msgs@.len() - i,
    {
        let m = &msgs[i];
        assert(msgs@.take(i + 1).drop_last() =~= msgs@.take(i as int));
        assert(msgs@.take(i + 1).last() == msgs@[i as int]);
        if flags[i] {
            let row = Row {
                key_id: m.key_id,
                flume_seq: m.flume_seq,
                asserted: match m.asserted_time {
                    Some(t) => t,
                    None => 0,
                },
            };
            proof {
                if r@.len() > 0 {
                    assert(msgs@[i - 1].flume_seq < msgs@[i as int].flume_seq);
                }
                assert forall|k: int| 0 <= k < r@.len() implies r@[k].key_id != row.key_id by {
                    let j = choose|j: int|
                        0 <= j < i && (#[trigger] msgs@[j]).key_id == r@[k].key_id;
                    assert(msgs@[j].key_id != msgs@[i as int].key_id);
                }
            }
            let ghost old_r = r@;
            r.push(row);
            proof {
                assert forall|k: int| #![trigger r@[k]] 0 <= k < r@.len() implies exists|j: int|
                    0 <= j < i + 1 && (#[trigger] msgs@[j]).key_id == r@[k].key_id by {
                    if k < old_r.len() {
                        assert(r@[k] == old_r[k]);
                        let j = choose|j: int|
                            0 <= j < i && (#[trigger] msgs@[j]).key_id == old_r[k].key_id;
                        assert(0 <= j < i + 1 && msgs@[j].key_id == r@[k].key_id);
                    } else {
                        assert(msgs@[i as int].key_id == r@[k].key_id);
                    }
                }
            }
        }
        i = i + 1;
    }
    assert(msgs@.take(msgs@.len() as int) =~= msgs@);
    r
}

/// Author ids for an optional list of public identifiers.
fn opt_author_ids(index: &Index, list: &Option<Vec<String>>) -> (r: Option<Vec<i32>>)
    requires
        index.wf(),
    ensures
        r is Some <==> list is Some,
        *list matches Some(l) ==> forall|id: i32|
            r->Some_0@.contains(id) <==> named(index, list_names(l))(id),
{
    match list {
        Some(l) => Some(author_ids(index, l)),
        None => None,
    }
}

/// Ids of the authors followed by someone in an optional list.
fn opt_followed_ids(index: &Index, list: &Option<Vec<String>>) -> (r: Option<Vec<i32>>)
    requires
        index.wf(),
    ensures
        r is Some <==> list is Some,
        *list matches Some(l) ==> forall|id: i32|
            r->Some_0@.contains(id) <==> follows(index, named(index, list_names(l)))(id),
{
    match list {
        Some(l) => {
            let ids = author_ids(index, l);
            Some(followed_ids(index, &ids, Ghost(named(index, list_names(*l)))))
        },
        None => None,
    }
}

/// Every row that `rows_where` gives is the row of a message that `p` holds of.
pub proof fn lemma_rows_where_sound(msgs: Seq<Message>, p: spec_fn(Message) -> bool, r: Row)
    requires
        rows_where(msgs, p).contains(r),
    ensures
        exists|i: int| 0 <= i < msgs.len() && p(msgs[i]) && row_of(#[trigger] msgs[i]) == r,
    decreases msgs.len(),
{
    let prev = rows_where(msgs.drop_last(), p);
    if prev.contains(r) {
        lemma_rows_where_sound(msgs.drop_last(), p, r);
        let i = choose|i: int|
            0 <= i < msgs.drop_last().len() && p(msgs.drop_last()[i]) && row_of(
                #[trigger] msgs.drop_last()[i],
            ) == r;
        assert(msgs[i] == msgs.drop_last()[i]);
    } else {
        let s = rows_where(msgs, p);
        let j = choose|j: int| 0 <= j < s.len() && s[j] == r;
        if !p(msgs.last()) {
            assert(s == prev);
        } else {
            assert(s == prev.push(row_of(msgs.last())));
            if j < prev.len() {
                assert(prev[j] == r);
            }
            assert(row_of(msgs[msgs.len() - 1]) == r);
        }
    }
}

/// A thread search finds only thread roots whose privacy is the one asked for.
pub proof fn lemma_threads_respect_privacy(idx: &Index, a: &ThreadsArgs, bound: Bound, r: Row)
    requires
        thread_rows(idx, a, bound).contains(r),
    ensures
        exists|i: int|
            0 <= i < idx.messages@.len() && row_of(#[trigger] idx.messages@[i]) == r && privacy_ok(
                a.privacy,
                idx.messages@[i].is_decrypted,
            ) && idx.messages@[i].root_key_id is None,
{
    lemma_rows_where_sound(idx.messages@, |m: Message| thread_candidate(idx, a, bound, m), r);
}

/// A post search finds only posts whose privacy is the one asked for.
pub proof fn lemma_posts_respect_privacy(idx: &Index, a: &PostsArgs, bound: Bound, r: Row)
    requires
        post_rows(idx, a, bound).contains(r),
    ensures
        exists|i: int|
            0 <= i < idx.messages@.len() && row_of(#[trigger] idx.messages@[i]) == r && privacy_ok(
                a.privacy,
                idx.messages@[i].is_decrypted,
            ),
{
    lemma_rows_where_sound(idx.messages@, |m: Message| post_candidate(idx, a, bound, m), r);
}

/// Both searches refuse a request that gives both `before` and `after`.
pub proof fn lemma_both_cursors_refused(a: &ThreadsArgs, b: &PostsArgs)
    requires
        a.before is Some && a.after is Some,
        b.before is Some && b.after is Some,
    ensures
        a.plan() == Err::<PagePlan, QueryError>(QueryError::BothCursors),
        b.plan() == Err::<PagePlan, QueryError>(QueryError::BothCursors),
{
}

/// With no pagination argument a search takes at most ten rows, newest first,
/// with no bound.
pub proof fn lemma_default_page(a: &ThreadsArgs, b: &PostsArgs)
    requires
        a.before is None && a.after is None && a.last is None && a.first is None,
        b.before is None && b.after is None && b.last is None && b.first is None,
    ensures
        a.plan() == Ok::<PagePlan, QueryError>(
            PagePlan { bound: Bound::Unbounded, descending: true, limit: 10},
        ),
        b.plan() == Ok::<PagePlan, QueryError>(
            PagePlan { bound: Bound::Unbounded, descending: true, limit: 10},
        ),
{
}

/// With no selector, every public-enough root within the bound is a thread
/// candidate.
pub proof fn lemma_no_selector_keeps_all_roots(idx: &Index, a: &ThreadsArgs, bound: Bound, m: Message)
    requires
        a.no_selector(),
    ensures
        thread_candidate(idx, a, bound, m) <==> m.root_key_id is None && privacy_ok(
            a.privacy,
            m.is_decrypted,
        ) && in_bound(bound, a.order_by.key(row_of(m))),
{
}

/// `c` supplies each selector that `a` or `b` supplies, taken from whichever
/// supplies it, and no selector is supplied by both.
pub open spec fn selectors_joined(a: &ThreadsArgs, b: &ThreadsArgs, c: &ThreadsArgs) -> bool {
    &&& !(a.roots_authored_by is Some && b.roots_authored_by is Some)
    &&& !(a.roots_authored_by_someone_followed_by is Some
        && b.roots_authored_by_someone_followed_by is Some)
    &&& !(a.has_replies_authored_by is Some && b.has_replies_authored_by is Some)
    &&& !(a.has_replies_authored_by_someone_followed_by is Some
        && b.has_replies_authored_by_someone_followed_by is Some)
    &&& !(a.mentions_authors is Some && b.mentions_authors is Some)
    &&& c.roots_authored_by == if a.roots_authored_by is Some {
        a.roots_authored_by
    } else {
        b.roots_authored_by
    }
    &&& c.roots_authored_by_someone_followed_by == if a.roots_authored_by_someone_followed_by is Some {
        a.roots_authored_by_someone_followed_by
    } else {
        b.roots_authored_by_someone_followed_by
    }
    &&& c.has_replies_authored_by == if a.has_replies_authored_by is Some {
        a.has_replies_authored_by
    } else {
        b.has_replies_authored_by
    }
    &&& c.has_replies_authored_by_someone_followed_by
        == if a.has_replies_authored_by_someone_followed_by is Some {
        a.has_replies_authored_by_someone_followed_by
    } else {
        b.has_replies_authored_by_someone_followed_by
    }
    &&& c.mentions_authors == if a.mentions_authors is Some {
        a.mentions_authors
    } else {
        b.mentions_authors
    }
}

/// Supplying the selectors of two thread searches together finds the union of
/// the threads that each finds alone, before pagination.
pub proof fn lemma_thread_selectors_union(
    idx: &Index,
    a: &ThreadsArgs,
    b: &ThreadsArgs,
    c: &ThreadsArgs,
    m: Message,
)
    requires
        !a.no_selector(),
        !b.no_selector(),
        selectors_joined(a, b, c),
    ensures
        thread_selected(idx, c, m) <==> thread_selected(idx, a, m) || thread_selected(idx, b, m),
{
}

/// `c` supplies each filter that `a` or `b` supplies, taken from whichever
/// supplies it, no filter is supplied by both, and all three ask for the same
/// privacy and order.
pub open spec fn filters_joined(a: &PostsArgs, b: &PostsArgs, c: &PostsArgs) -> bool {
    &&& !(a.text_matches is Some && b.text_matches is Some)
    &&& !(a.authors is Some && b.authors is Some)
    &&& !(a.mentions_authors is Some && b.mentions_authors is Some)
    &&& c.text_matches == if a.text_matches is Some {
        a.text_matches
    } else {
        b.text_matches
    }
    &&& c.authors == if a.authors is Some {
        a.authors
    } else {
        b.authors
    }
    &&& c.mentions_authors == if a.mentions_authors is Some {
        a.mentions_authors
    } else {
        b.mentions_authors
    }
    &&& a.privacy == c.privacy && b.privacy == c.privacy
    &&& a.order_by == c.order_by && b.order_by == c.order_by
}

/// Supplying the filters of two post searches together finds the
/// intersection of the posts that each finds alone, before pagination.
pub proof fn lemma_post_filters_intersection(
    idx: &Index,
    a: &PostsArgs,
    b: &PostsArgs,
    c: &PostsArgs,
    bound: Bound,
    m: Message,
)
    requires
        filters_joined(a, b, c),
    ensures
        post_candidate(idx, c, bound, m) <==> post_candidate(idx, a, bound, m) && post_candidate(
            idx,
            b,
            bound,
            m,
        ),
{
}

impl Query {
    /// Searches threads. A thread is found when any given selector picks it,
    /// or when no selector is given; privacy and the page bound then apply to
    /// every thread alike. The threads come one per root, in page order.
    pub fn threads(&self, index: &Index, args: &ThreadsArgs) -> (r: Result<
        ThreadConnection,
        QueryError,
    >)
        requires
            index.wf(),
        ensures
            args.before is Some && args.after is Some ==> r == Err::<ThreadConnection, QueryError>(
                QueryError::BothCursors,
            ),
            args.plan() matches Err(e) ==> r == Err::<ThreadConnection, QueryError>(e),
            args.plan() matches Ok(plan) ==> (r matches Ok(c) && c.next == DEFAULT_PAGE_SIZE
                && page_of(
                thread_rows(index, args, plan.bound),
                args.order_by,
                plan,
                thread_outside(index, args, plan.bound),
                c.thread_keys_and_cursor@,
                c.page_info,
            )),
    {
        let plan = plan_page(&args.before, &args.after, args.last, args.first)?;
        let roots_by = opt_author_ids(index, &args.roots_authored_by);
        let roots_followed = opt_followed_ids(index, &args.roots_authored_by_someone_followed_by);
        let reply_ids = opt_author_ids(index, &args.has_replies_authored_by);
        let reply_roots: Option<Vec<i32>> = match &reply_ids {
            Some(ids) => Some(
                reply_root_keys(
                    index,
                    ids,
                    Ghost(named(index, list_names(args.has_replies_authored_by->Some_0))),
                ),
            ),
            None => None,
        };
        let reply_followed_ids = opt_followed_ids(
            index,
            &args.has_replies_authored_by_someone_followed_by,
        );
        let reply_followed_roots: Option<Vec<i32>> = match &reply_followed_ids {
            Some(ids) => Some(
                reply_root_keys(
                    index,
                    ids,
                    Ghost(
                        follows(
                            index,
                            named(
                                index,
                                list_names(args.has_replies_authored_by_someone_followed_by->Some_0),
                            ),
                        ),
                    ),
                ),
            ),
            None => None,
        };
        let mention_ids = opt_author_ids(index, &args.mentions_authors);
        let mentioning: Option<Vec<i32>> = match &mention_ids {
            Some(ids) => Some(
                mentioning_keys(
                    index,
                    ids,
                    Ghost(named(index, list_names(args.mentions_authors->Some_0))),
                ),
            ),
            None => None,
        };
        let no_selector = args.roots_authored_by.is_none()
            && args.roots_authored_by_someone_followed_by.is_none()
            && args.has_replies_authored_by.is_none()
            && args.has_replies_authored_by_someone_followed_by.is_none()
            && args.mentions_authors.is_none();
        let ghost p = |m: Message| thread_candidate(index, args, plan.bound, m);
        let mut flags: Vec<bool> = Vec::new();
        let mut outside = false;
        let mut i: usize = 0;
        while i < index.messages.len()
            invariant
                index.wf(),
                i <= index.messages@.len(),
                flags@.len() == i,
                forall|k: int| 0 <= k < i ==> flags@[k] == p(#[trigger] index.messages@[k]),
                roots_by is Some <==> args.roots_authored_by is Some,
                args.roots_authored_by matches Some(l) ==> forall|id: i32|
                    roots_by->Some_0@.contains(id) <==> named(index, list_names(l))(id),
                roots_followed is Some <==> args.roots_authored_by_someone_followed_by is Some,
                args.roots_authored_by_someone_followed_by matches Some(l) ==> forall|id: i32|
                    roots_followed->Some_0@.contains(id) <==> follows(
                        index,
                        named(index, list_names(l)),
                    )(id),
                reply_roots is Some <==> args.has_replies_authored_by is Some,
                args.has_replies_authored_by matches Some(l) ==> forall|k: i32|
                    reply_roots->Some_0@.contains(k) <==> replied_by(
                        index,
                        k,
                        named(index, list_names(l)),
                    ),
                reply_followed_roots is Some
                    <==> args.has_replies_authored_by_someone_followed_by is Some,
                args.has_replies_authored_by_someone_followed_by matches Some(l) ==> forall|k: i32|
                    reply_followed_roots->Some_0@.contains(k) <==> replied_by(
                        index,
                        k,
                        follows(index, named(index, list_names(l))),
                    ),
                mentioning is Some <==> args.mentions_authors is Some,
                args.mentions_authors matches Some(l) ==> forall|k: i32|
                    mentioning->Some_0@.contains(k) <==> mentions_any(
                        index,
                        k,
                        named(index, list_names(l)),
                    ),
                no_selector == args.no_selector(),
                outside == some_before(
                    index.messages@,
                    i as int,
                    |m: Message| thread_candidate(index, args, Bound::Unbounded, m),
                    |m: Message| !in_bound(plan.bound, args.order_by.key(row_of(m))),
                ),
                p == (|m: Message| thread_candidate(index, args, plan.bound, m)),
            decreases index.messages@.len() - i,
        {
            let m = &index.messages[i];
            let selected = no_selector || opt_contains(&roots_by, m.author_id) || opt_contains(
                &roots_followed,
                m.author_id,
            ) || opt_contains(&reply_roots, m.key_id) || opt_contains(
                &reply_followed_roots,
                m.key_id,
            ) || opt_contains(&mentioning, m.key_id);
            let row = Row {
                key_id: m.key_id,
                flume_seq: m.flume_seq,
                asserted: match m.asserted_time {
                    Some(t) => t,
                    None => 0,
                },
            };
            let pass = m.root_key_id.is_none() && selected && privacy_allows(
                args.privacy,
                m.is_decrypted,
            );
            let inside = bound_holds(plan.bound, args.order_by.key_of(&row));
            let keep = pass && inside;
            assert(row == row_of(*m));
            proof {
                assert(pass == thread_candidate(index, args, Bound::Unbounded, *m));
                lemma_outside_step(
                    index.messages@,
                    i as int,
                    |m: Message| thread_candidate(index, args, Bound::Unbounded, m),
                    |m: Message| !in_bound(plan.bound, args.order_by.key(row_of(m))),
                );
            }
            if pass && !inside {
                outside = true;
            }
            assert(selected == thread_selected(index, args, *m));
            assert(keep == p(*m));
            let ghost old_flags = flags@;
            flags.push(keep);
            assert(forall|k: int| 0 <= k < i ==> flags@[k] == old_flags[k]);
            i = i + 1;
        }
        assert(outside == thread_outside(index, args, plan.bound));
        let rows = collect_rows(&index.messages, &flags, Ghost(p));
        let (window, more) = select_window(&rows, args.order_by, plan.descending, plan.limit);
        let edges = page_edges(&window, args.order_by);
        proof {
            lemma_edges_distinct(rows@, args.order_by, plan, window@, more, edges@);
        }
        let info = page_info(&window, args.order_by, plan, more, outside);
        Ok(ThreadConnection { next: DEFAULT_PAGE_SIZE, thread_keys_and_cursor: edges, page_info: info })
    }
    /// Searches posts. A post is found when it meets every given filter: its
    /// author, an author it mentions, a key the text index matched, and the
    /// privacy asked for. Posts come in page order.
    pub fn posts(&self, index: &Index, args: &PostsArgs) -> (r: Result<PostConnection, QueryError>)
        requires
            index.wf(),
        ensures
            args.before is Some && args.after is Some ==> r == Err::<PostConnection, QueryError>(
                QueryError::BothCursors,
            ),
            args.plan() matches Err(e) ==> r == Err::<PostConnection, QueryError>(e),
            args.plan() matches Ok(plan) ==> (r matches Ok(c) && c.next == DEFAULT_PAGE_SIZE
                && page_of(
                post_rows(index, args, plan.bound),
                args.order_by,
                plan,
                post_outside(index, args, plan.bound),
                c.post_keys_and_cursor@,
                c.page_info,
            )),
    {
        let plan = plan_page(&args.before, &args.after, args.last, args.first)?;
        let mention_ids = opt_author_ids(index, &args.mentions_authors);
        let mentioning: Option<Vec<i32>> = match &mention_ids {
            Some(ids) => Some(
                mentioning_keys(
                    index,
                    ids,
                    Ghost(named(index, list_names(args.mentions_authors->Some_0))),
                ),
            ),
            None => None,
        };
        let authored = opt_author_ids(index, &args.authors);
        let post_type = String::from_str("post");
        let ghost p = |m: Message| post_candidate(index, args, plan.bound, m);
        let mut flags: Vec<bool> = Vec::new();
        let mut outside = false;
        let mut i: usize = 0;
        while i < index.messages.len()
            invariant
                index.wf(),
                i <= index.messages@.len(),
                flags@.len() == i,
                forall|k: int| 0 <= k < i ==> flags@[k] == p(#[trigger] index.messages@[k]),
                mentioning is Some <==> args.mentions_authors is Some,
                args.mentions_authors matches Some(l) ==> forall|k: i32|
                    mentioning->Some_0@.contains(k) <==> mentions_any(
                        index,
                        k,
                        named(index, list_names(l)),
                    ),
                authored is Some <==> args.authors is Some,
                args.authors matches Some(l) ==> forall|id: i32|
                    authored->Some_0@.contains(id) <==> named(index, list_names(l))(id),
                post_type@ == "post"@,
                outside == some_before(
                    index.messages@,
                    i as int,
                    |m: Message| post_candidate(index, args, Bound::Unbounded, m),
                    |m: Message| !in_bound(plan.bound, args.order_by.key(row_of(m))),
                ),
                p == (|m: Message| post_candidate(index, args, plan.bound, m)),
            decreases index.messages@.len() - i,
        {
            let m = &index.messages[i];
            let is_post = match &m.content_type {
                Some(t) => *t == post_type,
                None => false,
            };
            let mentions_ok = mentioning.is_none() || opt_contains(&mentioning, m.key_id);
            let text_ok = args.text_matches.is_none() || opt_contains(&args.text_matches, m.key_id);
            let authors_ok = authored.is_none() || opt_contains(&authored, m.author_id);
            let row = Row {
                key_id: m.key_id,
                flume_seq: m.flume_seq,
                asserted: match m.asserted_time {
                    Some(t) => t,
                    None => 0,
                },
            };
            let pass = is_post && mentions_ok && text_ok && privacy_allows(
                args.privacy,
                m.is_decrypted,
            ) && authors_ok;
            let inside = bound_holds(plan.bound, args.order_by.key_of(&row));
            let keep = pass && inside;
            assert(row == row_of(*m));
            proof {
                assert(pass == post_candidate(index, args, Bound::Unbounded, *m));
                lemma_outside_step(
                    index.messages@,
                    i as int,
                    |m: Message| post_candidate(index, args, Bound::Unbounded, m),
                    |m: Message| !in_bound(plan.bound, args.order_by.key(row_of(m))),
                );
            }
            if pass && !inside {
                outside = true;
            }
            assert(keep == p(*m));
            let ghost old_flags = flags@;
            flags.push(keep);
            assert(forall|k: int| 0 <= k < i ==> flags@[k] == old_flags[k]);
            i = i + 1;
        }
        assert(outside == post_outside(index, args, plan.bound));
        let rows = collect_rows(&index.messages, &flags, Ghost(p));
        let (window, more) = select_window(&rows, args.order_by, plan.descending, plan.limit);
        let edges = page_edges(&window, args.order_by);
        proof {
            lemma_edges_distinct(rows@, args.order_by, plan, window@, more, edges@);
        }
        let info = page_info(&window, args.order_by, plan, more, outside);
        Ok(PostConnection { next: DEFAULT_PAGE_SIZE, post_keys_and_cursor: edges, page_info: info })
    }
    /// The cursor of the newest message, or none for an empty index.
    pub fn db_cursor(&self, index: &Index) -> (r: Option<String>)
        ensures
            index.messages@.len() == 0 ==> r is None,
            index.messages@.len() > 0 ==> (r matches Some(c) && c@ == cursor_text(
                last_seq(index.messages@),
            )),
    {
        let n = index.messages.len();
        if n == 0 {
            None
        } else {
            Some(encode_cursor(index.messages[n - 1].flume_seq))
        }
    }

    /// The author with publishing rights on this machine.
    pub fn current_author(&self, index: &Index) -> (r: Option<Author>)
        ensures
            index.me matches Some(m) ==> r == Some(Author { author_id: m }),
            index.me is None ==> r is None,
    {
        match index.me {
            Some(m) => Some(Author { author_id: m }),
            None => None,
        }
    }

    /// The thread whose root message has the key string `root_id`.
    pub fn thread(&self, index: &Index, root_id: &str) -> (r: Option<Thread>)
        requires
            index.wf(),
        ensures
            r is Some <==> has_message(index, root_id@),
            r matches Some(t) ==> id_of(names(index.keys@), root_id@, t.root.key_id as int)
                && t.root.cursor is None,
    {
        match find_message(index, root_id) {
            Some(i) => Some(
                Thread {
                    root: Post { key_id: index.messages[i].key_id, cursor: None },
                    cursor: String::new(),
                },
            ),
            None => None,
        }
    }

    /// The thread that holds the post with key string `post_id`: the thread of
    /// its root, or its own thread where it is a root.
    pub fn thread_for_post(&self, index: &Index, post_id: &str) -> (r: Option<Thread>)
        requires
            index.wf(),
        ensures
            r is Some <==> has_message(index, post_id@),
            r matches Some(t) ==> exists|i: int|
                message_of_key(index, post_id@, i) && t.root.key_id == match index.messages@[i].root_key_id {
                    Some(k) => k,
                    None => index.messages@[i].key_id,
                },
    {
        match find_message(index, post_id) {
            Some(i) => {
                let m = &index.messages[i];
                let key = match m.root_key_id {
                    Some(k) => k,
                    None => m.key_id,
                };
                Some(Thread { root: Post { key_id: key, cursor: None }, cursor: String::new() })
            },
            None => None,
        }
    }

    /// The post with the key string `id`.
    pub fn post(&self, index: &Index, id: &str) -> (r: Option<Post>)
        requires
            index.wf(),
        ensures
            r is Some <==> has_message(index, id@),
            r matches Some(p) ==> id_of(names(index.keys@), id@, p.key_id as int) && p.cursor is None,
    {
        match find_message(index, id) {
            Some(i) => Some(Post { key_id: index.messages[i].key_id, cursor: None }),
            None => None,
        }
    }

    /// The author with the public identifier `id`.
    pub fn author(&self, index: &Index, id: &str) -> (r: Option<Author>)
        requires
            index.wf(),
        ensures
            r is Some <==> names(index.authors@).contains(id@),
            r matches Some(a) ==> id_of(names(index.authors@), id@, a.author_id as int),
    {
        let k = String::from_str(id);
        match position_of(&index.authors, &k) {
            Some(p) => {
                assert(names(index.authors@)[p as int] == id@);
                Some(Author { author_id: (p + 1) as i32 })
            },
            None => None,
        }
    }

    /// The content of the message with the key string `id`.
    pub fn message(&self, index: &Index, id: &str) -> (r: Option<String>)
        requires
            index.wf(),
        ensures
            !has_message(index, id@) ==> r is None,
            has_message(index, id@) ==> exists|i: int|
                message_of_key(index, id@, i) && opt_view(r) == opt_view(
                    index.messages@[i].content,
                ),
    {
        match find_message(index, id) {
            Some(i) => match &index.messages[i].content {
                Some(c) => Some(c.clone()),
                None => None,
            },
            None => None,
        }
    }

    /// Every content type that some message has, each once.
    pub fn message_types(&self, index: &Index) -> (r: Vec<String>)
        ensures
            forall|t: Seq<char>| names(r@).contains(t) <==> has_type(index, t),
            unique(names(r@)),
    {
        let mut r: Vec<String> = Vec::new();
        let mut i: usize = 0;
        while i < index.messages.len()
            invariant
                i <= index.messages@.len(),
                unique(names(r@)),
                forall|t: Seq<char>| names(r@).contains(t) <==> type_seen(index, t, i as int),
            decreases index.messages@.len() - i,
        {
            let ghost old_r = names(r@);
            let ghost ct = opt_view(index.messages@[i as int].content_type);
            proof {
                assert forall|t: Seq<char>|
                    type_seen(index, t, i + 1) <==> type_seen(index, t, i as int) || ct == Some(t) by {
                    if ct == Some(t) {
                        assert(opt_view(index.messages@[i as int].content_type) == Some(t));
                    }
                    if type_seen(index, t, i + 1) {
                        let k = choose|k: int|
                            0 <= k < i + 1 && opt_view((#[trigger] index.messages@[k]).content_type)
                                == Some(t);
                        if k < i {
                            assert(type_seen(index, t, i as int));
                        }
                    }
                    if type_seen(index, t, i as int) {
                        let k = choose|k: int|
                            0 <= k < i && opt_view((#[trigger] index.messages@[k]).content_type)
                                == Some(t);
                        assert(0 <= k < i + 1);
                    }
                }
            }
            match &index.messages[i].content_type {
                Some(t) => {
                    match position_of(&r, t) {
                        Some(p) => {
                            assert(old_r[p as int] == t@);
                            assert(old_r.contains(t@));
                            assert(names(r@) == old_r);
                            assert(ct == Some(t@));
                        },
                        None => {
                            r.push(t.clone());
                            proof {
                                assert(names(r@) =~= old_r.push(t@));
                                assert forall|a: int, b: int|
                                    0 <= a < b < names(r@).len() implies names(r@)[a] != names(
                                        r@,
                                    )[b] by {
                                    if b == old_r.len() && names(r@)[a] == t@ {
                                        assert(old_r[a] == t@);
                                    }
                                }
                                assert forall|x: Seq<char>|
                                    names(r@).contains(x) <==> old_r.contains(x) || x == t@ by {
                                    if names(r@).contains(x) {
                                        let j = choose|j: int|
                                            0 <= j < names(r@).len() && names(r@)[j] == x;
                                        if j < old_r.len() {
                                            assert(old_r[j] == x);
                                        }
                                    }
                                    if old_r.contains(x) {
                                        let j = choose|j: int| 0 <= j < old_r.len() && old_r[j] == x;
                                        assert(names(r@)[j] == x);
                                    }
                                    if x == t@ {
                                        assert(names(r@)[old_r.len() as int] == x);
                                    }
                                }
                            }
                        },
                    }
                },
                None => {
                    assert(names(r@) == old_r);
                    assert(ct is None);
                },
            }
            proof {
                assert(forall|x: Seq<char>|
                    names(r@).contains(x) <==> (old_r.contains(x) || ct == Some(x)));
                assert forall|x: Seq<char>|
                    names(r@).contains(x) <==> type_seen(index, x, i + 1) by {
                    assert(old_r.contains(x) <==> type_seen(index, x, i as int));
                    assert(type_seen(index, x, i + 1) <==> type_seen(index, x, i as int) || ct == Some(x));
                }
            }
            i = i + 1;
        }
        proof {
            assert forall|t: Seq<char>| type_seen(index, t, index.messages@.len() as int) <==> has_type(
                index,
                t,
            ) by {
                if has_type(index, t) {
                    let k = choose|k: int|
                        0 <= k < index.messages@.len() && opt_view(
                            (#[trigger] index.messages@[k]).content_type,
                        ) == Some(t);
                    assert(type_seen(index, t, index.messages@.len() as int));
                }
                if type_seen(index, t, index.messages@.len() as int) {
                let k = choose|k: int|
                    0 <= k < index.messages@.len() && opt_view(
                        (#[trigger] index.messages@[k]).content_type,
                    ) == Some(t);
                }
            }
        }
        r
    }

    /// Searching authors by name is not built.
    pub fn authors(
        &self,
        index: &Index,
        query: &str,
        exclude_if_blocked_by: &Option<Vec<String>>,
        include_descriptions: bool,
    ) -> (r: Result<Vec<Author>, QueryError>)
        ensures
            r == Err::<Vec<Author>, QueryError>(QueryError::NotImplemented),
    {
        Err(QueryError::NotImplemented)
    }

    /// Listing messages by type is not built.
    pub fn messages_by_type(&self, index: &Index, message_type: &str) -> (r: Result<
        String,
        QueryError,
    >)
        ensures
            r is Err && r->Err_0 == QueryError::NotImplemented,
    {
        Err(QueryError::NotImplemented)
    }

    /// Searching links between messages is not built.
    pub fn links(&self, index: &Index, from: &Option<String>, to: &Option<String>) -> (r: Result<
        Vec<Author>,
        QueryError,
    >)
        ensures
            r == Err::<Vec<Author>, QueryError>(QueryError::NotImplemented),
    {
        Err(QueryError::NotImplemented)
    }
}

} // verus!
